use gitanalyser::expression_interpreter::evaluate;
use gitanalyser::expression_parser::parse;
use gitanalyser::expression_parser::Expr;

fn leaf(source: &str) -> Expr {
    Expr::pattern(source).unwrap()
}

fn source_of(expr: &Expr) -> String {
    match expr {
        Expr::Regex(pattern) => pattern.as_str().to_string(),
        _ => panic!("not a pattern: {:?}", expr),
    }
}

#[test]
fn test_eval() {
    let input = "AND(OR(abc,def),NOT(ghi))";
    let expression = parse(input).unwrap();
    assert!(evaluate(&expression, "abc"));
    assert!(evaluate(&expression, "def"));
    assert!(!evaluate(&expression, "ghi"));
}

#[test]
fn test_eval2() {
    let input = "AND(OR(abc,def),ghi)";
    let expression = parse(input).unwrap();
    assert!(!evaluate(&expression, "abc"));
    assert!(evaluate(&expression, "abcghi"));
    assert!(evaluate(&expression, "defghi"));
}

#[test]
fn test_eval3() {
    let input = "AND(OR(abc,def),lomb,par)";
    let expression = parse(input).unwrap();
    assert!(!evaluate(&expression, "abc"));
    assert!(!evaluate(&expression, "abclomb"));
    assert!(evaluate(&expression, "deflombxpar"));
}

#[test]
fn empty_conjunction_holds_everywhere() {
    let expression = Expr::And(Vec::new());
    assert!(evaluate(&expression, ""));
    assert!(evaluate(&expression, "abc"));
    assert!(evaluate(&expression, "any text\nat all"));
}

#[test]
fn empty_disjunction_holds_nowhere() {
    let expression = Expr::Or(Vec::new());
    assert!(!evaluate(&expression, ""));
    assert!(!evaluate(&expression, "abc"));
    assert!(!evaluate(&expression, "any text\nat all"));
}

#[test]
fn negation_turns_the_result_round() {
    let expression = Expr::Not(Box::new(leaf("abc")));
    assert!(!evaluate(&expression, "xabcx"));
    assert!(evaluate(&expression, "xabx"));
    let twice = Expr::Not(Box::new(expression));
    assert!(evaluate(&twice, "xabcx"));
    assert!(!evaluate(&twice, "xabx"));
}

#[test]
fn pattern_matches_anywhere_in_the_text() {
    let expression = leaf("b+c");
    assert!(evaluate(&expression, "aabbbcc"));
    assert!(evaluate(&expression, "bc"));
    assert!(!evaluate(&expression, "b c"));
    let anchored = leaf("^abc$");
    assert!(evaluate(&anchored, "abc"));
    assert!(!evaluate(&anchored, "xabc"));
}

#[test]
fn pattern_keeps_its_text() {
    assert_eq!(source_of(&leaf("a.c")), "a.c");
    assert!(!evaluate(&leaf("a.c"), "a.c is not ac"[7..].trim()));
    assert!(evaluate(&leaf("a.c"), "abc"));
}

#[test]
fn invalid_pattern_is_refused() {
    assert!(Expr::pattern("a[").is_none());
    assert!(Expr::pattern("(").is_none());
    assert!(Expr::pattern("").is_some());
}

#[test]
fn parse_reads_a_bare_pattern() {
    let expression = parse("abc").unwrap();
    assert_eq!(source_of(&expression), "abc");
}

#[test]
fn parse_keeps_blanks_in_patterns() {
    match parse("AND(a, b)").unwrap() {
        Expr::And(parts) => {
            assert_eq!(parts.len(), 2);
            assert_eq!(source_of(&parts[0]), "a");
            assert_eq!(source_of(&parts[1]), " b");
        }
        other => panic!("not a conjunction: {:?}", other),
    }
}

#[test]
fn parse_reads_nested_lists() {
    match parse("OR(AND(a,b),NOT(c),d)").unwrap() {
        Expr::Or(parts) => {
            assert_eq!(parts.len(), 3);
            match &parts[0] {
                Expr::And(inner) => {
                    assert_eq!(inner.len(), 2);
                    assert_eq!(source_of(&inner[0]), "a");
                    assert_eq!(source_of(&inner[1]), "b");
                }
                other => panic!("not a conjunction: {:?}", other),
            }
            match &parts[1] {
                Expr::Not(inner) => assert_eq!(source_of(inner), "c"),
                other => panic!("not a negation: {:?}", other),
            }
            assert_eq!(source_of(&parts[2]), "d");
        }
        other => panic!("not a disjunction: {:?}", other),
    }
}

#[test]
fn parse_gives_an_empty_list_one_empty_pattern() {
    match parse("AND()").unwrap() {
        Expr::And(parts) => {
            assert_eq!(parts.len(), 1);
            assert_eq!(source_of(&parts[0]), "");
        }
        other => panic!("not a conjunction: {:?}", other),
    }
    assert!(evaluate(&parse("AND()").unwrap(), "whatever"));
    assert!(evaluate(&parse("OR()").unwrap(), "whatever"));
    assert!(!evaluate(&parse("NOT()").unwrap(), "whatever"));
}

#[test]
fn parse_reads_the_empty_text_as_the_empty_pattern() {
    let expression = parse("").unwrap();
    assert_eq!(source_of(&expression), "");
    assert!(evaluate(&expression, ""));
    assert!(evaluate(&expression, "abc"));
}

#[test]
fn parse_does_not_look_behind_the_expression() {
    assert_eq!(source_of(&parse("abc)def").unwrap()), "abc");
    assert_eq!(source_of(&parse("abc,def").unwrap()), "abc");
    match parse("NOT(a)b").unwrap() {
        Expr::Not(inner) => assert_eq!(source_of(&inner), "a"),
        other => panic!("not a negation: {:?}", other),
    }
}

#[test]
fn parse_tries_the_bracketed_forms_first() {
    assert!(matches!(parse("NOT(a)").unwrap(), Expr::Not(_)));
    assert!(matches!(parse("AND(a)").unwrap(), Expr::And(_)));
    assert!(matches!(parse("OR(a)").unwrap(), Expr::Or(_)));
    assert_eq!(source_of(&parse("ORa").unwrap()), "ORa");
    assert_eq!(source_of(&parse("AND").unwrap()), "AND");
    assert_eq!(source_of(&parse("not\\(a").unwrap()), "not\\(a");
}

#[test]
fn parse_refuses_an_unclosed_form() {
    assert!(parse("NOT(abc").is_err());
    assert!(parse("AND(a,b").is_err());
    assert!(parse("OR(a,NOT(b)").is_err());
    assert!(parse("NOT(a,b)").is_err());
}

#[test]
fn parse_refuses_an_invalid_pattern() {
    assert!(parse("a[").is_err());
    assert!(parse("AND(a,b[)").is_err());
    assert!(parse("NOT(*)").is_err());
}

#[test]
fn parse_error_holds_the_text() {
    let error = parse("AND(a,b[)").unwrap_err();
    assert_eq!(error.expression, "AND(a,b[)");
    assert_eq!(error.message(), "Failed to parse expression AND(a,b[)");
}

#[test]
fn parse_reads_texts_beyond_ascii() {
    let expression = parse("OR(grüße,日本)").unwrap();
    assert!(evaluate(&expression, "viele grüße"));
    assert!(evaluate(&expression, "日本語"));
    assert!(!evaluate(&expression, "gruesse"));
    match expression {
        Expr::Or(parts) => {
            assert_eq!(source_of(&parts[0]), "grüße");
            assert_eq!(source_of(&parts[1]), "日本");
        }
        other => panic!("not a disjunction: {:?}", other),
    }
}
