use gitanalyser::commits::branch_names;
use gitanalyser::commits::day_of_time;
use gitanalyser::commits::first_branch;
use gitanalyser::commits::in_date_range;
use gitanalyser::serialization::NativeDateTimeWrapper;
use gitanalyser::text::chars_of;
use gitanalyser::text::contains_text;

#[test]
fn branch_names_stand_between_the_marks() {
    assert_eq!(branch_names("master"), vec!["master"]);
    assert_eq!(branch_names("main|master"), vec!["main", "master"]);
    assert_eq!(branch_names("main|master|trunk"), vec!["main", "master", "trunk"]);
    assert_eq!(branch_names("feature/x|ünïcode|b"), vec!["feature/x", "ünïcode", "b"]);
}

#[test]
fn branch_names_may_be_empty() {
    assert_eq!(branch_names(""), vec![""]);
    assert_eq!(branch_names("|"), vec!["", ""]);
    assert_eq!(branch_names("a||b"), vec!["a", "", "b"]);
    assert_eq!(branch_names("a|"), vec!["a", ""]);
    assert_eq!(branch_names("|a"), vec!["", "a"]);
}

#[test]
fn first_branch_found_is_walked() {
    assert_eq!(first_branch(&[false, true, true]), Some(1));
    assert_eq!(first_branch(&[true]), Some(0));
    assert_eq!(first_branch(&[false, false, false, true]), Some(3));
    assert_eq!(first_branch(&[false, false]), None);
    assert_eq!(first_branch(&[]), None);
}

#[test]
fn day_is_counted_from_1970() {
    assert_eq!(day_of_time(0), 0);
    assert_eq!(day_of_time(86399), 0);
    assert_eq!(day_of_time(86400), 1);
    assert_eq!(day_of_time(1431648000), 16570);
    assert_eq!(day_of_time(1431648000 + 86399), 16570);
    assert_eq!(day_of_time(-1), -1);
    assert_eq!(day_of_time(-86400), -1);
    assert_eq!(day_of_time(-86401), -2);
    assert_eq!(day_of_time(i64::MAX), 106751991167300);
    assert_eq!(day_of_time(i64::MIN), -106751991167301);
}

#[test]
fn range_of_days_holds_both_ends() {
    let noon = 16570 * 86400 + 43200;
    assert!(in_date_range(noon, None, None));
    assert!(in_date_range(noon, Some(16570), Some(16570)));
    assert!(in_date_range(noon, Some(16569), Some(16571)));
    assert!(in_date_range(noon, Some(16570), None));
    assert!(in_date_range(noon, None, Some(16570)));
    assert!(!in_date_range(noon, Some(16571), None));
    assert!(!in_date_range(noon, None, Some(16569)));
    assert!(!in_date_range(noon, Some(16571), Some(16569)));
}

#[test]
fn time_of_day_plays_no_part_in_the_range() {
    let first = 16570 * 86400;
    let last = first + 86399;
    assert!(in_date_range(first, Some(16570), Some(16570)));
    assert!(in_date_range(last, Some(16570), Some(16570)));
    assert!(!in_date_range(first - 1, Some(16570), Some(16570)));
    assert!(!in_date_range(last + 1, Some(16570), Some(16570)));
}

#[test]
fn date_is_written_in_utc() {
    assert_eq!(
        NativeDateTimeWrapper(1431648000).format(),
        Some("2015-05-15 00:00:00 UTC".to_string())
    );
    assert_eq!(NativeDateTimeWrapper(0).format(), Some("1970-01-01 00:00:00 UTC".to_string()));
    assert_eq!(NativeDateTimeWrapper(-1).format(), Some("1969-12-31 23:59:59 UTC".to_string()));
    assert_eq!(
        NativeDateTimeWrapper(1700000000).format(),
        Some("2023-11-14 22:13:20 UTC".to_string())
    );
}

#[test]
fn date_is_written_with_the_mark_given() {
    assert_eq!(
        NativeDateTimeWrapper(1431648000).format_with("+00:00"),
        Some("2015-05-15 00:00:00+00:00".to_string())
    );
    assert_eq!(
        NativeDateTimeWrapper(1431648000).format_with(""),
        Some("2015-05-15 00:00:00".to_string())
    );
}

#[test]
fn date_out_of_range_is_not_written() {
    assert_eq!(NativeDateTimeWrapper(i64::MAX).format(), None);
    assert_eq!(NativeDateTimeWrapper(i64::MIN).format(), None);
    assert!(NativeDateTimeWrapper::from_timestamp(i64::MAX).is_none());
    assert!(NativeDateTimeWrapper::from_timestamp(i64::MIN).is_none());
}

#[test]
fn date_in_range_is_taken() {
    assert_eq!(NativeDateTimeWrapper::from_timestamp(1431648000).unwrap().0, 1431648000);
    assert_eq!(NativeDateTimeWrapper::from_timestamp(-86400).unwrap().0, -86400);
}

#[test]
fn chars_come_in_order() {
    assert_eq!(chars_of("aß日"), vec!['a', 'ß', '日']);
    assert!(chars_of("").is_empty());
}

#[test]
fn text_is_found_in_a_list() {
    let list = vec!["java".to_string(), "rs".to_string()];
    assert!(contains_text(&list, &"rs".to_string()));
    assert!(contains_text(&list, &"java".to_string()));
    assert!(!contains_text(&list, &"jav".to_string()));
    assert!(!contains_text(&Vec::new(), &"java".to_string()));
}
