use gitanalyser::serialization::CommitData;
use gitanalyser::serialization::NativeDateTimeWrapper;
use gitanalyser::testlinker::link;
use gitanalyser::testlinker::TestData;

fn record(seconds: i64, size: usize, tests: &[&str], others: Option<&[&str]>) -> CommitData {
    CommitData {
        commit: format!("commit{}", size),
        date: NativeDateTimeWrapper(seconds),
        size,
        test_files: tests.iter().map(|t| t.to_string()).collect(),
        non_test_files: others.map(|o| o.iter().map(|t| t.to_string()).collect()),
    }
}

fn shape(list: &[TestData]) -> Vec<(String, String, usize, String, String, usize)> {
    list.iter()
        .map(|p| {
            (
                p.test_file.clone(),
                p.test_file_date.clone(),
                p.test_file_size,
                p.tested_file.clone(),
                p.tested_file_date.clone(),
                p.tested_file_size,
            )
        })
        .collect()
}

fn pair(
    test: &str,
    test_date: &str,
    test_size: usize,
    tested: &str,
    tested_date: &str,
    tested_size: usize,
) -> (String, String, usize, String, String, usize) {
    (
        test.to_string(),
        test_date.to_string(),
        test_size,
        tested.to_string(),
        tested_date.to_string(),
        tested_size,
    )
}

#[test]
fn file_is_paired_with_its_test() {
    let list = vec![
        record(1431648000, 1, &["TestFoo"], Some(&["Foo", "Baz"])),
        record(1431648060, 2, &["BarTest", "Qux"], Some(&["Bar"])),
    ];
    assert_eq!(
        shape(&link(&list).unwrap()),
        vec![
            pair("TestFoo", "2015-05-15 00:00:00+00:00", 1, "Foo", "2015-05-15 00:00:00+00:00", 1),
            pair("BarTest", "2015-05-15 00:01:00+00:00", 2, "Bar", "2015-05-15 00:01:00+00:00", 2),
        ]
    );
}

#[test]
fn test_may_come_before_or_after_the_file() {
    let list = vec![
        record(0, 1, &["WidgetTest"], None),
        record(86400, 2, &["Other"], Some(&["Widget", "Gadget"])),
        record(172800, 3, &["TestGadget"], None),
    ];
    assert_eq!(
        shape(&link(&list).unwrap()),
        vec![
            pair(
                "WidgetTest",
                "1970-01-01 00:00:00+00:00",
                1,
                "Widget",
                "1970-01-02 00:00:00+00:00",
                2
            ),
            pair(
                "TestGadget",
                "1970-01-03 00:00:00+00:00",
                3,
                "Gadget",
                "1970-01-02 00:00:00+00:00",
                2
            ),
        ]
    );
}

#[test]
fn test_named_before_is_taken_first() {
    let list = vec![record(0, 1, &["XTest", "TestX"], Some(&["X"]))];
    let pairs = link(&list).unwrap();
    assert_eq!(pairs.len(), 1);
    assert_eq!(pairs[0].test_file, "TestX");
    assert_eq!(pairs[0].tested_file, "X");
}

#[test]
fn last_record_that_lists_a_file_gives_its_date_and_size() {
    let list = vec![
        record(0, 1, &["TestA"], Some(&["A", "B"])),
        record(60, 2, &["TestB"], Some(&["C"])),
        record(120, 3, &["TestA", "TestC"], Some(&["A"])),
    ];
    assert_eq!(
        shape(&link(&list).unwrap()),
        vec![
            pair("TestA", "1970-01-01 00:02:00+00:00", 3, "A", "1970-01-01 00:02:00+00:00", 3),
            pair("TestB", "1970-01-01 00:01:00+00:00", 2, "B", "1970-01-01 00:00:00+00:00", 1),
            pair("TestC", "1970-01-01 00:02:00+00:00", 3, "C", "1970-01-01 00:01:00+00:00", 2),
        ]
    );
}

#[test]
fn files_without_test_give_no_pair() {
    let list = vec![
        record(0, 1, &["FooTest.java"], Some(&["Foo.java", "Test", ""])),
        record(0, 2, &["Test"], None),
    ];
    assert_eq!(
        shape(&link(&list).unwrap()),
        vec![pair("Test", "1970-01-01 00:00:00+00:00", 2, "", "1970-01-01 00:00:00+00:00", 1)]
    );
    assert!(link(&[]).unwrap().is_empty());
    assert!(link(&[record(0, 1, &["TestA"], None)]).unwrap().is_empty());
}

#[test]
fn date_out_of_range_is_an_error() {
    let list = vec![
        record(0, 1, &["TestA"], Some(&["A"])),
        record(i64::MAX, 2, &["B"], None),
        record(i64::MIN, 3, &["C"], None),
    ];
    assert_eq!(link(&list).unwrap_err(), 1);
}
