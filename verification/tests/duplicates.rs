use gitanalyser::analysis::delete_duplicates;
use gitanalyser::serialization::CommitData;
use gitanalyser::serialization::NativeDateTimeWrapper;

fn record(id: &str, seconds: i64, tests: &[&str], others: Option<&[&str]>) -> CommitData {
    CommitData {
        commit: id.to_string(),
        date: NativeDateTimeWrapper(seconds),
        size: seconds as usize % 97,
        test_files: tests.iter().map(|t| t.to_string()).collect(),
        non_test_files: others.map(|o| o.iter().map(|t| t.to_string()).collect()),
    }
}

fn shape(list: &[CommitData]) -> Vec<(String, i64, usize, Vec<String>, Option<Vec<String>>)> {
    list.iter()
        .map(|r| {
            (r.commit.clone(), r.date.0, r.size, r.test_files.clone(), r.non_test_files.clone())
        })
        .collect()
}

fn history() -> Vec<CommitData> {
    vec![
        record("c1", 100, &["a/FooTest.java", "a/BarTest.java"], Some(&["a/Foo.java"])),
        record("c2", 200, &["b/FooTest.java"], Some(&["b/Bar.java", "b/Foo.java"])),
        record("c3", 300, &["c/BazTest.java", "d/BazTest.java", "c/Foo.java"], None),
        record("c4", 400, &["e/BarTest.java"], Some(&["e/Qux.java"])),
        record("c5", 500, &["f/QuxTest.java"], Some(&["f/Qux.java", "g/Baz.java"])),
    ]
}

#[test]
fn first_file_of_a_basename_stays() {
    let kept = delete_duplicates(&history()).unwrap();
    assert_eq!(
        shape(&kept),
        vec![
            (
                "c1".to_string(),
                100,
                3,
                vec!["a/FooTest.java".to_string(), "a/BarTest.java".to_string()],
                Some(vec!["a/Foo.java".to_string()])
            ),
            ("c3".to_string(), 300, 9, vec!["c/BazTest.java".to_string()], None),
            (
                "c5".to_string(),
                500,
                15,
                vec!["f/QuxTest.java".to_string()],
                Some(vec!["g/Baz.java".to_string()])
            ),
        ]
    );
}

#[test]
fn deleting_duplicates_twice_changes_nothing() {
    let once = delete_duplicates(&history()).unwrap();
    let twice = delete_duplicates(&once).unwrap();
    assert_eq!(shape(&once), shape(&twice));
}

#[test]
fn later_commit_with_the_same_basename_is_dropped() {
    let list = vec![
        record("early", 1, &["x/Test.java"], None),
        record("late", 2, &["y/z/Test.java"], None),
    ];
    let kept = delete_duplicates(&list).unwrap();
    assert_eq!(kept.len(), 1);
    assert_eq!(kept[0].commit, "early");
    assert_eq!(kept[0].test_files, vec!["x/Test.java"]);
}

#[test]
fn later_commit_keeps_what_is_new() {
    let list = vec![
        record("early", 1, &["x/Test.java"], None),
        record("late", 2, &["y/Test.java", "y/Other.java"], Some(&["z/Test.java", "z/New.java"])),
    ];
    let kept = delete_duplicates(&list).unwrap();
    assert_eq!(kept.len(), 2);
    assert_eq!(kept[1].commit, "late");
    assert_eq!(kept[1].test_files, vec!["y/Other.java"]);
    assert_eq!(kept[1].non_test_files, Some(vec!["z/New.java".to_string()]));
}

#[test]
fn record_without_matching_file_is_dropped_whatever_else_it_keeps() {
    let list = vec![
        record("early", 1, &["x/Test.java"], None),
        record("late", 2, &["y/Test.java"], Some(&["y/Fresh.java"])),
        record("last", 3, &["z/Fresh.java", "z/Last.java"], None),
    ];
    let kept = delete_duplicates(&list).unwrap();
    assert_eq!(kept.len(), 2);
    assert_eq!(kept[0].commit, "early");
    assert_eq!(kept[1].commit, "last");
    assert_eq!(kept[1].test_files, vec!["z/Last.java"]);
}

#[test]
fn basenames_are_shared_between_both_lists() {
    let list = vec![record("one", 1, &["a/Same.java", "b/Same.java"], Some(&["c/Same.java"]))];
    let kept = delete_duplicates(&list).unwrap();
    assert_eq!(kept.len(), 1);
    assert_eq!(kept[0].test_files, vec!["a/Same.java"]);
    assert!(kept[0].non_test_files.is_none());
}

#[test]
fn empty_list_of_other_files_goes() {
    let list = vec![record("one", 1, &["a/One.java"], Some(&[]))];
    let kept = delete_duplicates(&list).unwrap();
    assert!(kept[0].non_test_files.is_none());
}

#[test]
fn records_without_duplicates_stay_as_they_are() {
    let list = vec![
        record("one", 1, &["a/One.java"], Some(&["a/Two.java"])),
        record("two", 2, &["Three.java"], None),
    ];
    let kept = delete_duplicates(&list).unwrap();
    assert_eq!(shape(&kept), shape(&list));
}

#[test]
fn no_records_give_no_records() {
    assert!(delete_duplicates(&[]).unwrap().is_empty());
}

#[test]
fn path_without_final_component_is_an_error() {
    let list = vec![
        record("one", 1, &["a/One.java"], Some(&["a/Two.java"])),
        record("two", 2, &["b/One.java", "b/.."], Some(&["/"])),
    ];
    let error = delete_duplicates(&list).unwrap_err();
    assert_eq!(error.commit, 1);
    assert_eq!(error.path, "b/..");
    let list = vec![record("one", 1, &["a/One.java"], Some(&["a/Two.java", "", "/"]))];
    let error = delete_duplicates(&list).unwrap_err();
    assert_eq!(error.commit, 0);
    assert_eq!(error.path, "");
}
