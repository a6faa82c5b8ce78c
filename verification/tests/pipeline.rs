use gitanalyser::analysis::Analyser;
use gitanalyser::analysis::AnalyserOptions;
use gitanalyser::commits::CommitError;
use gitanalyser::commits::CommitSendSync;
use gitanalyser::commits::Delta;
use gitanalyser::commits::FileDelta;
use gitanalyser::expression_parser::parse;
use gitanalyser::pipeline::chunk_size;
use gitanalyser::pipeline::merge_chunks;
use gitanalyser::pipeline::partition;
use gitanalyser::pipeline::process_chunk;
use gitanalyser::pipeline::run;
use gitanalyser::pipeline::worker_count;
use gitanalyser::serialization::CommitData;
use gitanalyser::serialization::NativeDateTimeWrapper;
use gitanalyser::sorting::sort_by_date;

fn analyser() -> Analyser {
    Analyser::new(
        vec!["java".to_string()],
        parse("Test").unwrap(),
        AnalyserOptions {
            evaluate_name: None,
            evaluate_content: true,
            include_non_tests: true,
            full_path: true,
        },
    )
}

fn commit(number: usize, seconds: i64) -> CommitSendSync {
    let content = if number % 3 == 0 { "plain" } else { "a Test" };
    CommitSendSync {
        id: format!("commit{}", number),
        seconds,
        parent_count: if number % 5 == 4 { 2 } else { 1 },
        deltas: vec![
            FileDelta {
                path: Some(format!("dir{}/File{}.java", number, number).into_bytes()),
                content: Some(content.as_bytes().to_vec()),
                status: Delta::Added,
            },
            FileDelta {
                path: Some(format!("dir{}/Other{}.java", number, number).into_bytes()),
                content: Some(b"plain".to_vec()),
                status: Delta::Added,
            },
        ],
        changed_lines: number,
    }
}

fn history(count: usize) -> Vec<CommitSendSync> {
    (0..count).map(|n| commit(n, 1000 - ((n as i64 * 7) % 5) * 10)).collect()
}

fn record(id: &str, seconds: i64) -> CommitData {
    CommitData {
        commit: id.to_string(),
        date: NativeDateTimeWrapper(seconds),
        size: 0,
        test_files: vec![format!("{}.java", id)],
        non_test_files: None,
    }
}

fn ids(list: &[CommitData]) -> Vec<String> {
    list.iter().map(|r| r.commit.clone()).collect()
}

fn shape(list: &[CommitData]) -> Vec<(String, i64, usize, Vec<String>, Option<Vec<String>>)> {
    list.iter()
        .map(|r| {
            (r.commit.clone(), r.date.0, r.size, r.test_files.clone(), r.non_test_files.clone())
        })
        .collect()
}

#[test]
fn workers_are_the_cores_or_fewer() {
    assert_eq!(worker_count(None, 8), 8);
    assert_eq!(worker_count(Some(4), 8), 4);
    assert_eq!(worker_count(Some(8), 8), 8);
    assert_eq!(worker_count(Some(16), 8), 8);
    assert_eq!(worker_count(Some(0), 8), 0);
    assert_eq!(worker_count(None, 1), 1);
}

#[test]
fn chunk_size_rounds_up() {
    assert_eq!(chunk_size(10, 4), 3);
    assert_eq!(chunk_size(9, 4), 3);
    assert_eq!(chunk_size(8, 4), 2);
    assert_eq!(chunk_size(1, 4), 1);
    assert_eq!(chunk_size(0, 4), 0);
    assert_eq!(chunk_size(7, 1), 7);
    assert_eq!(chunk_size(7, 7), 1);
    assert_eq!(chunk_size(7, 100), 1);
    assert_eq!(chunk_size(7, 0), 7);
    assert_eq!(chunk_size(usize::MAX, 2), usize::MAX / 2 + 1);
    assert_eq!(chunk_size(33554433, 2), 16777217);
}

#[test]
fn chunks_follow_one_another() {
    assert_eq!(partition(10, 4), vec![(0, 3), (3, 6), (6, 9), (9, 10)]);
    assert_eq!(partition(9, 4), vec![(0, 3), (3, 6), (6, 9)]);
    assert_eq!(partition(8, 4), vec![(0, 2), (2, 4), (4, 6), (6, 8)]);
    assert_eq!(partition(3, 8), vec![(0, 1), (1, 2), (2, 3)]);
    assert_eq!(partition(5, 1), vec![(0, 5)]);
    assert_eq!(partition(5, 0), vec![(0, 5)]);
    assert_eq!(partition(0, 4), Vec::new());
    assert_eq!(partition(0, 0), Vec::new());
}

#[test]
fn sorting_puts_the_earliest_first() {
    let list = vec![record("c", 30), record("a", 10), record("d", 40), record("b", 20)];
    assert_eq!(ids(&sort_by_date(list)), vec!["a", "b", "c", "d"]);
    assert!(sort_by_date(Vec::new()).is_empty());
    let list = vec![record("z", -5), record("y", i64::MIN), record("x", i64::MAX), record("w", 0)];
    assert_eq!(ids(&sort_by_date(list)), vec!["y", "z", "w", "x"]);
}

#[test]
fn sorting_keeps_the_order_of_equal_times() {
    let list = vec![
        record("b1", 20),
        record("a1", 10),
        record("b2", 20),
        record("a2", 10),
        record("b3", 20),
        record("a3", 10),
    ];
    assert_eq!(ids(&sort_by_date(list)), vec!["a1", "a2", "a3", "b1", "b2", "b3"]);
}

#[test]
fn chunks_are_merged_in_their_order() {
    let chunks = vec![
        vec![record("a", 3), record("b", 1)],
        Vec::new(),
        vec![record("c", 2)],
        vec![record("d", 0), record("e", 5)],
    ];
    assert_eq!(ids(&merge_chunks(chunks)), vec!["a", "b", "c", "d", "e"]);
    assert!(merge_chunks(Vec::new()).is_empty());
}

#[test]
fn chunk_yields_the_records_of_its_commits_in_order() {
    let found = process_chunk(&analyser(), &history(7)).unwrap();
    assert_eq!(ids(&found), vec!["commit1", "commit2", "commit5"]);
    assert_eq!(found[0].test_files, vec!["dir1/File1.java"]);
    assert_eq!(found[0].non_test_files, Some(vec!["dir1/Other1.java".to_string()]));
    assert_eq!(found[2].size, 5);
}

#[test]
fn one_worker_and_many_yield_the_same() {
    let commits = history(23);
    let single = run(&analyser(), &commits, 1).unwrap();
    assert!(!single.is_empty());
    for workers in [0, 2, 3, 4, 5, 8, 22, 23, 24, 100] {
        let many = run(&analyser(), &commits, workers).unwrap();
        assert_eq!(shape(&single), shape(&many), "{} workers", workers);
    }
}

#[test]
fn run_sorts_by_time_and_keeps_the_order_of_equal_times() {
    let found = run(&analyser(), &history(12), 3).unwrap();
    assert_eq!(
        ids(&found),
        vec!["commit2", "commit7", "commit1", "commit11", "commit8", "commit5", "commit10"]
    );
    let times: Vec<i64> = found.iter().map(|r| r.date.0).collect();
    assert_eq!(times, vec![960, 960, 980, 980, 990, 1000, 1000]);
}

#[test]
fn run_stops_at_the_first_commit_that_cannot_be_analysed() {
    let mut commits = history(10);
    commits[6].seconds = i64::MAX;
    commits[8].deltas[0].path = None;
    for workers in [1, 3, 10] {
        let failure = run(&analyser(), &commits, workers).unwrap_err();
        assert_eq!(failure.commit, 6);
        assert_eq!(failure.error, CommitError::InvalidTime);
    }
    commits[6].seconds = 0;
    let failure = run(&analyser(), &commits, 4).unwrap_err();
    assert_eq!(failure.commit, 8);
    assert_eq!(failure.error, CommitError::InvalidPath { delta: 0 });
}

#[test]
fn run_on_no_commits_yields_nothing() {
    assert!(run(&analyser(), &[], 4).unwrap().is_empty());
    assert!(run(&analyser(), &[], 0).unwrap().is_empty());
}
