//! Pairing each file with the file that tests it: the test of a file is the
//! matching file whose name is the file's name with the word `Test` before or
//! behind it.

use crate::serialization::marked;
use crate::serialization::records;
use crate::serialization::CommitData;
use crate::serialization::CommitRecord;
use crate::serialization::NativeDateTimeWrapper;
use crate::text::texts;
use vstd::hash_map::StringHashMap;
use vstd::hash_set::StringHashSet;
use vstd::prelude::*;

verus! {

/// A test file and the file it tests, each with the date and the size of the
/// commit that introduced it.
#[derive(Debug, Clone)]
pub struct TestData {
    /// The name of the test.
    pub test_file: String,
    /// The time of the commit that introduced the test.
    pub test_file_date: String,
    /// The size of the commit that introduced the test.
    pub test_file_size: usize,
    /// The name of the file that is tested.
    pub tested_file: String,
    /// The time of the commit that introduced the file.
    pub tested_file_date: String,
    /// The size of the commit that introduced the file.
    pub tested_file_size: usize,
}

/// The mathematical model of a `TestData`.
pub struct TestPair {
    pub test_file: Seq<char>,
    pub test_file_date: Seq<char>,
    pub test_file_size: nat,
    pub tested_file: Seq<char>,
    pub tested_file_date: Seq<char>,
    pub tested_file_size: nat,
}

impl View for TestData {
    type V = TestPair;

    open spec fn view(&self) -> TestPair {
        TestPair {
            test_file: self.test_file@,
            test_file_date: self.test_file_date@,
            test_file_size: self.test_file_size as nat,
            tested_file: self.tested_file@,
            tested_file_date: self.tested_file_date@,
            tested_file_size: self.tested_file_size as nat,
        }
    }
}

/// The models of a list of pairs, in order.
pub open spec fn pairs_model(list: Seq<TestData>) -> Seq<TestPair> {
    list.map_values(|data: TestData| data@)
}

/// The files of one kind that a record lists: the matching ones, or the
/// others.
pub open spec fn files_of(record: CommitRecord, tests: bool) -> Seq<Seq<char>> {
    if tests {
        record.test_files
    } else {
        record.other_files()
    }
}

/// `index` with each of `files` indexed under the record at `at`.
pub open spec fn with_files(index: Map<Seq<char>, usize>, files: Seq<Seq<char>>, at: usize) -> Map<
    Seq<char>,
    usize,
>
    decreases files.len(),
{
    if files.len() == 0 {
        index
    } else {
        with_files(index, files.drop_last(), at).insert(files.last(), at)
    }
}

/// The index of the files of one kind: each name with the position of the
/// last record that lists it.
pub open spec fn index_of(list: Seq<CommitRecord>, tests: bool) -> Map<Seq<char>, usize>
    decreases list.len(),
{
    if list.len() == 0 {
        Map::empty()
    } else {
        with_files(
            index_of(list.drop_last(), tests),
            files_of(list.last(), tests),
            (list.len() - 1) as usize,
        )
    }
}

/// All the files of `list` that do not match, in the order in which they
/// are walked.
pub open spec fn all_other_files(list: Seq<CommitRecord>) -> Seq<Seq<char>>
    decreases list.len(),
{
    if list.len() == 0 {
        Seq::empty()
    } else {
        all_other_files(list.drop_last()) + list.last().other_files()
    }
}

/// `names` with each name once, where it stands first.
pub open spec fn once_each(names: Seq<Seq<char>>) -> Seq<Seq<char>>
    decreases names.len(),
{
    if names.len() == 0 {
        Seq::empty()
    } else if names.drop_last().contains(names.last()) {
        once_each(names.drop_last())
    } else {
        once_each(names.drop_last()).push(names.last())
    }
}

/// The mark behind the dates of a pair.
pub open spec fn offset_mark() -> Seq<char> {
    "+00:00"@
}

/// The name of the test of the file `name`: `name` with `Test` before it
/// where a matching file has that name, otherwise `name` with `Test` behind
/// it where a matching file has that name.
pub open spec fn test_name(tests: Map<Seq<char>, usize>, name: Seq<char>) -> Option<Seq<char>> {
    if tests.contains_key("Test"@ + name) {
        Some("Test"@ + name)
    } else if tests.contains_key(name + "Test"@) {
        Some(name + "Test"@)
    } else {
        None
    }
}

/// The pair of the file `name` and its test, where it has one. Each comes
/// with the date and the size of the last record that lists it.
pub open spec fn pair_of(
    list: Seq<CommitRecord>,
    tests: Map<Seq<char>, usize>,
    others: Map<Seq<char>, usize>,
    name: Seq<char>,
) -> Option<TestPair> {
    match test_name(tests, name) {
        Some(test) => Some(
            TestPair {
                test_file: test,
                test_file_date: marked(list[tests[test] as int].seconds, offset_mark()).unwrap(),
                test_file_size: list[tests[test] as int].size,
                tested_file: name,
                tested_file_date: marked(
                    list[others[name] as int].seconds,
                    offset_mark(),
                ).unwrap(),
                tested_file_size: list[others[name] as int].size,
            },
        ),
        None => None,
    }
}

/// The pairs of those of `names` that have a test, in the order of `names`.
pub open spec fn pairs_of(
    list: Seq<CommitRecord>,
    tests: Map<Seq<char>, usize>,
    others: Map<Seq<char>, usize>,
    names: Seq<Seq<char>>,
) -> Seq<TestPair>
    decreases names.len(),
{
    if names.len() == 0 {
        Seq::empty()
    } else {
        let before = pairs_of(list, tests, others, names.drop_last());
        match pair_of(list, tests, others, names.last()) {
            Some(pair) => before.push(pair),
            None => before,
        }
    }
}

/// The pairs that `list` gives: one for each file that does not match and
/// has a test, in the order in which those files are first met.
pub open spec fn linked(list: Seq<CommitRecord>) -> Seq<TestPair> {
    pairs_of(
        list,
        index_of(list, true),
        index_of(list, false),
        once_each(all_other_files(list)),
    )
}

/// Whether the date of each record can be written out.
pub open spec fn all_representable(list: Seq<CommitRecord>) -> bool {
    forall|i: int| 0 <= i < list.len() ==> marked((#[trigger] list[i]).seconds, offset_mark()).is_some()
}

/// Whether each position in `index` is one of the first `count`.
pub open spec fn bounded(index: Map<Seq<char>, usize>, count: int) -> bool {
    forall|name: Seq<char>| #[trigger] index.contains_key(name) ==> index[name] < count
}

/// A name is in the index made with `files` where it was in the index
/// before or is one of `files`.
proof fn lemma_with_files(
    index: Map<Seq<char>, usize>,
    files: Seq<Seq<char>>,
    at: usize,
    name: Seq<char>,
)
    ensures
        with_files(index, files, at).contains_key(name) <==> index.contains_key(name)
            || files.contains(name),
    decreases files.len(),
{
    if files.len() > 0 {
        let before = files.drop_last();
        lemma_with_files(index, before, at, name);
        if before.contains(name) {
            let k = choose|k: int| 0 <= k < before.len() && before[k] == name;
            assert(files[k] == name);
        }
        if files.last() == name {
            assert(files[files.len() - 1] == name);
        }
        if files.contains(name) && files.last() != name {
            let k = choose|k: int| 0 <= k < files.len() && files[k] == name;
            assert(before[k] == name);
        }
    }
}

/// Each file of each record is in the index of its kind.
proof fn lemma_index_holds(list: Seq<CommitRecord>, tests: bool, at: int, file: int)
    requires
        0 <= at < list.len(),
        0 <= file < files_of(list[at], tests).len(),
    ensures
        index_of(list, tests).contains_key(files_of(list[at], tests)[file]),
    decreases list.len(),
{
    let before = list.drop_last();
    let name = files_of(list[at], tests)[file];
    lemma_with_files(
        index_of(before, tests),
        files_of(list.last(), tests),
        (list.len() - 1) as usize,
        name,
    );
    if at < list.len() - 1 {
        assert(before[at] == list[at]);
        lemma_index_holds(before, tests, at, file);
    }
}

/// The index of the files of one kind: each name with the position of the
/// last record that lists it.
fn build_index(list: &[CommitData], tests: bool) -> (index: StringHashMap<usize>)
    ensures
        index@ == index_of(records(list@), tests),
        bounded(index@, list.len() as int),
{
    let mut index: StringHashMap<usize> = StringHashMap::new();
    let ghost given = records(list@);
    let mut i: usize = 0;
    proof {
        assert(given.take(0) =~= Seq::empty());
    }
    while i < list.len()
        invariant
            i <= list.len(),
            given == records(list@),
            index@ == index_of(given.take(i as int), tests),
            bounded(index@, i as int),
        decreases list.len() - i,
    {
        let ghost before = index@;
        let ghost files = files_of(given[i as int], tests);
        proof {
            assert(given.take(i + 1).drop_last() =~= given.take(i as int));
            assert(given.take(i + 1).last() == list[i as int]@);
        }
        let empty: Vec<String> = Vec::new();
        let names: &Vec<String> = if tests {
            &list[i].test_files
        } else {
            match &list[i].non_test_files {
                Some(names) => names,
                None => &empty,
            }
        };
        proof {
            assert(texts(empty@) =~= Seq::empty());
            assert(texts(names@) == files);
            assert(files.take(0) =~= Seq::empty());
        }
        let mut j: usize = 0;
        while j < names.len()
            invariant
                j <= names.len(),
                i < list.len(),
                texts(names@) == files,
                index@ == with_files(before, files.take(j as int), i),
                bounded(index@, i + 1),
            decreases names.len() - j,
        {
            proof {
                assert(files.take(j + 1).drop_last() =~= files.take(j as int));
                assert(files.take(j + 1).last() == names[j as int]@);
            }
            index.insert(names[j].clone(), i);
            j += 1;
        }
        proof {
            assert(files.take(j as int) =~= files);
        }
        i += 1;
    }
    proof {
        assert(given.take(i as int) =~= given);
    }
    index
}

/// `name` with `Test` before it.
fn test_before(name: &str) -> (test: String)
    ensures
        test@ == "Test"@ + name@,
{
    let mut test = "Test".to_owned();
    test.append(name);
    test
}

/// `name` with `Test` behind it.
fn test_after(name: &str) -> (test: String)
    ensures
        test@ == name@ + "Test"@,
{
    let mut test = name.to_owned();
    test.append("Test");
    test
}

/// The date of a record as it stands in a pair.
fn pair_date(date: NativeDateTimeWrapper) -> (text: String)
    requires
        marked(date.0 as int, offset_mark()).is_some(),
    ensures
        text@ == marked(date.0 as int, offset_mark()).unwrap(),
{
    match date.format_with("+00:00") {
        Some(text) => text,
        None => String::new(),
    }
}

/// The pair of the file `name` and its test, where it has one.
fn link_one(
    list: &[CommitData],
    tests: &StringHashMap<usize>,
    others: &StringHashMap<usize>,
    name: &String,
) -> (pair: Option<TestData>)
    requires
        all_representable(records(list@)),
        bounded(tests@, list.len() as int),
        bounded(others@, list.len() as int),
        others@.contains_key(name@),
    ensures
        match pair {
            Some(pair) => pair_of(records(list@), tests@, others@, name@) == Some(pair@),
            None => pair_of(records(list@), tests@, others@, name@).is_none(),
        },
{
    let before = test_before(name.as_str());
    let after = test_after(name.as_str());
    let test_file = if tests.contains_key(before.as_str()) {
        before
    } else if tests.contains_key(after.as_str()) {
        after
    } else {
        return None;
    };
    let test = match tests.get(test_file.as_str()) {
        Some(at) => &list[*at],
        None => {
            return None;
        },
    };
    let tested = match others.get(name.as_str()) {
        Some(at) => &list[*at],
        None => {
            return None;
        },
    };
    proof {
        let given = records(list@);
        assert(given[tests@[test_file@] as int] == test@);
        assert(given[others@[name@] as int] == tested@);
    }
    Some(
        TestData {
            test_file_date: pair_date(test.date),
            test_file_size: test.size,
            test_file,
            tested_file: name.clone(),
            tested_file_date: pair_date(tested.date),
            tested_file_size: tested.size,
        },
    )
}

/// The position of the first record whose date cannot be written out.
fn first_unwritten(list: &[CommitData]) -> (found: Option<usize>)
    ensures
        match found {
            Some(at) => {
                &&& at < list.len()
                &&& marked(list[at as int].date.0 as int, offset_mark()).is_none()
                &&& all_representable(records(list@).take(at as int))
            },
            None => all_representable(records(list@)),
        },
{
    let mut i: usize = 0;
    while i < list.len()
        invariant
            i <= list.len(),
            all_representable(records(list@).take(i as int)),
        decreases list.len() - i,
    {
        if NativeDateTimeWrapper::from_timestamp(list[i].date.0).is_none() {
            return Some(i);
        }
        proof {
            let upto = records(list@).take(i + 1);
            assert forall|k: int| 0 <= k < upto.len() implies marked(
                (#[trigger] upto[k]).seconds,
                offset_mark(),
            ).is_some() by {
                if k < i {
                    assert(upto[k] == records(list@).take(i as int)[k]);
                }
            }
        }
        i += 1;
    }
    assert(records(list@).take(i as int) =~= records(list@));
    None
}

/// Pairs each file that does not match with its test: the matching file
/// whose name is the file's name with `Test` before it or, where there is
/// none, with `Test` behind it. There is one pair for each such file that
/// has a test, in the order in which the files are first met; a file and its
/// test each come with the date and the size of the last record that lists
/// them.
///
/// The result is an error exactly when the date of a record cannot be
/// written out; the error is the position of the first such record.
pub fn link(list: &[CommitData]) -> (result: Result<Vec<TestData>, usize>)
    ensures
        match result {
            Ok(pairs) => all_representable(records(list@)) && pairs_model(pairs@) == linked(
                records(list@),
            ),
            Err(at) => {
                &&& at < list.len()
                &&& marked(list[at as int].date.0 as int, offset_mark()).is_none()
                &&& all_representable(records(list@).take(at as int))
            },
        },
{
    if let Some(at) = first_unwritten(list) {
        return Err(at);
    }
    let tests = build_index(list, true);
    let others = build_index(list, false);
    let ghost given = records(list@);
    let mut met = StringHashSet::new();
    let mut pairs: Vec<TestData> = Vec::new();
    let mut i: usize = 0;
    proof {
        assert(given.take(0) =~= Seq::empty());
        assert(pairs_model(pairs@) =~= Seq::empty());
    }
    while i < list.len()
        invariant
            i <= list.len(),
            given == records(list@),
            all_representable(given),
            tests@ == index_of(given, true),
            others@ == index_of(given, false),
            bounded(tests@, list.len() as int),
            bounded(others@, list.len() as int),
            met@ == all_other_files(given.take(i as int)).to_set(),
            pairs_model(pairs@) == pairs_of(
                given,
                tests@,
                others@,
                once_each(all_other_files(given.take(i as int))),
            ),
        decreases list.len() - i,
    {
        let ghost before = all_other_files(given.take(i as int));
        let ghost files = given[i as int].other_files();
        proof {
            assert(given.take(i + 1).drop_last() =~= given.take(i as int));
            assert(given.take(i + 1).last() == given[i as int]);
            assert(before + files.take(0) =~= before);
        }
        let empty: Vec<String> = Vec::new();
        let names: &Vec<String> = match &list[i].non_test_files {
            Some(names) => names,
            None => &empty,
        };
        proof {
            assert(texts(empty@) =~= Seq::empty());
            assert(texts(names@) == files);
        }
        let mut j: usize = 0;
        while j < names.len()
            invariant
                j <= names.len(),
                i < list.len(),
                given == records(list@),
                all_representable(given),
                tests@ == index_of(given, true),
                others@ == index_of(given, false),
                bounded(tests@, list.len() as int),
                bounded(others@, list.len() as int),
                files == given[i as int].other_files(),
                texts(names@) == files,
                met@ == (before + files.take(j as int)).to_set(),
                pairs_model(pairs@) == pairs_of(
                    given,
                    tests@,
                    others@,
                    once_each(before + files.take(j as int)),
                ),
            decreases names.len() - j,
        {
            let ghost walked = before + files.take(j as int);
            let ghost name = names[j as int]@;
            proof {
                assert(before + files.take(j + 1) =~= walked.push(name));
                assert(walked.push(name).drop_last() =~= walked);
                walked.lemma_push_to_set_commute(name);
                lemma_index_holds(given, false, i as int, j as int);
            }
            if !met.contains(names[j].as_str()) {
                met.insert(names[j].clone());
                proof {
                    let listed = once_each(walked).push(name);
                    assert(listed.drop_last() =~= once_each(walked));
                }
                match link_one(list, &tests, &others, &names[j]) {
                    Some(pair) => {
                        assert(pairs_model(pairs@.push(pair)) =~= pairs_model(pairs@).push(pair@));
                        pairs.push(pair);
                    },
                    None => {},
                }
            } else {
                proof {
                    assert(met@.insert(name) =~= met@);
                }
            }
            j += 1;
        }
        proof {
            assert(files.take(j as int) =~= files);
        }
        i += 1;
    }
    proof {
        assert(given.take(i as int) =~= given);
    }
    Ok(pairs)
}

} // verus!
