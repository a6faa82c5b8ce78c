//! Commits and the files they change, as plain values.

use crate::paths::file_name;
use crate::paths::path_file_name;
use crate::text::chars_of;
use crate::text::decode;
use crate::text::decoded;
use crate::text::text_model;
use crate::text::texts;
use vstd::prelude::*;

verus! {

/// What a commit did to a file.
#[derive(Debug, Clone, Copy, PartialEq, Eq, Structural)]
pub enum Delta {
    /// Nothing changed.
    Unmodified,
    /// The file is new.
    Added,
    /// The file is gone.
    Deleted,
    /// The content changed.
    Modified,
    /// The file has another name.
    Renamed,
    /// The file was copied from another.
    Copied,
    /// The file is ignored.
    Ignored,
    /// The file is not tracked.
    Untracked,
    /// The kind of the entry changed.
    Typechange,
    /// The entry cannot be read.
    Unreadable,
    /// The entry is in conflict.
    Conflicted,
}

/// One entry of a commit's diff against its parent.
#[derive(Debug)]
pub struct FileDelta {
    /// The bytes of the file's path after the commit, where it has one.
    pub path: Option<Vec<u8>>,
    /// The bytes of the file after the commit, where they can be read.
    pub content: Option<Vec<u8>>,
    /// What the commit did to the file.
    pub status: Delta,
}

impl FileDelta {
    /// The name under which the file is listed: its whole path where
    /// `full_names` is set, the final component of the path where it is not.
    /// `None` where the entry has no path, the path is no text, or the
    /// final component is asked for and the path has none.
    pub open spec fn listed_name(self, full_names: bool) -> Option<Seq<char>> {
        match self.path {
            None => None,
            Some(bytes) => match decoded(bytes@) {
                None => None,
                Some(path) => if full_names {
                    Some(path)
                } else {
                    path_file_name(path)
                },
            },
        }
    }
}

/// A commit with all that the analysis reads of it. It holds plain values
/// only, so it can be handed from one thread to another.
#[derive(Debug)]
pub struct CommitSendSync {
    /// The commit's id, in hexadecimal.
    pub id: String,
    /// The commit's time, in seconds since the start of 1970.
    pub seconds: i64,
    /// The number of the commit's parents.
    pub parent_count: usize,
    /// The diff against the parent, where the commit has exactly one.
    pub deltas: Vec<FileDelta>,
    /// The lines that the diff inserts and deletes.
    pub changed_lines: usize,
}

impl CommitSendSync {
    /// Whether every entry of the diff can be listed under a name.
    pub open spec fn listed(&self, full_names: bool) -> bool {
        forall|i: int|
            0 <= i < self.deltas.len() ==> (#[trigger] self.deltas[i]).listed_name(
                full_names,
            ).is_some()
    }
}

/// A file that a commit changed.
#[derive(Debug)]
pub struct CommitFile {
    /// The name under which the file is listed.
    pub name: String,
    /// The position of the file's entry in the commit's diff, where its
    /// content is found.
    pub delta: usize,
    /// What the commit did to the file.
    pub modification_type: Delta,
}

impl CommitFile {
    /// Whether the file stands for the entry at position `at` of `commit`'s
    /// diff.
    pub open spec fn lists(&self, commit: &CommitSendSync, at: int, full_names: bool) -> bool {
        &&& self.delta == at
        &&& 0 <= at < commit.deltas.len()
        &&& commit.deltas[at].listed_name(full_names) == Some(self.name@)
        &&& self.modification_type == commit.deltas[at].status
    }
}

/// Why a commit cannot be analysed.
#[derive(Debug, Clone, Copy, PartialEq, Eq, Structural)]
pub enum CommitError {
    /// The entry at this position of the diff cannot be listed under a name.
    InvalidPath { delta: usize },
    /// The commit's time cannot be written out as a date.
    InvalidTime,
}

/// The name under which `delta` is listed.
fn name_of(delta: &FileDelta, full_names: bool) -> (name: Option<String>)
    ensures
        text_model(name) == delta.listed_name(full_names),
{
    match &delta.path {
        None => None,
        Some(bytes) => match decode(bytes.as_slice()) {
            None => None,
            Some(path) => if full_names {
                Some(path.to_owned())
            } else {
                file_name(path)
            },
        },
    }
}

/// The files that `commit` changed, in the order of its diff, and the number
/// of lines that it inserted and deleted. A commit that has no parent, or
/// more than one, counts as having changed nothing.
///
/// The result is an error exactly when the commit has one parent and an
/// entry of its diff cannot be listed under a name; the error names the first
/// such entry.
pub fn get_modified_files(commit: &CommitSendSync, full_names: bool) -> (result: Result<
    (Vec<CommitFile>, usize),
    CommitError,
>)
    ensures
        match result {
            Ok((files, lines)) => if commit.parent_count == 1 {
                &&& files.len() == commit.deltas.len()
                &&& lines == commit.changed_lines
                &&& forall|i: int|
                    0 <= i < files.len() ==> (#[trigger] files[i]).lists(commit, i, full_names)
            } else {
                files.len() == 0 && lines == 0
            },
            Err(CommitError::InvalidPath { delta }) => {
                &&& commit.parent_count == 1
                &&& delta < commit.deltas.len()
                &&& commit.deltas[delta as int].listed_name(full_names).is_none()
                &&& forall|i: int|
                    0 <= i < delta ==> (#[trigger] commit.deltas[i]).listed_name(
                        full_names,
                    ).is_some()
            },
            Err(CommitError::InvalidTime) => false,
        },
{
    let mut files: Vec<CommitFile> = Vec::new();
    if commit.parent_count != 1 {
        return Ok((files, 0));
    }
    let mut i: usize = 0;
    while i < commit.deltas.len()
        invariant
            commit.parent_count == 1,
            i <= commit.deltas.len(),
            files.len() == i,
            forall|j: int| 0 <= j < i ==> (#[trigger] files[j]).lists(commit, j, full_names),
        decreases commit.deltas.len() - i,
    {
        match name_of(&commit.deltas[i], full_names) {
            None => {
                assert forall|j: int| 0 <= j < i implies (#[trigger] commit.deltas[j]).listed_name(
                    full_names,
                ).is_some() by {
                    assert(files[j].lists(commit, j, full_names));
                }
                return Err(CommitError::InvalidPath { delta: i });
            },
            Some(name) => {
                files.push(
                    CommitFile { name, delta: i, modification_type: commit.deltas[i].status },
                );
            },
        }
        i += 1;
    }
    Ok((files, commit.changed_lines))
}

/// The parts of `text` between the occurrences of `mark`. A text without the
/// mark is one part; two marks in a row have an empty part between them.
pub open spec fn split_at_mark(text: Seq<char>, mark: char) -> Seq<Seq<char>>
    decreases text.len(),
{
    if text.len() == 0 {
        seq![Seq::empty()]
    } else {
        let before = split_at_mark(text.drop_last(), mark);
        if text.last() == mark {
            before.push(Seq::empty())
        } else {
            before.drop_last().push(before.last().push(text.last()))
        }
    }
}

/// The branch names that `branch` offers: the names between its `|` marks,
/// in the order in which they are to be tried.
pub fn branch_names(branch: &str) -> (names: Vec<String>)
    ensures
        texts(names@) == split_at_mark(branch@, '|'),
{
    let chars = chars_of(branch);
    let mut names: Vec<String> = Vec::new();
    let mut start: usize = 0;
    let mut i: usize = 0;
    proof {
        assert(chars@.take(0) =~= Seq::empty());
        assert(texts(names@).push(chars@.subrange(0, 0)) =~= seq![Seq::<char>::empty()]);
    }
    while i < chars.len()
        invariant
            chars@ == branch@,
            start <= i <= chars.len(),
            split_at_mark(chars@.take(i as int), '|') == texts(names@).push(
                chars@.subrange(start as int, i as int),
            ),
        decreases chars.len() - i,
    {
        let ghost parts = texts(names@).push(chars@.subrange(start as int, i as int));
        proof {
            assert(chars@.take(i + 1).drop_last() =~= chars@.take(i as int));
            assert(chars@.take(i + 1).last() == chars[i as int]);
            assert(parts.drop_last() =~= texts(names@));
        }
        if chars[i] == '|' {
            let name = branch.substring_char(start, i).to_owned();
            proof {
                assert(texts(names@.push(name)) =~= parts);
                assert(chars@.subrange(i + 1, i + 1) =~= Seq::empty());
            }
            names.push(name);
            start = i + 1;
        } else {
            proof {
                assert(chars@.subrange(start as int, i as int).push(chars[i as int])
                    =~= chars@.subrange(start as int, i + 1));
            }
        }
        i += 1;
    }
    let name = branch.substring_char(start, i).to_owned();
    proof {
        assert(chars@.take(i as int) =~= chars@);
        assert(texts(names@.push(name)) =~= texts(names@).push(
            chars@.subrange(start as int, i as int),
        ));
    }
    names.push(name);
    names
}

/// The branch to walk: the position of the first of the names tried that was
/// found in the repository, `found` saying of each name whether it was.
/// `None` where none was found, and there is nothing to walk.
pub fn first_branch(found: &[bool]) -> (branch: Option<usize>)
    ensures
        match branch {
            Some(at) => at < found.len() && found[at as int] && forall|i: int|
                0 <= i < at ==> !found[i],
            None => forall|i: int| 0 <= i < found.len() ==> !found[i],
        },
{
    let mut i: usize = 0;
    while i < found.len()
        invariant
            i <= found.len(),
            forall|j: int| 0 <= j < i ==> !found[j],
        decreases found.len() - i,
    {
        if found[i] {
            return Some(i);
        }
        i += 1;
    }
    None
}

/// The seconds of a day.
pub const SECONDS_PER_DAY: i64 = 86400;

/// The day on which a time falls, counted from the first day of 1970: the
/// calendar date of the time, without the time of day.
pub open spec fn day_of(seconds: int) -> int {
    seconds / 86400
}

/// The day on which a time falls, counted from the first day of 1970.
pub fn day_of_time(seconds: i64) -> (day: i64)
    ensures
        day == day_of(seconds as int),
{
    if seconds >= 0 {
        seconds / SECONDS_PER_DAY
    } else {
        let behind: i64 = -(seconds + 1);
        let whole: i64 = behind / SECONDS_PER_DAY;
        assert(seconds as int / 86400 == -(whole as int) - 1) by (nonlinear_arith)
            requires
                seconds < 0,
                whole == (-(seconds + 1)) / 86400,
        ;
        -whole - 1
    }
}

/// Whether a day lies in a range of days. The range holds both its ends; a
/// missing end leaves that side open.
pub open spec fn day_in_range(day: int, start: Option<i64>, end: Option<i64>) -> bool {
    &&& start matches Some(first) ==> first <= day
    &&& end matches Some(last) ==> day <= last
}

/// Whether a commit of this time is walked: whether the day on which the
/// time falls lies between `start_date` and `end_date`, both counted in days
/// from the first day of 1970. The time of day plays no part.
pub fn in_date_range(seconds: i64, start_date: Option<i64>, end_date: Option<i64>) -> (walked:
    bool)
    ensures
        walked == day_in_range(day_of(seconds as int), start_date, end_date),
{
    let commit_date = day_of_time(seconds);
    if let Some(start_date) = start_date {
        if commit_date < start_date {
            return false;
        }
    }
    if let Some(end_date) = end_date {
        if commit_date > end_date {
            return false;
        }
    }
    true
}

} // verus!
