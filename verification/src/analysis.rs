//! The analysis of one commit, and the removal of duplicates from the
//! records of all of them.

use crate::commits::get_modified_files;
use crate::commits::CommitError;
use crate::commits::CommitSendSync;
use crate::commits::Delta;
use crate::commits::FileDelta;
use crate::duplicates::all_base_names;
use crate::duplicates::all_named;
use crate::duplicates::base_names;
use crate::duplicates::deduplicated;
use crate::duplicates::first_nameless;
use crate::duplicates::keep_unseen;
use crate::duplicates::lemma_all_base_names_push;
use crate::duplicates::lemma_deduplicated_push;
use crate::duplicates::named;
use crate::expression_interpreter::evaluate;
use crate::expression_parser::Expr;
use crate::paths::extension;
use crate::paths::path_extension;
use crate::paths::path_file_name;
use crate::serialization::records;
use crate::serialization::CommitData;
use crate::serialization::CommitRecord;
use crate::serialization::NativeDateTimeWrapper;
use crate::text::contains_text;
use crate::text::decode;
use crate::text::decoded;
use crate::text::texts;
use vstd::hash_set::StringHashSet;
use vstd::prelude::*;

verus! {

/// How the analysis of a commit is to be done.
#[derive(Debug, Clone)]
pub struct AnalyserOptions {
    /// The rule that a file's name is held against, where names are looked at.
    pub evaluate_name: Option<Expr>,
    /// Whether a file's content is held against the analyser's rule.
    pub evaluate_content: bool,
    /// Whether the files that do not match are kept in the record.
    pub include_non_tests: bool,
    /// Whether files are listed under their whole path, not only its final
    /// component.
    pub full_path: bool,
}

/// The analysis of commits: which of the files that a commit adds match a
/// rule.
#[derive(Debug, Clone)]
pub struct Analyser {
    /// The extensions of the files that are looked at.
    pub extensions: Vec<String>,
    /// The rule that a file's content is held against.
    pub expr: Expr,
    /// How the analysis is to be done.
    pub options: AnalyserOptions,
}

/// What the analysis makes of one file.
#[derive(Debug, Clone, Copy, PartialEq, Eq, Structural)]
pub enum FileClass {
    /// The file is left out: it was not added, it cannot be read, its
    /// extension is not one of those looked at, or its content is no text.
    Skipped,
    /// The file matches.
    Matched,
    /// The file does not match.
    Unmatched,
}

/// The model of an optional run of bytes.
pub open spec fn bytes_model(bytes: Option<Vec<u8>>) -> Option<Seq<u8>> {
    match bytes {
        Some(bytes) => Some(bytes@),
        None => None,
    }
}

/// The model of an optional record.
pub open spec fn record_model(data: Option<CommitData>) -> Option<CommitRecord> {
    match data {
        Some(data) => Some(data@),
        None => None,
    }
}

impl Analyser {
    /// Whether a file of this name has one of the extensions looked at.
    pub open spec fn allows(&self, name: Seq<char>) -> bool {
        match path_extension(name) {
            Some(found) => exists|i: int|
                0 <= i < self.extensions.len() && (#[trigger] self.extensions[i])@ == found,
            None => false,
        }
    }

    /// Whether a file of this name and content matches: the name rule holds
    /// on the name, where there is one, or content is looked at and the
    /// content rule holds on it.
    pub open spec fn matches(&self, name: Seq<char>, content: Seq<char>) -> bool {
        ||| (self.options.evaluate_name matches Some(rule) && rule@.holds(name))
        ||| (self.options.evaluate_content && self.expr@.holds(content))
    }

    /// What the analysis makes of a file with this name, status and content.
    pub open spec fn class_of(&self, name: Seq<char>, status: Delta, content: Option<
        Seq<u8>,
    >) -> FileClass {
        if status != Delta::Added {
            FileClass::Skipped
        } else {
            match content {
                None => FileClass::Skipped,
                Some(bytes) => if !self.allows(name) {
                    FileClass::Skipped
                } else {
                    match decoded(bytes) {
                        None => FileClass::Skipped,
                        Some(text) => if self.matches(name, text) {
                            FileClass::Matched
                        } else {
                            FileClass::Unmatched
                        },
                    }
                },
            }
        }
    }

    /// What the analysis makes of an entry of a diff.
    pub open spec fn class_of_delta(&self, delta: FileDelta) -> FileClass {
        match delta.listed_name(self.options.full_path) {
            Some(name) => self.class_of(name, delta.status, bytes_model(delta.content)),
            None => FileClass::Skipped,
        }
    }

    /// The names of the entries of `deltas` that the analysis puts in
    /// `class`, in the order of the diff.
    pub open spec fn files_of_class(&self, deltas: Seq<FileDelta>, class: FileClass) -> Seq<
        Seq<char>,
    >
        decreases deltas.len(),
    {
        if deltas.len() == 0 {
            Seq::empty()
        } else {
            let before = self.files_of_class(deltas.drop_last(), class);
            let last = deltas.last();
            if self.class_of_delta(last) == class {
                before.push(last.listed_name(self.options.full_path).unwrap())
            } else {
                before
            }
        }
    }

    /// The record of `commit`: its matching files and, where they are kept,
    /// the others, with the commit's id, time and size. There is a record
    /// only where a file matches. The diff of a commit that has no parent,
    /// or several, is not looked at.
    pub open spec fn record_of(&self, commit: &CommitSendSync) -> Option<CommitRecord> {
        let deltas = if commit.parent_count == 1 {
            commit.deltas@
        } else {
            Seq::empty()
        };
        let lines = if commit.parent_count == 1 {
            commit.changed_lines
        } else {
            0
        };
        let matched = self.files_of_class(deltas, FileClass::Matched);
        if matched.len() == 0 {
            None
        } else {
            Some(
                CommitRecord {
                    commit: commit.id@,
                    seconds: commit.seconds as int,
                    size: lines as nat,
                    test_files: matched,
                    non_test_files: if self.options.include_non_tests {
                        Some(self.files_of_class(deltas, FileClass::Unmatched))
                    } else {
                        None
                    },
                },
            )
        }
    }

    /// Whether `commit` can be analysed: its time can be written out as a
    /// date and, where it has one parent, every entry of its diff can be
    /// listed under a name.
    pub open spec fn analysable(&self, commit: &CommitSendSync) -> bool {
        &&& NativeDateTimeWrapper(commit.seconds).representable()
        &&& commit.parent_count == 1 ==> commit.listed(self.options.full_path)
    }

    /// Whether `error` says why `commit` cannot be analysed: its time cannot
    /// be written out as a date or, that being in order, it has one parent
    /// and the error names the first entry of its diff that cannot be listed
    /// under a name.
    pub open spec fn fails_with(&self, commit: &CommitSendSync, error: CommitError) -> bool {
        match error {
            CommitError::InvalidTime => !NativeDateTimeWrapper(commit.seconds).representable(),
            CommitError::InvalidPath { delta } => {
                &&& NativeDateTimeWrapper(commit.seconds).representable()
                &&& commit.parent_count == 1
                &&& delta < commit.deltas.len()
                &&& commit.deltas[delta as int].listed_name(self.options.full_path).is_none()
                &&& forall|i: int|
                    0 <= i < delta ==> (#[trigger] commit.deltas[i]).listed_name(
                        self.options.full_path,
                    ).is_some()
            },
        }
    }

    /// An analyser for files with one of `extensions`, with `expr` as the
    /// rule for their content.
    pub fn new(extensions: Vec<String>, expr: Expr, opts: AnalyserOptions) -> (analyser: Analyser)
        ensures
            analyser.extensions == extensions,
            analyser.expr == expr,
            analyser.options == opts,
    {
        Analyser { extensions, expr, options: opts }
    }

    /// Whether `name` has one of the extensions looked at.
    pub fn allows_name(&self, name: &str) -> (allowed: bool)
        ensures
            allowed == self.allows(name@),
    {
        match extension(name) {
            Some(found) => contains_text(&self.extensions, &found),
            None => false,
        }
    }

    /// What the analysis makes of a file with this name, status and content.
    pub fn classify(&self, name: &str, status: Delta, content: &Option<Vec<u8>>) -> (class:
        FileClass)
        ensures
            class == self.class_of(name@, status, bytes_model(*content)),
    {
        if status != Delta::Added {
            return FileClass::Skipped;
        }
        match content {
            None => FileClass::Skipped,
            Some(bytes) => {
                if !self.allows_name(name) {
                    return FileClass::Skipped;
                }
                match decode(bytes.as_slice()) {
                    None => FileClass::Skipped,
                    Some(text) => {
                        let by_name = match &self.options.evaluate_name {
                            Some(rule) => evaluate(rule, name),
                            None => false,
                        };
                        if by_name || (self.options.evaluate_content && evaluate(
                            &self.expr,
                            text,
                        )) {
                            FileClass::Matched
                        } else {
                            FileClass::Unmatched
                        }
                    },
                }
            },
        }
    }

    /// Analyses one commit: of the files that it adds and that have one of
    /// the extensions looked at and a text as content, those that match go
    /// into the record's `test_files` and, where they are kept, the others
    /// into `non_test_files`, both in the order of the diff. A commit without
    /// a matching file has no record.
    ///
    /// The result is an error exactly when the commit's time cannot be
    /// written out as a date or, that being in order, the commit has one
    /// parent and an entry of its diff cannot be listed under a name.
    pub fn process_commit(&self, commit: &CommitSendSync) -> (result: Result<
        Option<CommitData>,
        CommitError,
    >)
        ensures
            match result {
                Ok(found) => self.analysable(commit) && record_model(found) == self.record_of(
                    commit,
                ),
                Err(error) => self.fails_with(commit, error),
            },
    {
        let date = match NativeDateTimeWrapper::from_timestamp(commit.seconds) {
            Some(date) => date,
            None => {
                return Err(CommitError::InvalidTime);
            },
        };
        let (modified_files, changed_lines) = match get_modified_files(
            commit,
            self.options.full_path,
        ) {
            Ok(modified) => modified,
            Err(error) => {
                return Err(error);
            },
        };
        let ghost deltas = if commit.parent_count == 1 {
            commit.deltas@
        } else {
            Seq::empty()
        };
        let mut files: Vec<String> = Vec::new();
        let mut non_test_files: Vec<String> = Vec::new();
        let mut i: usize = 0;
        assert(deltas.take(0) =~= Seq::empty());
        assert(texts(files@) =~= Seq::empty());
        while i < modified_files.len()
            invariant
                i <= modified_files.len(),
                modified_files.len() == deltas.len(),
                commit.parent_count == 1 ==> deltas == commit.deltas@,
                commit.parent_count != 1 ==> deltas.len() == 0,
                forall|j: int|
                    0 <= j < modified_files.len() ==> (#[trigger] modified_files[j]).lists(
                        commit,
                        j,
                        self.options.full_path,
                    ),
                texts(files@) == self.files_of_class(deltas.take(i as int), FileClass::Matched),
                self.options.include_non_tests ==> texts(non_test_files@) == self.files_of_class(
                    deltas.take(i as int),
                    FileClass::Unmatched,
                ),
            decreases modified_files.len() - i,
        {
            let file = &modified_files[i];
            assert(file.lists(commit, i as int, self.options.full_path));
            let class = self.classify(
                file.name.as_str(),
                file.modification_type,
                &commit.deltas[file.delta].content,
            );
            proof {
                assert(deltas.take(i + 1).drop_last() =~= deltas.take(i as int));
                assert(deltas.take(i + 1).last() == commit.deltas[i as int]);
                assert(class == self.class_of_delta(commit.deltas[i as int]));
            }
            match class {
                FileClass::Matched => {
                    let name = file.name.clone();
                    assert(texts(files@.push(name)) =~= texts(files@).push(name@));
                    files.push(name);
                },
                FileClass::Unmatched => {
                    if self.options.include_non_tests {
                        let name = file.name.clone();
                        assert(texts(non_test_files@.push(name)) =~= texts(non_test_files@).push(
                            name@,
                        ));
                        non_test_files.push(name);
                    }
                },
                FileClass::Skipped => {},
            }
            i += 1;
        }
        proof {
            assert(deltas.take(i as int) =~= deltas);
            if commit.parent_count == 1 {
                assert forall|j: int| 0 <= j < commit.deltas.len() implies (
                #[trigger] commit.deltas[j]).listed_name(self.options.full_path).is_some() by {
                    assert(modified_files[j].lists(commit, j, self.options.full_path));
                }
            }
            assert(texts(files@).len() == files.len());
        }
        if files.len() > 0 {
            Ok(
                Some(
                    CommitData {
                        commit: commit.id.clone(),
                        date,
                        size: changed_lines,
                        test_files: files,
                        non_test_files: if self.options.include_non_tests {
                            Some(non_test_files)
                        } else {
                            None
                        },
                    },
                ),
            )
        } else {
            Ok(None)
        }
    }
}

/// No entry of `deltas` is put in `class`, so the list of those that are is
/// empty.
proof fn lemma_no_file_of_class(analyser: &Analyser, deltas: Seq<FileDelta>, class: FileClass)
    requires
        forall|i: int| 0 <= i < deltas.len() ==> analyser.class_of_delta(#[trigger] deltas[i]) != class,
    ensures
        analyser.files_of_class(deltas, class).len() == 0,
    decreases deltas.len(),
{
    if deltas.len() > 0 {
        let before = deltas.drop_last();
        assert forall|i: int| 0 <= i < before.len() implies analyser.class_of_delta(
            #[trigger] before[i],
        ) != class by {
            assert(before[i] == deltas[i]);
        }
        lemma_no_file_of_class(analyser, before, class);
        assert(analyser.class_of_delta(deltas.last()) != class);
    }
}

/// A commit that has no parent, or more than one, has no record, whatever
/// the rules and the extensions are.
pub proof fn law_no_record_unless_one_parent(analyser: &Analyser, commit: &CommitSendSync)
    requires
        commit.parent_count != 1,
    ensures
        analyser.record_of(commit).is_none(),
{
}

/// A commit has no record where none of the files that it adds has one of
/// the extensions looked at.
pub proof fn law_no_record_without_allowed_extension(analyser: &Analyser, commit: &CommitSendSync)
    requires
        forall|i: int|
            0 <= i < commit.deltas.len() && (#[trigger] commit.deltas[i]).status == Delta::Added
                ==> match commit.deltas[i].listed_name(analyser.options.full_path) {
                Some(name) => !analyser.allows(name),
                None => true,
            },
    ensures
        analyser.record_of(commit).is_none(),
{
    if commit.parent_count == 1 {
        assert forall|i: int| 0 <= i < commit.deltas@.len() implies analyser.class_of_delta(
            #[trigger] commit.deltas@[i],
        ) != FileClass::Matched by {
            assert(commit.deltas@[i] == commit.deltas[i]);
        }
        lemma_no_file_of_class(analyser, commit.deltas@, FileClass::Matched);
    }
}

/// The record of a commit with one parent and a matching file lists the
/// matching files as its test files and, exactly where the other files are
/// kept, those as its other files; its size is the number of lines that the
/// commit inserted and deleted.
pub proof fn law_record_lists_both_classes(analyser: &Analyser, commit: &CommitSendSync)
    requires
        commit.parent_count == 1,
        analyser.files_of_class(commit.deltas@, FileClass::Matched).len() > 0,
    ensures
        analyser.record_of(commit) matches Some(record) && {
            &&& record.test_files == analyser.files_of_class(commit.deltas@, FileClass::Matched)
            &&& analyser.options.include_non_tests ==> record.non_test_files == Some(
                analyser.files_of_class(commit.deltas@, FileClass::Unmatched),
            )
            &&& !analyser.options.include_non_tests ==> record.non_test_files.is_none()
            &&& record.size == commit.changed_lines
            &&& record.commit == commit.id@
            &&& record.seconds == commit.seconds
        },
{
}

/// Each name that `files_of_class` lists for the matching files, or for
/// those that do not match, is the name of an entry in that class.
pub proof fn law_listed_files_are_of_their_class(
    analyser: &Analyser,
    deltas: Seq<FileDelta>,
    class: FileClass,
    k: int,
)
    requires
        class != FileClass::Skipped,
        0 <= k < analyser.files_of_class(deltas, class).len(),
    ensures
        exists|i: int|
            0 <= i < deltas.len() && analyser.class_of_delta(#[trigger] deltas[i]) == class
                && deltas[i].listed_name(analyser.options.full_path) == Some(
                analyser.files_of_class(deltas, class)[k],
            ),
    decreases deltas.len(),
{
    let before = deltas.drop_last();
    let last = deltas.last();
    let listed = analyser.files_of_class(before, class);
    if k < listed.len() {
        law_listed_files_are_of_their_class(analyser, before, class, k);
        let i = choose|i: int|
            0 <= i < before.len() && analyser.class_of_delta(#[trigger] before[i]) == class
                && before[i].listed_name(analyser.options.full_path) == Some(listed[k]);
        assert(deltas[i] == before[i]);
    } else {
        assert(analyser.class_of_delta(deltas[deltas.len() - 1]) == class);
    }
}

/// A path that has no final component, so that it has no basename to be
/// compared by.
#[derive(Debug)]
pub struct NamelessPath {
    /// The position of the record that holds the path.
    pub commit: usize,
    /// The path.
    pub path: String,
}

/// Removes duplicates from records that are sorted by time: walking the
/// records in order, and in each the matching files before the others, a
/// file stays only if no file before it has its basename, whatever
/// directory either lies in. A record that keeps no matching file is left
/// out, whatever other files it keeps.
///
/// The result is an error exactly when a path has no final component; the
/// error holds the first such path of the first record that has one.
pub fn delete_duplicates(commit_data: &[CommitData]) -> (result: Result<
    Vec<CommitData>,
    NamelessPath,
>)
    ensures
        match result {
            Ok(kept) => {
                &&& all_named(records(commit_data@))
                &&& records(kept@) == deduplicated(records(commit_data@))
            },
            Err(error) => {
                &&& error.commit < commit_data.len()
                &&& all_named(records(commit_data@).take(error.commit as int))
                &&& first_nameless(commit_data[error.commit as int]@.paths(), error.path@)
            },
        },
{
    let mut seen_files = StringHashSet::new();
    let mut result: Vec<CommitData> = Vec::new();
    let ghost given = records(commit_data@);
    let mut i: usize = 0;
    proof {
        assert(given.take(0) =~= Seq::empty());
        assert(records(result@) =~= Seq::empty());
    }
    while i < commit_data.len()
        invariant
            i <= commit_data.len(),
            given == records(commit_data@),
            all_named(given.take(i as int)),
            seen_files@ == all_base_names(given.take(i as int)),
            records(result@) == deduplicated(given.take(i as int)),
        decreases commit_data.len() - i,
    {
        let commit = &commit_data[i];
        let ghost before = given.take(i as int);
        let ghost record = commit@;
        proof {
            assert(given.take(i + 1) =~= before.push(record));
            lemma_all_base_names_push(before, record);
            lemma_deduplicated_push(Set::empty(), before, record);
            assert(Set::<Seq<char>>::empty().union(all_base_names(before)) =~= all_base_names(
                before,
            ));
        }
        let test_files = match keep_unseen(&mut seen_files, &commit.test_files) {
            Ok(kept) => kept,
            Err(at) => {
                proof {
                    let paths = record.paths();
                    assert(paths[at as int] == commit.test_files[at as int]@);
                    assert(paths.take(at as int) =~= record.test_files.take(at as int));
                }
                return Err(NamelessPath { commit: i, path: commit.test_files[at].clone() });
            },
        };
        let non_test_files = match &commit.non_test_files {
            Some(files) => match keep_unseen(&mut seen_files, files) {
                Ok(kept) => kept,
                Err(at) => {
                    proof {
                        let paths = record.paths();
                        let k = record.test_files.len() + at;
                        assert(paths[k] == files[at as int]@);
                        assert(paths.take(k) =~= record.test_files + record.other_files().take(
                            at as int,
                        ));
                        assert forall|j: int| 0 <= j < k implies path_file_name(
                            #[trigger] paths.take(k)[j],
                        ).is_some() by {
                            if j < record.test_files.len() {
                                assert(paths.take(k)[j] == record.test_files[j]);
                            } else {
                                assert(paths.take(k)[j] == record.other_files().take(at as int)[j
                                    - record.test_files.len()]);
                            }
                        }
                    }
                    return Err(NamelessPath { commit: i, path: files[at].clone() });
                },
            },
            None => {
                proof {
                    assert(seen_files@ =~= seen_files@.union(
                        base_names(Seq::empty()),
                    ));
                }
                Vec::new()
            },
        };
        proof {
            assert forall|j: int| 0 <= j < record.paths().len() implies path_file_name(
                #[trigger] record.paths()[j],
            ).is_some() by {
                if j < record.test_files.len() {
                    assert(record.paths()[j] == record.test_files[j]);
                } else {
                    assert(record.paths()[j] == record.other_files()[j - record.test_files.len()]);
                }
            }
            assert forall|j: int| 0 <= j < i + 1 implies named(
                (#[trigger] given.take(i + 1)[j]).paths(),
            ) by {
                if j < i {
                    assert(given.take(i + 1)[j] == before[j]);
                }
            }
            assert(seen_files@ =~= all_base_names(before).union(record.base_names()));
            assert(texts(test_files@).len() == test_files.len());
            assert(texts(non_test_files@).len() == non_test_files.len());
        }
        if test_files.len() > 0 {
            let kept = CommitData {
                commit: commit.commit.clone(),
                size: commit.size,
                date: commit.date,
                test_files,
                non_test_files: if non_test_files.len() == 0 {
                    None
                } else {
                    Some(non_test_files)
                },
            };
            assert(records(result@.push(kept)) =~= records(result@).push(kept@));
            result.push(kept);
        }
        i += 1;
    }
    assert(given.take(i as int) =~= given);
    Ok(result)
}

} // verus!
