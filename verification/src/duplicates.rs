//! What it means to remove duplicates from a list of records: of the files
//! that share a basename, only the first stays.

use crate::paths::base_name;
use crate::paths::file_name;
use crate::paths::path_file_name;
use crate::serialization::CommitRecord;
use crate::text::texts;
use vstd::hash_set::StringHashSet;
use vstd::prelude::*;

verus! {

/// The basenames of `paths`.
pub open spec fn base_names(paths: Seq<Seq<char>>) -> Set<Seq<char>>
    decreases paths.len(),
{
    if paths.len() == 0 {
        Set::empty()
    } else {
        base_names(paths.drop_last()).insert(base_name(paths.last()))
    }
}

/// Whether each of `paths` has a final component.
pub open spec fn named(paths: Seq<Seq<char>>) -> bool {
    forall|i: int| 0 <= i < paths.len() ==> path_file_name(#[trigger] paths[i]).is_some()
}

/// Whether `path` is the first of `paths` that has no final component.
pub open spec fn first_nameless(paths: Seq<Seq<char>>, path: Seq<char>) -> bool {
    exists|k: int|
        0 <= k < paths.len() && #[trigger] paths[k] == path && path_file_name(path).is_none()
            && named(paths.take(k))
}

/// The paths of `paths` that stay when those with a basename in `seen` have
/// gone, and all but the first of those that share a basename.
pub open spec fn unseen(seen: Set<Seq<char>>, paths: Seq<Seq<char>>) -> Seq<Seq<char>>
    decreases paths.len(),
{
    if paths.len() == 0 {
        Seq::empty()
    } else {
        let before = paths.drop_last();
        let last = paths.last();
        if seen.contains(base_name(last)) || base_names(before).contains(base_name(last)) {
            unseen(seen, before)
        } else {
            unseen(seen, before).push(last)
        }
    }
}

impl CommitRecord {
    /// The files that do not match; none where they are not kept.
    pub open spec fn other_files(self) -> Seq<Seq<char>> {
        match self.non_test_files {
            Some(files) => files,
            None => Seq::empty(),
        }
    }

    /// All the files of the record: those that match, then the others.
    pub open spec fn paths(self) -> Seq<Seq<char>> {
        self.test_files + self.other_files()
    }

    /// The basenames of all the files of the record.
    pub open spec fn base_names(self) -> Set<Seq<char>> {
        base_names(self.test_files).union(base_names(self.other_files()))
    }

    /// The record without the files whose basename is in `seen` or belongs
    /// to an earlier file of the record. Where no matching file stays there
    /// is no record, whatever other files stay; where no other file stays
    /// the record has no list of them.
    pub open spec fn without_seen(self, seen: Set<Seq<char>>) -> Option<CommitRecord> {
        let kept = unseen(seen, self.test_files);
        let others = unseen(seen.union(base_names(self.test_files)), self.other_files());
        if kept.len() == 0 {
            None
        } else {
            Some(
                CommitRecord {
                    test_files: kept,
                    non_test_files: if others.len() == 0 {
                        None
                    } else {
                        Some(others)
                    },
                    ..self
                },
            )
        }
    }
}

/// The basenames of all the files of `records`.
pub open spec fn all_base_names(records: Seq<CommitRecord>) -> Set<Seq<char>>
    decreases records.len(),
{
    if records.len() == 0 {
        Set::empty()
    } else {
        all_base_names(records.drop_last()).union(records.last().base_names())
    }
}

/// Whether every file of every record has a final component.
pub open spec fn all_named(records: Seq<CommitRecord>) -> bool {
    forall|i: int| 0 <= i < records.len() ==> named((#[trigger] records[i]).paths())
}

/// `records` without duplicates, where the basenames in `seen` count as
/// met before: each record is left without the files whose basename is in
/// `seen` or was met in an earlier record or earlier in the record itself,
/// and a record that keeps no matching file is left out.
pub open spec fn deduplicated_after(seen: Set<Seq<char>>, records: Seq<CommitRecord>) -> Seq<
    CommitRecord,
>
    decreases records.len(),
{
    if records.len() == 0 {
        Seq::empty()
    } else {
        let before = records.drop_last();
        match records.last().without_seen(seen.union(all_base_names(before))) {
            Some(record) => deduplicated_after(seen, before).push(record),
            None => deduplicated_after(seen, before),
        }
    }
}

/// `records` without duplicates: walking the records in order, and in each
/// the matching files before the others, a file stays only if no file before
/// it has its basename; a record that keeps no matching file is left out.
pub open spec fn deduplicated(records: Seq<CommitRecord>) -> Seq<CommitRecord> {
    deduplicated_after(Set::empty(), records)
}

/// The basenames of a list that grew by one path.
pub proof fn lemma_base_names_push(paths: Seq<Seq<char>>, path: Seq<char>)
    ensures
        base_names(paths.push(path)) == base_names(paths).insert(base_name(path)),
{
    assert(paths.push(path).drop_last() =~= paths);
}

/// What stays of a list that grew by one path.
pub proof fn lemma_unseen_push(seen: Set<Seq<char>>, paths: Seq<Seq<char>>, path: Seq<char>)
    ensures
        unseen(seen, paths.push(path)) == if seen.contains(base_name(path)) || base_names(
            paths,
        ).contains(base_name(path)) {
            unseen(seen, paths)
        } else {
            unseen(seen, paths).push(path)
        },
{
    assert(paths.push(path).drop_last() =~= paths);
}

/// The paths that stay are among the paths given, so their basenames are
/// among the basenames given, and none of them is in `seen`.
pub proof fn lemma_unseen_base_names(seen: Set<Seq<char>>, paths: Seq<Seq<char>>)
    ensures
        base_names(unseen(seen, paths)).subset_of(base_names(paths)),
        base_names(unseen(seen, paths)).disjoint(seen),
    decreases paths.len(),
{
    if paths.len() > 0 {
        let before = paths.drop_last();
        let last = paths.last();
        lemma_unseen_base_names(seen, before);
        if !(seen.contains(base_name(last)) || base_names(before).contains(base_name(last))) {
            lemma_base_names_push(unseen(seen, before), last);
        }
    }
}

/// Removing duplicates from a list of paths a second time, with no more
/// basenames counted as met than the first time, changes nothing.
pub proof fn lemma_unseen_twice(
    fewer: Set<Seq<char>>,
    seen: Set<Seq<char>>,
    paths: Seq<Seq<char>>,
)
    requires
        fewer.subset_of(seen),
    ensures
        unseen(fewer, unseen(seen, paths)) == unseen(seen, paths),
    decreases paths.len(),
{
    if paths.len() > 0 {
        let before = paths.drop_last();
        let last = paths.last();
        lemma_unseen_twice(fewer, seen, before);
        if !(seen.contains(base_name(last)) || base_names(before).contains(base_name(last))) {
            lemma_unseen_base_names(seen, before);
            lemma_unseen_push(fewer, unseen(seen, before), last);
        }
    }
}

/// The basenames of a list of records that grew by one record.
pub proof fn lemma_all_base_names_push(records: Seq<CommitRecord>, record: CommitRecord)
    ensures
        all_base_names(records.push(record)) == all_base_names(records).union(
            record.base_names(),
        ),
{
    assert(records.push(record).drop_last() =~= records);
}

/// The records without duplicates of a list that grew by one record.
pub proof fn lemma_deduplicated_push(
    seen: Set<Seq<char>>,
    records: Seq<CommitRecord>,
    record: CommitRecord,
)
    ensures
        deduplicated_after(seen, records.push(record)) == match record.without_seen(
            seen.union(all_base_names(records)),
        ) {
            Some(kept) => deduplicated_after(seen, records).push(kept),
            None => deduplicated_after(seen, records),
        },
{
    assert(records.push(record).drop_last() =~= records);
}

/// The basenames of a record without duplicates are among those of the
/// record.
pub proof fn lemma_without_seen_base_names(record: CommitRecord, seen: Set<Seq<char>>)
    ensures
        record.without_seen(seen) matches Some(kept) ==> kept.base_names().subset_of(
            record.base_names(),
        ),
{
    lemma_unseen_base_names(seen, record.test_files);
    lemma_unseen_base_names(seen.union(base_names(record.test_files)), record.other_files());
}

/// The basenames of the records without duplicates are among those of the
/// records.
pub proof fn lemma_deduplicated_base_names(seen: Set<Seq<char>>, records: Seq<CommitRecord>)
    ensures
        all_base_names(deduplicated_after(seen, records)).subset_of(all_base_names(records)),
    decreases records.len(),
{
    if records.len() > 0 {
        let before = records.drop_last();
        let met = seen.union(all_base_names(before));
        lemma_deduplicated_base_names(seen, before);
        match records.last().without_seen(met) {
            Some(kept) => {
                lemma_without_seen_base_names(records.last(), met);
                lemma_all_base_names_push(deduplicated_after(seen, before), kept);
            },
            None => {},
        }
    }
}

/// Removing duplicates from a record a second time, with no more basenames
/// counted as met than the first time, changes nothing.
pub proof fn lemma_without_seen_twice(
    record: CommitRecord,
    fewer: Set<Seq<char>>,
    seen: Set<Seq<char>>,
)
    requires
        fewer.subset_of(seen),
    ensures
        record.without_seen(seen) matches Some(kept) ==> kept.without_seen(fewer) == Some(kept),
{
    match record.without_seen(seen) {
        Some(kept) => {
            let met = seen.union(base_names(record.test_files));
            lemma_unseen_twice(fewer, seen, record.test_files);
            lemma_unseen_base_names(seen, record.test_files);
            lemma_unseen_twice(
                fewer.union(base_names(kept.test_files)),
                met,
                record.other_files(),
            );
            assert(unseen(Set::empty(), Seq::empty()) == Seq::<Seq<char>>::empty());
        },
        None => {},
    }
}

/// Removing duplicates a second time, with no more basenames counted as met
/// than the first time, changes nothing.
pub proof fn lemma_deduplicated_twice(
    fewer: Set<Seq<char>>,
    seen: Set<Seq<char>>,
    records: Seq<CommitRecord>,
)
    requires
        fewer.subset_of(seen),
    ensures
        deduplicated_after(fewer, deduplicated_after(seen, records)) == deduplicated_after(
            seen,
            records,
        ),
    decreases records.len(),
{
    if records.len() > 0 {
        let before = records.drop_last();
        let met = seen.union(all_base_names(before));
        lemma_deduplicated_twice(fewer, seen, before);
        match records.last().without_seen(met) {
            Some(kept) => {
                let clean = deduplicated_after(seen, before);
                lemma_deduplicated_base_names(seen, before);
                lemma_without_seen_twice(
                    records.last(),
                    fewer.union(all_base_names(clean)),
                    met,
                );
                lemma_deduplicated_push(fewer, clean, kept);
            },
            None => {},
        }
    }
}

/// The paths that stay have a final component where the paths given have
/// one.
pub proof fn lemma_unseen_named(seen: Set<Seq<char>>, paths: Seq<Seq<char>>)
    requires
        named(paths),
    ensures
        named(unseen(seen, paths)),
    decreases paths.len(),
{
    if paths.len() > 0 {
        let before = paths.drop_last();
        assert forall|i: int| 0 <= i < before.len() implies path_file_name(
            #[trigger] before[i],
        ).is_some() by {
            assert(before[i] == paths[i]);
        }
        lemma_unseen_named(seen, before);
        let kept = unseen(seen, paths);
        assert forall|i: int| 0 <= i < kept.len() implies path_file_name(
            #[trigger] kept[i],
        ).is_some() by {
            if i < unseen(seen, before).len() {
                assert(kept[i] == unseen(seen, before)[i]);
            } else {
                assert(kept[i] == paths[paths.len() - 1]);
            }
        }
    }
}

/// What comes out of removing duplicates can go in again: where every path
/// given has a final component, so has every path of the result.
pub proof fn law_deduplicated_stays_named(list: Seq<CommitRecord>)
    requires
        all_named(list),
    ensures
        all_named(deduplicated(list)),
{
    let result = deduplicated(list);
    assert forall|k: int| 0 <= k < result.len() implies named((#[trigger] result[k]).paths()) by {
        let at = lemma_survivor_from(list, k);
        let given = list[at];
        let met = all_base_names(list.take(at));
        assert(named(given.paths()));
        assert forall|i: int| 0 <= i < given.test_files.len() implies path_file_name(
            #[trigger] given.test_files[i],
        ).is_some() by {
            assert(given.paths()[i] == given.test_files[i]);
        }
        assert forall|i: int| 0 <= i < given.other_files().len() implies path_file_name(
            #[trigger] given.other_files()[i],
        ).is_some() by {
            assert(given.paths()[given.test_files.len() + i] == given.other_files()[i]);
        }
        lemma_unseen_named(met, given.test_files);
        lemma_unseen_named(met.union(base_names(given.test_files)), given.other_files());
        let kept = result[k];
        assert forall|i: int| 0 <= i < kept.paths().len() implies path_file_name(
            #[trigger] kept.paths()[i],
        ).is_some() by {
            if i < kept.test_files.len() {
                assert(kept.paths()[i] == kept.test_files[i]);
            } else {
                assert(kept.paths()[i] == kept.other_files()[i - kept.test_files.len()]);
            }
        }
    }
}

/// Removing duplicates is idempotent: done to its own result, it changes
/// nothing.
pub proof fn law_deduplicated_is_idempotent(records: Seq<CommitRecord>)
    ensures
        deduplicated(deduplicated(records)) == deduplicated(records),
{
    lemma_deduplicated_twice(Set::empty(), Set::empty(), records);
}

/// What the record at position `at` leaves in the result: the record without
/// the files whose basename was met in an earlier record or earlier in the
/// record itself, if it keeps a matching file.
pub open spec fn survivor(records: Seq<CommitRecord>, at: int) -> Option<CommitRecord> {
    records[at].without_seen(all_base_names(records.take(at)))
}

/// All the files of `records`, in the order in which they are walked.
pub open spec fn all_paths(records: Seq<CommitRecord>) -> Seq<Seq<char>>
    decreases records.len(),
{
    if records.len() == 0 {
        Seq::empty()
    } else {
        all_paths(records.drop_last()) + records.last().paths()
    }
}

/// Whether no two of `paths` share a basename.
pub open spec fn distinct(paths: Seq<Seq<char>>) -> bool {
    forall|a: int, b: int|
        0 <= a < b < paths.len() ==> base_name(#[trigger] paths[a]) != base_name(
            #[trigger] paths[b],
        )
}

/// The basename of each path is among the basenames of the list.
pub proof fn lemma_base_name_in(paths: Seq<Seq<char>>, at: int)
    requires
        0 <= at < paths.len(),
    ensures
        base_names(paths).contains(base_name(paths[at])),
    decreases paths.len(),
{
    if at < paths.len() - 1 {
        lemma_base_name_in(paths.drop_last(), at);
    }
}

/// The basenames of two lists joined are those of either.
pub proof fn lemma_base_names_join(first: Seq<Seq<char>>, second: Seq<Seq<char>>)
    ensures
        base_names(first + second) == base_names(first).union(base_names(second)),
    decreases second.len(),
{
    if second.len() == 0 {
        assert(first + second =~= first);
        assert(base_names(first).union(base_names(second)) =~= base_names(first));
    } else {
        lemma_base_names_join(first, second.drop_last());
        assert((first + second).drop_last() =~= first + second.drop_last());
        assert(base_names(first + second) =~= base_names(first).union(base_names(second)));
    }
}

/// The basenames of all the files of `records` are those of `all_paths`.
pub proof fn lemma_all_paths_base_names(records: Seq<CommitRecord>)
    ensures
        base_names(all_paths(records)) == all_base_names(records),
    decreases records.len(),
{
    if records.len() > 0 {
        let last = records.last();
        lemma_all_paths_base_names(records.drop_last());
        lemma_base_names_join(all_paths(records.drop_last()), last.paths());
        lemma_base_names_join(last.test_files, last.other_files());
    }
}

/// Two lists without a shared basename, neither with a basename twice, join
/// to a list without a basename twice.
pub proof fn lemma_distinct_join(first: Seq<Seq<char>>, second: Seq<Seq<char>>)
    requires
        distinct(first),
        distinct(second),
        base_names(first).disjoint(base_names(second)),
    ensures
        distinct(first + second),
{
    let joined = first + second;
    assert forall|a: int, b: int| 0 <= a < b < joined.len() implies base_name(
        #[trigger] joined[a],
    ) != base_name(#[trigger] joined[b]) by {
        if b < first.len() {
            assert(joined[a] == first[a] && joined[b] == first[b]);
        } else if a >= first.len() {
            assert(joined[a] == second[a - first.len()]);
            assert(joined[b] == second[b - first.len()]);
        } else {
            assert(joined[a] == first[a]);
            assert(joined[b] == second[b - first.len()]);
            lemma_base_name_in(first, a);
            lemma_base_name_in(second, b - first.len());
        }
    }
}

/// No two of the paths that stay share a basename.
pub proof fn lemma_unseen_distinct(seen: Set<Seq<char>>, paths: Seq<Seq<char>>)
    ensures
        distinct(unseen(seen, paths)),
    decreases paths.len(),
{
    if paths.len() > 0 {
        let before = paths.drop_last();
        let last = paths.last();
        lemma_unseen_distinct(seen, before);
        if !(seen.contains(base_name(last)) || base_names(before).contains(base_name(last))) {
            let kept = unseen(seen, before);
            lemma_unseen_base_names(seen, before);
            assert forall|a: int, b: int| 0 <= a < b < kept.push(last).len() implies base_name(
                #[trigger] kept.push(last)[a],
            ) != base_name(#[trigger] kept.push(last)[b]) by {
                if b < kept.len() {
                    assert(kept.push(last)[a] == kept[a] && kept.push(last)[b] == kept[b]);
                } else {
                    assert(kept.push(last)[a] == kept[a]);
                    lemma_base_name_in(kept, a);
                }
            }
        }
    }
}

/// A path stays if its basename is not in `seen` and no path before it has
/// that basename.
pub proof fn lemma_unseen_keeps_first(seen: Set<Seq<char>>, paths: Seq<Seq<char>>, at: int)
    requires
        0 <= at < paths.len(),
        !seen.contains(base_name(paths[at])),
        !base_names(paths.take(at)).contains(base_name(paths[at])),
    ensures
        unseen(seen, paths).contains(paths[at]),
    decreases paths.len(),
{
    let before = paths.drop_last();
    if at == paths.len() - 1 {
        assert(paths.take(at) =~= before);
        let kept = unseen(seen, before).push(paths[at]);
        assert(kept[kept.len() - 1] == paths[at]);
    } else {
        assert(before.take(at) =~= paths.take(at));
        lemma_unseen_keeps_first(seen, before, at);
        let k = choose|k: int|
            0 <= k < unseen(seen, before).len() && unseen(seen, before)[k] == paths[at];
        assert(unseen(seen, paths)[k] == paths[at]);
    }
}

/// What a record leaves in the result is one of the records of the result.
pub proof fn lemma_survivor_stays(records: Seq<CommitRecord>, at: int)
    requires
        0 <= at < records.len(),
        survivor(records, at).is_some(),
    ensures
        deduplicated(records).contains(survivor(records, at).unwrap()),
    decreases records.len(),
{
    let before = records.drop_last();
    let met = Set::<Seq<char>>::empty().union(all_base_names(before));
    assert(met =~= all_base_names(before));
    if at == records.len() - 1 {
        assert(records.take(at) =~= before);
        let result = deduplicated(records);
        assert(result[result.len() - 1] == survivor(records, at).unwrap());
    } else {
        assert(before.take(at) =~= records.take(at));
        lemma_survivor_stays(before, at);
        let kept = survivor(records, at).unwrap();
        let k = choose|k: int| 0 <= k < deduplicated(before).len() && deduplicated(before)[k] == kept;
        assert(deduplicated(records)[k] == kept);
    }
}

/// Each record of the result is what one of the records given leaves in it.
pub proof fn lemma_survivor_from(records: Seq<CommitRecord>, k: int) -> (at: int)
    requires
        0 <= k < deduplicated(records).len(),
    ensures
        0 <= at < records.len(),
        survivor(records, at) == Some(deduplicated(records)[k]),
    decreases records.len(),
{
    let before = records.drop_last();
    let met = Set::<Seq<char>>::empty().union(all_base_names(before));
    assert(met =~= all_base_names(before));
    if k < deduplicated(before).len() {
        let at = lemma_survivor_from(before, k);
        assert(before.take(at) =~= records.take(at));
        at
    } else {
        assert(records.take(records.len() - 1) =~= before);
        records.len() - 1
    }
}

/// Of the files that share a basename the first one met stays: a matching
/// file whose basename belongs to no file of an earlier record, and to no
/// matching file before it in its own record, is a matching file of a record
/// of the result, and that record is the one of its commit.
pub proof fn law_first_of_a_basename_stays(records: Seq<CommitRecord>, at: int, file: int)
    requires
        0 <= at < records.len(),
        0 <= file < records[at].test_files.len(),
        !all_base_names(records.take(at)).contains(base_name(records[at].test_files[file])),
        !base_names(records[at].test_files.take(file)).contains(
            base_name(records[at].test_files[file]),
        ),
    ensures
        exists|k: int|
            0 <= k < deduplicated(records).len() && (#[trigger] deduplicated(
                records,
            )[k]).test_files.contains(records[at].test_files[file]) && deduplicated(
                records,
            )[k].commit == records[at].commit && deduplicated(records)[k].seconds
                == records[at].seconds && deduplicated(records)[k].size == records[at].size,
{
    let met = all_base_names(records.take(at));
    lemma_unseen_keeps_first(met, records[at].test_files, file);
    let kept = survivor(records, at).unwrap();
    lemma_survivor_stays(records, at);
    let k = choose|k: int| 0 <= k < deduplicated(records).len() && deduplicated(records)[k] == kept;
    assert(deduplicated(records)[k].test_files.contains(records[at].test_files[file]));
}

/// A file whose basename was met before is gone: each file of a record of
/// the result stood in the record that left it there, and neither a file of
/// an earlier record given nor a file before it in its own record has its
/// basename. A record given that keeps no matching file leaves nothing, so
/// every record of the result has a matching file.
pub proof fn law_later_of_a_basename_goes(records: Seq<CommitRecord>, k: int) -> (at: int)
    requires
        0 <= k < deduplicated(records).len(),
    ensures
        0 <= at < records.len(),
        survivor(records, at) == Some(deduplicated(records)[k]),
        deduplicated(records)[k].test_files.len() > 0,
        deduplicated(records)[k].paths().len() <= records[at].paths().len(),
        forall|file: int|
            0 <= file < deduplicated(records)[k].paths().len() ==> !all_base_names(
                records.take(at),
            ).contains(base_name(#[trigger] deduplicated(records)[k].paths()[file])),
        distinct(deduplicated(records)[k].paths()),
{
    let at = lemma_survivor_from(records, k);
    let kept = deduplicated(records)[k];
    let given = records[at];
    let met = all_base_names(records.take(at));
    let inner = met.union(base_names(given.test_files));
    lemma_unseen_base_names(met, given.test_files);
    lemma_unseen_base_names(inner, given.other_files());
    lemma_unseen_distinct(met, given.test_files);
    lemma_unseen_distinct(inner, given.other_files());
    lemma_unseen_length(met, given.test_files);
    lemma_unseen_length(inner, given.other_files());
    lemma_distinct_join(kept.test_files, kept.other_files());
    assert forall|file: int| 0 <= file < kept.paths().len() implies !met.contains(
        base_name(#[trigger] kept.paths()[file]),
    ) by {
        if file < kept.test_files.len() {
            lemma_base_name_in(kept.test_files, file);
        } else {
            lemma_base_name_in(kept.other_files(), file - kept.test_files.len());
        }
    }
    at
}

/// No more paths stay than were given.
pub proof fn lemma_unseen_length(seen: Set<Seq<char>>, paths: Seq<Seq<char>>)
    ensures
        unseen(seen, paths).len() <= paths.len(),
    decreases paths.len(),
{
    if paths.len() > 0 {
        lemma_unseen_length(seen, paths.drop_last());
    }
}

/// No two files of the result share a basename, in whatever records and
/// directories they lie.
pub proof fn law_no_basename_twice(records: Seq<CommitRecord>)
    ensures
        distinct(all_paths(deduplicated(records))),
    decreases records.len(),
{
    if records.len() > 0 {
        let before = records.drop_last();
        let given = records.last();
        let met = all_base_names(before);
        assert(Set::<Seq<char>>::empty().union(met) =~= met);
        law_no_basename_twice(before);
        match given.without_seen(met) {
            Some(kept) => {
                let clean = deduplicated(before);
                let inner = met.union(base_names(given.test_files));
                assert(clean.push(kept).drop_last() =~= clean);
                lemma_deduplicated_base_names(Set::empty(), before);
                lemma_all_paths_base_names(clean);
                lemma_unseen_base_names(met, given.test_files);
                lemma_unseen_base_names(inner, given.other_files());
                lemma_unseen_distinct(met, given.test_files);
                lemma_unseen_distinct(inner, given.other_files());
                lemma_distinct_join(kept.test_files, kept.other_files());
                lemma_base_names_join(kept.test_files, kept.other_files());
                lemma_distinct_join(all_paths(clean), kept.paths());
            },
            None => {},
        }
    }
}

/// Walks `paths` in order: a path stays if its basename is not in `seen`,
/// and each path's basename is put into `seen`. It stops with the position of
/// the first path that has no final component, if there is one; `seen` then
/// holds the basenames of the paths before it as well.
pub fn keep_unseen(seen: &mut StringHashSet, paths: &Vec<String>) -> (result: Result<
    Vec<String>,
    usize,
>)
    ensures
        match result {
            Ok(kept) => {
                &&& named(texts(paths@))
                &&& texts(kept@) == unseen(old(seen)@, texts(paths@))
                &&& final(seen)@ == old(seen)@.union(base_names(texts(paths@)))
            },
            Err(at) => {
                &&& at < paths.len()
                &&& path_file_name(paths[at as int]@).is_none()
                &&& named(texts(paths@).take(at as int))
            },
        },
{
    let mut kept: Vec<String> = Vec::new();
    let mut i: usize = 0;
    proof {
        assert(texts(paths@).take(0) =~= Seq::empty());
        assert(texts(kept@) =~= Seq::empty());
        assert(seen@ =~= seen@.union(Set::empty()));
    }
    while i < paths.len()
        invariant
            i <= paths.len(),
            named(texts(paths@).take(i as int)),
            texts(kept@) == unseen(old(seen)@, texts(paths@).take(i as int)),
            seen@ == old(seen)@.union(base_names(texts(paths@).take(i as int))),
        decreases paths.len() - i,
    {
        let ghost before = texts(paths@).take(i as int);
        let ghost path = paths[i as int]@;
        proof {
            assert(texts(paths@).take(i + 1) =~= before.push(path));
            lemma_base_names_push(before, path);
            lemma_unseen_push(old(seen)@, before, path);
        }
        match file_name(paths[i].as_str()) {
            None => {
                return Err(i);
            },
            Some(name) => {
                if !seen.contains(name.as_str()) {
                    let path = paths[i].clone();
                    assert(texts(kept@.push(path)) =~= texts(kept@).push(path@));
                    kept.push(path);
                    seen.insert(name);
                }
            },
        }
        proof {
            assert(seen@ =~= old(seen)@.union(base_names(before.push(path))));
        }
        i += 1;
    }
    assert(texts(paths@).take(i as int) =~= texts(paths@));
    Ok(kept)
}

} // verus!
