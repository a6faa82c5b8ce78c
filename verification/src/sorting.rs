//! Sorting records by time. Records of one time stay in the order in which
//! they were given.

use crate::serialization::records;
use crate::serialization::CommitData;
use crate::serialization::CommitRecord;
use vstd::prelude::*;

verus! {

/// `sorted` with `record` put in behind the last record that is not later
/// than it.
pub open spec fn inserted(sorted: Seq<CommitRecord>, record: CommitRecord) -> Seq<CommitRecord>
    decreases sorted.len(),
{
    if sorted.len() > 0 && sorted.last().seconds > record.seconds {
        inserted(sorted.drop_last(), record).push(sorted.last())
    } else {
        sorted.push(record)
    }
}

/// `list` sorted by time, the earliest record first; records of one time
/// stay in the order of `list`.
pub open spec fn sorted_by_date(list: Seq<CommitRecord>) -> Seq<CommitRecord>
    decreases list.len(),
{
    if list.len() == 0 {
        Seq::empty()
    } else {
        inserted(sorted_by_date(list.drop_last()), list.last())
    }
}

/// Whether no record of `list` is earlier than one before it.
pub open spec fn ordered(list: Seq<CommitRecord>) -> bool {
    forall|a: int, b: int|
        0 <= a < b < list.len() ==> (#[trigger] list[a]).seconds <= (#[trigger] list[b]).seconds
}

/// The records of `list` whose time is `seconds`, in the order of `list`.
pub open spec fn at_time(list: Seq<CommitRecord>, seconds: int) -> Seq<CommitRecord>
    decreases list.len(),
{
    if list.len() == 0 {
        Seq::empty()
    } else if list.last().seconds == seconds {
        at_time(list.drop_last(), seconds).push(list.last())
    } else {
        at_time(list.drop_last(), seconds)
    }
}

/// Where the records from `at` on are later than `record`, and the one
/// before `at` is not, `record` is put in at `at`.
pub proof fn lemma_inserted_at(sorted: Seq<CommitRecord>, record: CommitRecord, at: int)
    requires
        0 <= at <= sorted.len(),
        forall|k: int| at <= k < sorted.len() ==> (#[trigger] sorted[k]).seconds > record.seconds,
        at > 0 ==> sorted[at - 1].seconds <= record.seconds,
    ensures
        inserted(sorted, record) == sorted.insert(at, record),
    decreases sorted.len() - at,
{
    if at == sorted.len() {
        assert(sorted.insert(at, record) =~= sorted.push(record));
    } else {
        let before = sorted.drop_last();
        assert(sorted.last() == sorted[sorted.len() - 1]);
        assert forall|k: int| at <= k < before.len() implies (#[trigger] before[k]).seconds
            > record.seconds by {
            assert(before[k] == sorted[k]);
        }
        lemma_inserted_at(before, record, at);
        assert(before.insert(at, record).push(sorted.last()) =~= sorted.insert(at, record));
    }
}

/// Putting a record into an ordered list leaves it ordered.
pub proof fn lemma_inserted_ordered(sorted: Seq<CommitRecord>, record: CommitRecord)
    requires
        ordered(sorted),
    ensures
        ordered(inserted(sorted, record)),
        inserted(sorted, record).len() == sorted.len() + 1,
        forall|k: int|
            0 <= k < inserted(sorted, record).len() ==> (#[trigger] inserted(sorted, record)[k])
                == record || sorted.contains(inserted(sorted, record)[k]),
    decreases sorted.len(),
{
    let result = inserted(sorted, record);
    if sorted.len() > 0 && sorted.last().seconds > record.seconds {
        let before = sorted.drop_last();
        let last = sorted.last();
        assert forall|a: int, b: int| 0 <= a < b < before.len() implies (#[trigger] before[a]).seconds
            <= (#[trigger] before[b]).seconds by {
            assert(before[a] == sorted[a] && before[b] == sorted[b]);
        }
        lemma_inserted_ordered(before, record);
        let inner = inserted(before, record);
        assert forall|k: int| 0 <= k < inner.len() implies (#[trigger] inner[k]).seconds
            <= last.seconds by {
            if inner[k] != record {
                let j = choose|j: int| 0 <= j < before.len() && before[j] == inner[k];
                assert(before[j] == sorted[j]);
                assert(sorted[j].seconds <= sorted[sorted.len() - 1].seconds);
            }
        }
        assert forall|a: int, b: int| 0 <= a < b < result.len() implies (#[trigger] result[a]).seconds
            <= (#[trigger] result[b]).seconds by {
            if b < inner.len() {
                assert(result[a] == inner[a] && result[b] == inner[b]);
            } else {
                assert(result[a] == inner[a]);
            }
        }
        assert forall|k: int| 0 <= k < result.len() implies (#[trigger] result[k]) == record
            || sorted.contains(result[k]) by {
            if k < inner.len() {
                assert(result[k] == inner[k]);
                if inner[k] != record {
                    let j = choose|j: int| 0 <= j < before.len() && before[j] == inner[k];
                    assert(sorted[j] == before[j]);
                }
            } else {
                assert(sorted[sorted.len() - 1] == result[k]);
            }
        }
    } else {
        assert forall|a: int, b: int| 0 <= a < b < result.len() implies (#[trigger] result[a]).seconds
            <= (#[trigger] result[b]).seconds by {
            if b < sorted.len() {
                assert(result[a] == sorted[a] && result[b] == sorted[b]);
            } else {
                assert(result[a] == sorted[a]);
                assert(sorted[a].seconds <= sorted[sorted.len() - 1].seconds);
            }
        }
        assert forall|k: int| 0 <= k < result.len() implies (#[trigger] result[k]) == record
            || sorted.contains(result[k]) by {
            if k < sorted.len() {
                assert(sorted[k] == result[k]);
            }
        }
    }
}

/// Of the records of one time the one put in comes last.
pub proof fn lemma_inserted_at_time(sorted: Seq<CommitRecord>, record: CommitRecord, seconds: int)
    ensures
        at_time(inserted(sorted, record), seconds) == if record.seconds == seconds {
            at_time(sorted, seconds).push(record)
        } else {
            at_time(sorted, seconds)
        },
    decreases sorted.len(),
{
    if sorted.len() > 0 && sorted.last().seconds > record.seconds {
        let before = sorted.drop_last();
        lemma_inserted_at_time(before, record, seconds);
        assert(inserted(before, record).push(sorted.last()).drop_last() =~= inserted(
            before,
            record,
        ));
    } else {
        assert(sorted.push(record).drop_last() =~= sorted);
    }
}

/// A record put in is one record more.
pub proof fn lemma_inserted_multiset(sorted: Seq<CommitRecord>, record: CommitRecord)
    ensures
        inserted(sorted, record).to_multiset() == sorted.to_multiset().insert(record),
    decreases sorted.len(),
{
    broadcast use vstd::seq_lib::group_to_multiset_ensures;

    if sorted.len() > 0 && sorted.last().seconds > record.seconds {
        let before = sorted.drop_last();
        lemma_inserted_multiset(before, record);
        assert(before.push(sorted.last()) =~= sorted);
        assert(inserted(sorted, record).to_multiset() =~= sorted.to_multiset().insert(record));
    }
}

/// The sorted records are in the order of their times.
pub proof fn law_sorted_is_ordered(list: Seq<CommitRecord>)
    ensures
        ordered(sorted_by_date(list)),
        sorted_by_date(list).len() == list.len(),
    decreases list.len(),
{
    if list.len() > 0 {
        law_sorted_is_ordered(list.drop_last());
        lemma_inserted_ordered(sorted_by_date(list.drop_last()), list.last());
    }
}

/// Sorting is stable: the records of one time come out in the order in which
/// they went in.
pub proof fn law_sorted_is_stable(list: Seq<CommitRecord>, seconds: int)
    ensures
        at_time(sorted_by_date(list), seconds) == at_time(list, seconds),
    decreases list.len(),
{
    if list.len() > 0 {
        law_sorted_is_stable(list.drop_last(), seconds);
        lemma_inserted_at_time(sorted_by_date(list.drop_last()), list.last(), seconds);
    }
}

/// Sorting neither loses a record nor makes one up.
pub proof fn law_sorted_is_permutation(list: Seq<CommitRecord>)
    ensures
        sorted_by_date(list).to_multiset() == list.to_multiset(),
    decreases list.len(),
{
    broadcast use vstd::seq_lib::group_to_multiset_ensures;

    if list.len() > 0 {
        law_sorted_is_permutation(list.drop_last());
        lemma_inserted_multiset(sorted_by_date(list.drop_last()), list.last());
        assert(list.drop_last().push(list.last()) =~= list);
    } else {
        assert(sorted_by_date(list) =~= list);
    }
}

/// Sorts `list` by time, the earliest record first. Records of one time stay
/// in the order in which they were given.
pub fn sort_by_date(list: Vec<CommitData>) -> (sorted: Vec<CommitData>)
    ensures
        records(sorted@) == sorted_by_date(records(list@)),
{
    let ghost given = list@;
    let mut sorted: Vec<CommitData> = Vec::new();
    proof {
        assert(records(given.take(0)) =~= Seq::empty());
        assert(records(sorted@) =~= Seq::empty());
    }
    for data in it: list
        invariant
            it.seq() == given,
            records(sorted@) == sorted_by_date(records(given.take(it.index() as int))),
    {
        let ghost before = records(sorted@);
        let ghost done = it.index() as int;
        let mut at: usize = sorted.len();
        while at > 0 && sorted[at - 1].date.0 > data.date.0
            invariant
                at <= sorted.len(),
                forall|k: int| at <= k < sorted.len() ==> (#[trigger] sorted[k]).date.0 > data.date.0,
            decreases at,
        {
            at -= 1;
        }
        proof {
            assert forall|k: int| at <= k < before.len() implies (#[trigger] before[k]).seconds
                > data@.seconds by {
                assert(before[k] == sorted[k]@);
            }
            if at > 0 {
                assert(before[at - 1] == sorted[at - 1]@);
            }
            lemma_inserted_at(before, data@, at as int);
            assert(records(sorted@.insert(at as int, data)) =~= before.insert(at as int, data@));
            assert(records(given.take(done + 1)).drop_last() =~= records(given.take(done)));
            assert(records(given.take(done + 1)).last() == data@);
        }
        sorted.insert(at, data);
    }
    assert(given.take(given.len() as int) =~= given);
    sorted
}

} // verus!
