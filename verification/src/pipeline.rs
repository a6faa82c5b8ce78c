//! The analysis of a whole history: the commits are cut into chunks, one for
//! each worker, the records of the chunks are put together again in the order
//! of the chunks, and sorted by time.

use crate::analysis::Analyser;
use crate::commits::CommitError;
use crate::commits::CommitSendSync;
use crate::serialization::records;
use crate::serialization::CommitData;
use crate::serialization::CommitRecord;
use crate::sorting::sort_by_date;
use crate::sorting::sorted_by_date;
use vstd::prelude::*;
use vstd::slice::slice_subrange;

verus! {

/// The number of workers: as many as there are processing units, or fewer
/// where fewer are asked for.
pub fn worker_count(threads: Option<usize>, cores: usize) -> (workers: usize)
    ensures
        workers == match threads {
            Some(asked) => if asked < cores {
                asked
            } else {
                cores
            },
            None => cores,
        },
{
    match threads {
        Some(asked) => if asked < cores {
            asked
        } else {
            cores
        },
        None => cores,
    }
}

/// The size of the chunks into which `count` commits are cut for `workers`
/// workers: `count` divided by `workers`, rounded up. Without a worker all
/// commits make one chunk.
pub open spec fn chunk_size_of(count: nat, workers: nat) -> nat {
    if workers == 0 {
        count
    } else if count % workers == 0 {
        count / workers
    } else {
        count / workers + 1
    }
}

/// The chunk size is the least size with which `workers` chunks hold all
/// `count` commits.
pub proof fn lemma_chunk_size_rounds_up(count: nat, workers: nat)
    requires
        workers > 0,
    ensures
        chunk_size_of(count, workers) * workers >= count,
        count > 0 ==> (chunk_size_of(count, workers) - 1) * workers < count,
        count > 0 ==> chunk_size_of(count, workers) > 0,
{
    let q = count / workers;
    let r = count % workers;
    assert(count == q * workers + r) by (nonlinear_arith)
        requires
            q == count / workers,
            r == count % workers,
            workers > 0,
    ;
    assert((q + 1) * workers == q * workers + workers) by (nonlinear_arith);
    assert((q - 1) * workers == q * workers - workers) by (nonlinear_arith);
    if count > 0 && r == 0 {
        assert(q > 0) by (nonlinear_arith)
            requires
                count == q * workers + r,
                r == 0,
                count > 0,
        ;
    }
}

/// The size of the chunks into which `count` commits are cut for `workers`
/// workers.
pub fn chunk_size(count: usize, workers: usize) -> (size: usize)
    ensures
        size == chunk_size_of(count as nat, workers as nat),
{
    if workers == 0 {
        count
    } else if count % workers == 0 {
        count / workers
    } else {
        assert(count / workers < count) by (nonlinear_arith)
            requires
                count % workers != 0,
                workers > 0,
        ;
        count / workers + 1
    }
}

/// Whether `ranges` cuts `count` commits into chunks of `size`: the chunks
/// follow one another from the first commit to the last, each but the last
/// holds `size` commits, the last holds what is left, and none is empty.
pub open spec fn is_partition(ranges: Seq<(usize, usize)>, count: nat, size: nat) -> bool {
    &&& count == 0 ==> ranges.len() == 0
    &&& count > 0 ==> ranges.len() > 0 && ranges[0].0 == 0 && ranges.last().1 == count
    &&& forall|k: int|
        0 <= k < ranges.len() ==> (#[trigger] ranges[k]).0 < ranges[k].1 <= count && ranges[k].1
            - ranges[k].0 <= size
    &&& forall|k: int|
        0 <= k < ranges.len() - 1 ==> (#[trigger] ranges[k]).1 == ranges[k + 1].0 && ranges[k].1
            - ranges[k].0 == size
}

/// Cuts `count` commits into chunks for `workers` workers: the bounds of each
/// chunk, the first commit in it and the first after it. There are no more
/// chunks than workers.
pub fn partition(count: usize, workers: usize) -> (ranges: Vec<(usize, usize)>)
    ensures
        is_partition(ranges@, count as nat, chunk_size_of(count as nat, workers as nat)),
        workers > 0 ==> ranges.len() <= workers,
{
    let size = chunk_size(count, workers);
    let mut ranges: Vec<(usize, usize)> = Vec::new();
    let mut start: usize = 0;
    proof {
        if workers > 0 {
            lemma_chunk_size_rounds_up(count as nat, workers as nat);
        }
        assert(0 * size == 0) by (nonlinear_arith);
    }
    while start < count
        invariant
            start <= count,
            size == chunk_size_of(count as nat, workers as nat),
            count > 0 ==> size > 0,
            workers > 0 ==> size * workers >= count,
            start == ranges.len() * size,
            ranges.len() > 0 ==> ranges[0].0 == 0 && ranges@.last().1 == start,
            ranges.len() == 0 ==> start == 0,
            ranges.len() > 0 ==> start < count,
            forall|k: int|
                0 <= k < ranges.len() ==> (#[trigger] ranges[k]).0 < ranges[k].1 <= count
                    && ranges[k].1 - ranges[k].0 == size,
            forall|k: int| 0 <= k < ranges.len() - 1 ==> (#[trigger] ranges[k]).1 == ranges[k + 1].0,
        decreases count - start,
    {
        let ghost chunks = ranges.len();
        if count - start <= size {
            proof {
                if workers > 0 {
                    assert(chunks < workers) by (nonlinear_arith)
                        requires
                            chunks * size == start,
                            start < count,
                            size * workers >= count,
                    ;
                }
            }
            ranges.push((start, count));
            return ranges;
        }
        ranges.push((start, start + size));
        proof {
            assert((chunks + 1) * size == chunks * size + size) by (nonlinear_arith);
        }
        start = start + size;
    }
    ranges
}

/// The records of `commits`, in their order: one for each commit that has
/// one.
pub open spec fn records_of(analyser: &Analyser, commits: Seq<CommitSendSync>) -> Seq<
    CommitRecord,
>
    decreases commits.len(),
{
    if commits.len() == 0 {
        Seq::empty()
    } else {
        let before = records_of(analyser, commits.drop_last());
        match analyser.record_of(&commits.last()) {
            Some(record) => before.push(record),
            None => before,
        }
    }
}

/// Whether each of `commits` can be analysed.
pub open spec fn all_analysable(analyser: &Analyser, commits: Seq<CommitSendSync>) -> bool {
    forall|i: int| 0 <= i < commits.len() ==> analyser.analysable(&#[trigger] commits[i])
}

/// The records of `commits` cut into chunks of `size`: the records of the
/// first chunk, then those of the second, and so on.
pub open spec fn chunked_records(analyser: &Analyser, commits: Seq<CommitSendSync>, size: nat) -> Seq<
    CommitRecord,
>
    decreases commits.len(),
{
    if commits.len() <= size || size == 0 {
        records_of(analyser, commits)
    } else {
        records_of(analyser, commits.take(size as int)) + chunked_records(
            analyser,
            commits.skip(size as int),
            size,
        )
    }
}

/// What the analysis of `commits` by `workers` workers yields: the records of
/// the chunks, put together in the order of the chunks and sorted by time.
pub open spec fn pipeline_records(
    analyser: &Analyser,
    commits: Seq<CommitSendSync>,
    workers: nat,
) -> Seq<CommitRecord> {
    sorted_by_date(chunked_records(analyser, commits, chunk_size_of(commits.len(), workers)))
}

/// The records of two runs of commits, one behind the other, are the records
/// of the first and then those of the second.
pub proof fn lemma_records_of_join(
    analyser: &Analyser,
    first: Seq<CommitSendSync>,
    second: Seq<CommitSendSync>,
)
    ensures
        records_of(analyser, first + second) == records_of(analyser, first) + records_of(
            analyser,
            second,
        ),
    decreases second.len(),
{
    if second.len() == 0 {
        assert(first + second =~= first);
        assert(records_of(analyser, first) + records_of(analyser, second) =~= records_of(
            analyser,
            first,
        ));
    } else {
        lemma_records_of_join(analyser, first, second.drop_last());
        assert((first + second).drop_last() =~= first + second.drop_last());
        assert((first + second).last() == second.last());
        let before = records_of(analyser, first) + records_of(analyser, second.drop_last());
        match analyser.record_of(&second.last()) {
            Some(record) => {
                assert(before.push(record) =~= records_of(analyser, first) + records_of(
                    analyser,
                    second.drop_last(),
                ).push(record));
            },
            None => {},
        }
    }
}

/// Cutting the commits into chunks does not show in the records: whatever
/// the size of the chunks, they are the records of the commits in their
/// order.
pub proof fn lemma_chunks_do_not_show(analyser: &Analyser, commits: Seq<CommitSendSync>, size: nat)
    ensures
        chunked_records(analyser, commits, size) == records_of(analyser, commits),
    decreases commits.len(),
{
    if !(commits.len() <= size || size == 0) {
        lemma_chunks_do_not_show(analyser, commits.skip(size as int), size);
        lemma_records_of_join(analyser, commits.take(size as int), commits.skip(size as int));
        assert(commits.take(size as int) + commits.skip(size as int) =~= commits);
    }
}

/// The number of workers does not show in what the analysis yields: with one
/// worker or with many, the same records come out in the same order.
pub proof fn law_workers_do_not_show(
    analyser: &Analyser,
    commits: Seq<CommitSendSync>,
    workers: nat,
    others: nat,
)
    ensures
        pipeline_records(analyser, commits, workers) == pipeline_records(
            analyser,
            commits,
            others,
        ),
        pipeline_records(analyser, commits, workers) == sorted_by_date(
            records_of(analyser, commits),
        ),
{
    lemma_chunks_do_not_show(analyser, commits, chunk_size_of(commits.len(), workers));
    lemma_chunks_do_not_show(analyser, commits, chunk_size_of(commits.len(), others));
}

/// A commit of a chunk that cannot be analysed.
#[derive(Debug, Clone, Copy, PartialEq, Eq, Structural)]
pub struct ChunkError {
    /// The position of the commit.
    pub commit: usize,
    /// Why it cannot be analysed.
    pub error: CommitError,
}

/// Analyses the commits of one chunk in their order and collects their
/// records. It stops at the first commit that cannot be analysed.
pub fn process_chunk(analyser: &Analyser, commits: &[CommitSendSync]) -> (result: Result<
    Vec<CommitData>,
    ChunkError,
>)
    ensures
        match result {
            Ok(found) => {
                &&& all_analysable(analyser, commits@)
                &&& records(found@) == records_of(analyser, commits@)
            },
            Err(failure) => {
                &&& failure.commit < commits.len()
                &&& all_analysable(analyser, commits@.take(failure.commit as int))
                &&& analyser.fails_with(&commits[failure.commit as int], failure.error)
            },
        },
{
    let mut found: Vec<CommitData> = Vec::new();
    let mut i: usize = 0;
    proof {
        assert(commits@.take(0) =~= Seq::empty());
        assert(records(found@) =~= Seq::empty());
    }
    while i < commits.len()
        invariant
            i <= commits.len(),
            all_analysable(analyser, commits@.take(i as int)),
            records(found@) == records_of(analyser, commits@.take(i as int)),
        decreases commits.len() - i,
    {
        proof {
            assert(commits@.take(i + 1).drop_last() =~= commits@.take(i as int));
            assert(commits@.take(i + 1).last() == commits[i as int]);
        }
        match analyser.process_commit(&commits[i]) {
            Err(error) => {
                return Err(ChunkError { commit: i, error });
            },
            Ok(Some(data)) => {
                assert(records(found@.push(data)) =~= records(found@).push(data@));
                found.push(data);
            },
            Ok(None) => {},
        }
        proof {
            let upto = commits@.take(i + 1);
            assert forall|j: int| 0 <= j < upto.len() implies analyser.analysable(
                &#[trigger] upto[j],
            ) by {
                if j < i {
                    assert(upto[j] == commits@.take(i as int)[j]);
                }
            }
        }
        i += 1;
    }
    assert(commits@.take(i as int) =~= commits@);
    Ok(found)
}

/// The records of all chunks, one chunk behind the other.
pub open spec fn merged(chunks: Seq<Vec<CommitData>>) -> Seq<CommitRecord>
    decreases chunks.len(),
{
    if chunks.len() == 0 {
        Seq::empty()
    } else {
        merged(chunks.drop_last()) + records(chunks.last()@)
    }
}

/// Puts the records of the chunks together, in the order of the chunks.
pub fn merge_chunks(chunks: Vec<Vec<CommitData>>) -> (all: Vec<CommitData>)
    ensures
        records(all@) == merged(chunks@),
{
    let ghost given = chunks@;
    let mut all: Vec<CommitData> = Vec::new();
    proof {
        assert(given.take(0) =~= Seq::empty());
        assert(records(all@) =~= Seq::empty());
    }
    for chunk in it: chunks
        invariant
            it.seq() == given,
            records(all@) == merged(given.take(it.index() as int)),
    {
        let ghost done = it.index() as int;
        let ghost before = all@;
        let mut chunk = chunk;
        proof {
            assert(given.take(done + 1).drop_last() =~= given.take(done));
            assert(given.take(done + 1).last() == chunk);
            assert(records(before + chunk@) =~= records(before) + records(chunk@));
        }
        all.append(&mut chunk);
    }
    assert(given.take(given.len() as int) =~= given);
    all
}

/// Analyses `commits` as `workers` workers would: cut into chunks, each
/// chunk analysed in its order, the records of the chunks put together in
/// the order of the chunks, and sorted by time. It stops at the first commit
/// that cannot be analysed.
pub fn run(analyser: &Analyser, commits: &[CommitSendSync], workers: usize) -> (result: Result<
    Vec<CommitData>,
    ChunkError,
>)
    ensures
        match result {
            Ok(sorted) => {
                &&& all_analysable(analyser, commits@)
                &&& records(sorted@) == pipeline_records(analyser, commits@, workers as nat)
            },
            Err(failure) => {
                &&& failure.commit < commits.len()
                &&& all_analysable(analyser, commits@.take(failure.commit as int))
                &&& analyser.fails_with(&commits[failure.commit as int], failure.error)
            },
        },
{
    let ranges = partition(commits.len(), workers);
    let ghost size = chunk_size_of(commits.len() as nat, workers as nat);
    let mut all: Vec<CommitData> = Vec::new();
    let mut k: usize = 0;
    proof {
        assert(commits@.take(0) =~= Seq::empty());
        assert(records(all@) =~= Seq::empty());
    }
    while k < ranges.len()
        invariant
            k <= ranges.len(),
            is_partition(ranges@, commits.len() as nat, size),
            k < ranges.len() ==> all_analysable(analyser, commits@.take(ranges[k as int].0 as int))
                && records(all@) == records_of(analyser, commits@.take(ranges[k as int].0 as int)),
            k == ranges.len() ==> all_analysable(analyser, commits@) && records(all@)
                == records_of(analyser, commits@),
        decreases ranges.len() - k,
    {
        let (start, end) = ranges[k];
        assert(ranges[k as int].0 < ranges[k as int].1 <= commits.len());
        let chunk = slice_subrange(commits, start, end);
        let ghost before = commits@.take(start as int);
        proof {
            assert(before + chunk@ =~= commits@.take(end as int));
            lemma_records_of_join(analyser, before, chunk@);
        }
        match process_chunk(analyser, chunk) {
            Err(failure) => {
                proof {
                    let at = start + failure.commit;
                    let upto = commits@.take(at);
                    assert(chunk@[failure.commit as int] == commits[at]);
                    assert forall|j: int| 0 <= j < upto.len() implies analyser.analysable(
                        &#[trigger] upto[j],
                    ) by {
                        if j < start {
                            assert(upto[j] == before[j]);
                        } else {
                            assert(upto[j] == chunk@.take(failure.commit as int)[j - start]);
                        }
                    }
                }
                return Err(ChunkError { commit: start + failure.commit, error: failure.error });
            },
            Ok(found) => {
                let mut found = found;
                proof {
                    assert(records(all@ + found@) =~= records(all@) + records(found@));
                    let upto = commits@.take(end as int);
                    assert forall|j: int| 0 <= j < upto.len() implies analyser.analysable(
                        &#[trigger] upto[j],
                    ) by {
                        if j < start {
                            assert(upto[j] == before[j]);
                        } else {
                            assert(upto[j] == chunk@[j - start]);
                        }
                    }
                }
                all.append(&mut found);
            },
        }
        proof {
            if k + 1 == ranges.len() {
                assert(ranges@.last() == ranges[k as int]);
                assert(commits@.take(end as int) =~= commits@);
            } else {
                assert(ranges[k as int].1 == ranges[k + 1].0);
            }
        }
        k += 1;
    }
    proof {
        if ranges.len() == 0 {
            assert(commits@.take(0) =~= commits@);
        }
        lemma_chunks_do_not_show(analyser, commits@, size);
    }
    Ok(sort_by_date(all))
}

} // verus!
