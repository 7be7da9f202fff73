//! Moving embeddings between vector backends: which rows move, and in what
//! batches.
//!
//! A row moves only when its embedding has the dimension the destination
//! is built for; the others are skipped and counted. Rows move in order, in
//! batches of at most [`BATCH_SIZE`]; a dry run moves nothing.

use vstd::prelude::*;

verus! {

/// The embedding dimension the destination backend stores.
pub const EMBEDDING_DIM: usize = 384;

/// Number of rows per bulk-insert batch.
pub const BATCH_SIZE: usize = 1000;

/// Result of a migration run.
#[derive(Debug, Clone, Copy, PartialEq, Eq, Structural)]
pub struct MigrationReport {
    /// Total rows read from the source.
    pub total: usize,
    /// Rows migrated (for a dry run: rows that would be).
    pub migrated: usize,
    /// Rows skipped because their embedding has the wrong dimension.
    pub skipped: usize,
}

/// What a migration does with the rows it read.
#[derive(Debug, Clone, PartialEq, Eq)]
pub struct MigrationPlan {
    /// The counts to report once every batch is written.
    pub report: MigrationReport,
    /// Positions of the rows to move, in source order.
    pub keep: Vec<usize>,
    /// The batches to write, in order, as `[start, end)` ranges of `keep`.
    pub batches: Vec<(usize, usize)>,
}

/// Positions of the embeddings of `lens` that have the destination's
/// dimension, in order.
pub open spec fn kept_rows(lens: Seq<usize>) -> Seq<usize>
    decreases lens.len(),
{
    if lens.len() == 0 {
        Seq::empty()
    } else {
        let prev = kept_rows(lens.drop_last());
        if lens.last() == EMBEDDING_DIM {
            prev.push((lens.len() - 1) as usize)
        } else {
            prev
        }
    }
}

/// Consecutive ranges of at most [`BATCH_SIZE`] covering `[start, n)`.
pub open spec fn chunks(n: int, start: int) -> Seq<(usize, usize)>
    decreases n - start,
{
    if start >= n || start < 0 {
        Seq::empty()
    } else {
        let end = if n - start < BATCH_SIZE { n } else { start + BATCH_SIZE };
        seq![(start as usize, end as usize)] + chunks(n, end)
    }
}

proof fn lemma_kept_len(lens: Seq<usize>)
    ensures
        kept_rows(lens).len() <= lens.len(),
    decreases lens.len(),
{
    if lens.len() > 0 {
        lemma_kept_len(lens.drop_last());
    }
}

/// Plan the migration of rows whose embeddings have lengths `lens`: which
/// rows move, how many are skipped, and the batches a real run writes (none
/// for a dry run, or when nothing moves).
pub fn plan_migration(lens: &[usize], dry_run: bool) -> (p: MigrationPlan)
    ensures
        p.keep@ == kept_rows(lens@),
        p.report.total == lens@.len(),
        p.report.migrated == kept_rows(lens@).len(),
        p.report.skipped == lens@.len() - kept_rows(lens@).len(),
        dry_run ==> p.batches@.len() == 0,
        !dry_run ==> p.batches@ == chunks(kept_rows(lens@).len() as int, 0),
{
    let mut keep: Vec<usize> = Vec::new();
    let mut i: usize = 0;
    while i < lens.len()
        invariant
            i <= lens@.len(),
            keep@ == kept_rows(lens@.take(i as int)),
        decreases lens.len() - i,
    {
        proof {
            assert(lens@.take(i + 1).drop_last() =~= lens@.take(i as int));
        }
        if lens[i] == EMBEDDING_DIM {
            keep.push(i);
        }
        i = i + 1;
    }
    proof {
        assert(lens@.take(lens@.len() as int) =~= lens@);
        lemma_kept_len(lens@);
    }
    let n = keep.len();
    let report = MigrationReport { total: lens.len(), migrated: n, skipped: lens.len() - n };
    let mut batches: Vec<(usize, usize)> = Vec::new();
    if !dry_run {
        let mut start: usize = 0;
        while start < n
            invariant
                start <= n,
                batches@ + chunks(n as int, start as int) == chunks(n as int, 0),
            decreases n - start,
        {
            let end = if n - start < BATCH_SIZE { n } else { start + BATCH_SIZE };
            proof {
                assert(chunks(n as int, start as int) == seq![(start, end)] + chunks(n as int, end as int));
                assert(batches@.push((start, end)) + chunks(n as int, end as int) =~= batches@ + chunks(
                    n as int,
                    start as int,
                ));
            }
            batches.push((start, end));
            start = end;
        }
        proof {
            assert(chunks(n as int, start as int) =~= Seq::<(usize, usize)>::empty());
            assert(batches@ + Seq::<(usize, usize)>::empty() =~= batches@);
        }
    }
    MigrationPlan { report, keep, batches }
}

/// Every row is either moved or skipped, and every moved row is written by
/// exactly one batch: the batches cover `[0, n)` in order, each holding at
/// most [`BATCH_SIZE`] rows.
pub proof fn law_batches_partition_the_rows(n: int, start: int)
    requires
        0 <= start <= n,
        n <= usize::MAX,
    ensures
        forall|k: int| 0 <= k < chunks(n, start).len() ==> {
            let (a, b) = #[trigger] chunks(n, start)[k];
            &&& start <= a < b <= n
            &&& b - a <= BATCH_SIZE
            &&& (k == 0 ==> a == start)
            &&& (k + 1 < chunks(n, start).len() ==> chunks(n, start)[k + 1].0 == b)
            &&& (k + 1 == chunks(n, start).len() ==> b == n)
        },
    decreases n - start,
{
    if start < n {
        let end = if n - start < BATCH_SIZE { n } else { start + BATCH_SIZE };
        law_batches_partition_the_rows(n, end);
        let rest = chunks(n, end);
        assert forall|k: int| 0 <= k < chunks(n, start).len() implies {
            let (a, b) = #[trigger] chunks(n, start)[k];
            &&& start <= a < b <= n
            &&& b - a <= BATCH_SIZE
            &&& (k == 0 ==> a == start)
            &&& (k + 1 < chunks(n, start).len() ==> chunks(n, start)[k + 1].0 == b)
            &&& (k + 1 == chunks(n, start).len() ==> b == n)
        } by {
            if k > 0 {
                assert(chunks(n, start)[k] == rest[k - 1]);
                if k + 1 < chunks(n, start).len() {
                    assert(chunks(n, start)[k + 1] == rest[k]);
                }
            } else {
                if rest.len() > 0 {
                    assert(chunks(n, start)[1] == rest[0]);
                } else {
                    if end < n {
                        assert(rest.len() > 0);
                    }
                }
            }
        }
    }
}

/// Law: exactly the rows whose embeddings have the destination's dimension
/// move, each once and in source order: every moved position names a row of
/// that dimension, and every row of that dimension is moved.
pub proof fn law_exactly_the_right_dimension_moves(lens: Seq<usize>)
    requires
        lens.len() <= usize::MAX,
    ensures
        forall|k: int|
            0 <= k < kept_rows(lens).len() ==> #[trigger] kept_rows(lens)[k] < lens.len() && lens[kept_rows(lens)[k] as int]
                == EMBEDDING_DIM,
        forall|i: int| 0 <= i < lens.len() && #[trigger] lens[i] == EMBEDDING_DIM ==> kept_rows(lens).contains(i as usize),
        forall|j: int, k: int| 0 <= j < k < kept_rows(lens).len() ==> #[trigger] kept_rows(lens)[j] < #[trigger] kept_rows(lens)[k],
    decreases lens.len(),
{
    if lens.len() > 0 {
        let pre = lens.drop_last();
        law_exactly_the_right_dimension_moves(pre);
        let kp = kept_rows(pre);
        let n = lens.len() - 1;
        assert((n as usize) as int == n);
        if EMBEDDING_DIM == lens.last() {
            let kl = kp.push(n as usize);
            assert(kept_rows(lens) == kl);
            assert forall|k: int| 0 <= k < kl.len() implies #[trigger] kl[k] < lens.len() && lens[kl[k] as int]
                == EMBEDDING_DIM by {
                if k < kp.len() {
                    assert(kl[k] == kp[k]);
                    assert(lens[kp[k] as int] == pre[kp[k] as int]);
                }
            }
            assert forall|i: int| 0 <= i < lens.len() && #[trigger] lens[i] == EMBEDDING_DIM implies kl.contains(i as usize) by {
                if i < n {
                    assert(pre[i] == lens[i]);
                    let m = choose|m: int| 0 <= m < kp.len() && kp[m] == i as usize;
                    assert(kl[m] == kp[m]);
                } else {
                    assert(kl[kp.len() as int] == n as usize);
                }
            }
            assert forall|j: int, k: int| 0 <= j < k < kl.len() implies #[trigger] kl[j] < #[trigger] kl[k] by {
                if k < kp.len() {
                    assert(kl[j] == kp[j] && kl[k] == kp[k]);
                } else {
                    assert(kl[j] == kp[j]);
                }
            }
        } else {
            assert(kept_rows(lens) == kp);
            assert forall|k: int| 0 <= k < kp.len() implies #[trigger] kp[k] < lens.len() && lens[kp[k] as int]
                == EMBEDDING_DIM by {
                assert(lens[kp[k] as int] == pre[kp[k] as int]);
            }
            assert forall|i: int| 0 <= i < lens.len() && #[trigger] lens[i] == EMBEDDING_DIM implies kp.contains(i as usize) by {
                assert(i < n);
                assert(pre[i] == lens[i]);
            }
        }
    }
}

} // verus!
