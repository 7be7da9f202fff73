//! The integer side of a duration histogram: how many observations fell in
//! each bucket, and the cumulative counts a scrape reports per upper bound.

use vstd::prelude::*;

verus! {

/// The sum of `s`.
pub open spec fn sum_of(s: Seq<u64>) -> int
    decreases s.len(),
{
    if s.len() == 0 {
        0
    } else {
        sum_of(s.drop_last()) + s.last()
    }
}

proof fn lemma_sum_bump(s: Seq<u64>, b: int)
    requires
        0 <= b < s.len(),
        s[b] < u64::MAX,
    ensures
        sum_of(s.update(b, (s[b] + 1) as u64)) == sum_of(s) + 1,
    decreases s.len(),
{
    let t = s.update(b, (s[b] + 1) as u64);
    if b < s.len() - 1 {
        assert(t.drop_last() =~= s.drop_last().update(b, (s[b] + 1) as u64));
        lemma_sum_bump(s.drop_last(), b);
    } else {
        assert(t.drop_last() =~= s.drop_last());
    }
}

proof fn lemma_sum_prefix(s: Seq<u64>, i: int, j: int)
    requires
        0 <= i <= j <= s.len(),
    ensures
        sum_of(s.take(i)) <= sum_of(s.take(j)),
    decreases j - i,
{
    if i < j {
        lemma_sum_prefix(s, i, j - 1);
        assert(s.take(j).drop_last() =~= s.take(j - 1));
    }
}

/// Observations by bucket, and all observations (those above the last
/// upper bound included).
#[derive(Clone)]
pub struct Histogram {
    counts: Vec<u64>,
    total: u64,
}

impl Histogram {
    /// The bucket counts never exceed the number of observations.
    pub closed spec fn wf(&self) -> bool {
        sum_of(self.counts@) <= self.total
    }

    /// How many observations fell in each bucket.
    pub closed spec fn bucket_counts(&self) -> Seq<u64> {
        self.counts@
    }

    /// How many observations there were.
    pub closed spec fn count(&self) -> u64 {
        self.total
    }

    /// How many observations there were.
    pub fn total(&self) -> (n: u64)
        ensures
            n == self.count(),
    {
        self.total
    }

    /// How many buckets there are.
    pub fn buckets(&self) -> (n: usize)
        ensures
            n == self.bucket_counts().len(),
    {
        self.counts.len()
    }

    /// A histogram of `buckets` buckets with nothing observed.
    pub fn new(buckets: usize) -> (h: Histogram)
        ensures
            h.wf(),
            h.bucket_counts() == Seq::new(buckets as nat, |i: int| 0u64),
            h.count() == 0,
    {
        let mut counts: Vec<u64> = Vec::new();
        let mut i: usize = 0;
        while i < buckets
            invariant
                i <= buckets,
                counts@ == Seq::new(i as nat, |k: int| 0u64),
                sum_of(counts@) == 0,
            decreases buckets - i,
        {
            let ghost before = counts@;
            counts.push(0);
            proof {
                assert(counts@.drop_last() =~= before);
                assert(counts@ =~= Seq::new((i + 1) as nat, |k: int| 0u64));
            }
            i = i + 1;
        }
        Histogram { counts, total: 0 }
    }

    /// Record one observation, in bucket `bucket`, or above every upper bound
    /// when `None`.
    pub fn record(&mut self, bucket: Option<usize>)
        requires
            old(self).wf(),
            old(self).count() < u64::MAX,
            bucket matches Some(b) ==> b < old(self).bucket_counts().len(),
        ensures
            final(self).wf(),
            final(self).count() == old(self).count() + 1,
            final(self).bucket_counts() == match bucket {
                Some(b) => old(self).bucket_counts().update(b as int, (old(self).bucket_counts()[b as int] + 1) as u64),
                None => old(self).bucket_counts(),
            },
    {
        if let Some(b) = bucket {
            proof {
                lemma_sum_prefix(self.counts@, b as int, b + 1);
                lemma_sum_prefix(self.counts@, b + 1, self.counts@.len() as int);
                assert(self.counts@.take(b + 1).drop_last() =~= self.counts@.take(b as int));
                assert(self.counts@.take(self.counts@.len() as int) =~= self.counts@);
                lemma_sum_nonneg(self.counts@.take(b as int));
                lemma_sum_bump(self.counts@, b as int);
            }
            let c = self.counts[b];
            self.counts.set(b, c + 1);
        }
        self.total = self.total + 1;
    }

    /// The cumulative count for each upper bound: observations in that
    /// bucket or a lower one. They rise with the bound and never exceed the
    /// count, which is what the `+Inf` bound reports.
    pub fn cumulative(&self) -> (r: Vec<u64>)
        requires
            self.wf(),
        ensures
            r@.len() == self.bucket_counts().len(),
            forall|i: int| 0 <= i < r@.len() ==> r@[i] == sum_of(#[trigger] self.bucket_counts().take(i + 1)),
            forall|i: int, j: int| 0 <= i <= j < r@.len() ==> #[trigger] r@[i] <= #[trigger] r@[j],
            forall|i: int| 0 <= i < r@.len() ==> #[trigger] r@[i] <= self.count(),
    {
        let mut out: Vec<u64> = Vec::new();
        let mut cum: u64 = 0;
        let mut i: usize = 0;
        proof {
            assert(self.counts@.take(self.counts@.len() as int) =~= self.counts@);
        }
        while i < self.counts.len()
            invariant
                i <= self.counts@.len(),
                sum_of(self.counts@) <= self.total,
                self.counts@.take(self.counts@.len() as int) == self.counts@,
                cum == sum_of(self.counts@.take(i as int)),
                out@.len() == i,
                forall|k: int| 0 <= k < i ==> out@[k] == sum_of(#[trigger] self.counts@.take(k + 1)),
            decreases self.counts.len() - i,
        {
            proof {
                assert(self.counts@.take(i + 1).drop_last() =~= self.counts@.take(i as int));
                lemma_sum_prefix(self.counts@, i + 1, self.counts@.len() as int);
            }
            cum = cum + self.counts[i];
            out.push(cum);
            i = i + 1;
        }
        proof {
            assert forall|i: int, j: int| 0 <= i <= j < out@.len() implies #[trigger] out@[i] <= #[trigger] out@[j] by {
                lemma_sum_prefix(self.counts@, i + 1, j + 1);
            }
            assert forall|i: int| 0 <= i < out@.len() implies #[trigger] out@[i] <= self.total by {
                lemma_sum_prefix(self.counts@, i + 1, self.counts@.len() as int);
            }
        }
        out
    }
}

proof fn lemma_sum_nonneg(s: Seq<u64>)
    ensures
        sum_of(s) >= 0,
    decreases s.len(),
{
    if s.len() > 0 {
        lemma_sum_nonneg(s.drop_last());
    }
}

} // verus!
