use vstd::prelude::*;

verus! {

/// Number of buckets of a latency histogram.
pub const BUCKETS: usize = 9;

/// Operation latencies, counted by magnitude.
#[derive(Debug, Clone)]
pub struct LatencyHistogram {
    /// Number of samples.
    pub count: u64,
    /// Sum of all latencies in microseconds.
    pub sum_us: u64,
    /// Minimum latency in microseconds; zero without samples.
    pub min_us: u64,
    /// Maximum latency in microseconds; zero without samples.
    pub max_us: u64,
    /// Samples below each bound, and not below the one before.
    pub buckets: [u64; 9],
}

/// Upper bound of a bucket, in microseconds. The last bucket has none.
pub open spec fn bound(i: int) -> u64 {
    if i == 0 {
        100
    } else if i == 1 {
        250
    } else if i == 2 {
        500
    } else if i == 3 {
        1000
    } else if i == 4 {
        2500
    } else if i == 5 {
        5000
    } else if i == 6 {
        10000
    } else {
        u64::MAX
    }
}

/// The bucket of a latency: the first whose bound it stays below, or the last.
pub open spec fn is_bucket_of(latency_us: u64, i: int) -> bool {
    &&& 0 <= i < BUCKETS
    &&& forall|j: int| 0 <= j < i ==> latency_us >= #[trigger] bound(j)
    &&& i < BUCKETS - 1 ==> latency_us < bound(i)
}

/// The bucket of a latency.
pub fn bucket_of(latency_us: u64) -> (r: usize)
    ensures
        is_bucket_of(latency_us, r as int),
{
    if latency_us < 100 {
        0
    } else if latency_us < 250 {
        1
    } else if latency_us < 500 {
        2
    } else if latency_us < 1000 {
        3
    } else if latency_us < 2500 {
        4
    } else if latency_us < 5000 {
        5
    } else if latency_us < 10000 {
        6
    } else if latency_us < u64::MAX {
        7
    } else {
        8
    }
}

/// A latency belongs to one bucket only.
pub proof fn law_bucket_unique(latency_us: u64, i: int, j: int)
    requires
        is_bucket_of(latency_us, i),
        is_bucket_of(latency_us, j),
    ensures
        i == j,
{
    if i < j {
        assert(latency_us >= bound(i));
    } else if j < i {
        assert(latency_us >= bound(j));
    }
}

/// Samples in the first `n` buckets.
pub open spec fn total(buckets: Seq<u64>, n: nat) -> nat
    decreases n,
{
    if n == 0 {
        0
    } else {
        total(buckets, (n - 1) as nat) + buckets[n - 1] as nat
    }
}

/// What a histogram tells of its samples.
#[verifier::ext_equal]
pub struct HistogramView {
    pub count: nat,
    pub sum_us: nat,
    pub min_us: u64,
    pub max_us: u64,
    pub buckets: Seq<nat>,
}

impl HistogramView {
    /// No samples.
    pub open spec fn empty() -> Self {
        HistogramView {
            count: 0,
            sum_us: 0,
            min_us: 0,
            max_us: 0,
            buckets: Seq::new(BUCKETS as nat, |i: int| 0nat),
        }
    }

    /// With one more sample.
    pub open spec fn recorded(self, latency_us: u64) -> Self {
        HistogramView {
            count: self.count + 1,
            sum_us: self.sum_us + latency_us as nat,
            min_us: if self.count == 0 || latency_us < self.min_us {
                latency_us
            } else {
                self.min_us
            },
            max_us: if self.count == 0 || latency_us > self.max_us {
                latency_us
            } else {
                self.max_us
            },
            buckets: Seq::new(
                BUCKETS as nat,
                |i: int|
                    if is_bucket_of(latency_us, i) {
                        self.buckets[i] + 1
                    } else {
                        self.buckets[i]
                    },
            ),
        }
    }

    /// A new histogram after all samples were recorded, one after the other.
    pub open spec fn of(samples: Seq<u64>) -> Self {
        samples.fold_left(Self::empty(), |h: HistogramView, x: u64| h.recorded(x))
    }

    /// Samples in all buckets.
    pub open spec fn bucket_total(self) -> nat {
        count_sum(self.buckets)
    }
}

/// The sum of a list of counts.
pub open spec fn count_sum(s: Seq<nat>) -> nat
    decreases s.len(),
{
    if s.len() == 0 {
        0
    } else {
        count_sum(s.drop_last()) + s.last()
    }
}

/// The sum of latencies.
pub open spec fn latency_sum(samples: Seq<u64>) -> nat
    decreases samples.len(),
{
    if samples.len() == 0 {
        0
    } else {
        latency_sum(samples.drop_last()) + samples.last() as nat
    }
}

/// A latency has a bucket.
proof fn lemma_bucket_exists(latency_us: u64) -> (i: int)
    ensures
        is_bucket_of(latency_us, i),
{
    if latency_us < 100 {
        0
    } else if latency_us < 250 {
        1
    } else if latency_us < 500 {
        2
    } else if latency_us < 1000 {
        3
    } else if latency_us < 2500 {
        4
    } else if latency_us < 5000 {
        5
    } else if latency_us < 10000 {
        6
    } else if latency_us < u64::MAX {
        7
    } else {
        8
    }
}

/// One more in one place is one more in the sum.
proof fn lemma_count_sum(a: Seq<nat>, b: Seq<nat>, i: int)
    requires
        a.len() == b.len(),
        0 <= i < a.len(),
        forall|k: int|
            0 <= k < a.len() ==> #[trigger] b[k] == if k == i {
                a[k] + 1
            } else {
                a[k]
            },
    ensures
        count_sum(b) == count_sum(a) + 1,
    decreases a.len(),
{
    if i == a.len() - 1 {
        assert(a.drop_last() =~= b.drop_last());
        assert(b[i] == a[i] + 1);
    } else {
        assert(b[a.len() - 1] == a[a.len() - 1]);
        lemma_count_sum(a.drop_last(), b.drop_last(), i);
    }
}

/// No counts sum up to nothing.
proof fn lemma_zero_sum(s: Seq<nat>)
    requires
        forall|k: int| 0 <= k < s.len() ==> #[trigger] s[k] == 0,
    ensures
        count_sum(s) == 0,
    decreases s.len(),
{
    if s.len() > 0 {
        assert(s[s.len() - 1] == 0);
        lemma_zero_sum(s.drop_last());
    }
}

/// A histogram tells of its samples how many they are, their sum, the
/// smallest and the largest, and has each in one bucket.
pub proof fn law_histogram_sums_up(samples: Seq<u64>)
    ensures
        ({
            let h = HistogramView::of(samples);
            &&& h.count == samples.len()
            &&& h.sum_us == latency_sum(samples)
            &&& h.bucket_total() == samples.len()
            &&& h.buckets.len() == BUCKETS
            &&& samples.len() > 0 ==> samples.contains(h.min_us) && samples.contains(h.max_us)
            &&& forall|k: int|
                0 <= k < samples.len() ==> h.min_us <= #[trigger] samples[k] <= h.max_us
        }),
    decreases samples.len(),
{
    let h = HistogramView::of(samples);
    if samples.len() == 0 {
        lemma_zero_sum(HistogramView::empty().buckets);
    } else {
        let rest = samples.drop_last();
        let x = samples.last();
        law_histogram_sums_up(rest);
        let g = HistogramView::of(rest);
        assert(h == g.recorded(x));
        let i = lemma_bucket_exists(x);
        assert forall|k: int| 0 <= k < g.buckets.len() implies #[trigger] h.buckets[k] == if k == i {
            g.buckets[k] + 1
        } else {
            g.buckets[k]
        } by {
            if is_bucket_of(x, k) {
                law_bucket_unique(x, i, k);
            }
        }
        lemma_count_sum(g.buckets, h.buckets, i);
        assert(samples[samples.len() - 1] == x);
        assert forall|k: int| 0 <= k < samples.len() implies h.min_us <= #[trigger] samples[k]
            <= h.max_us by {
            if k < rest.len() {
                assert(rest[k] == samples[k]);
            }
        }
        if rest.len() > 0 {
            let a = choose|a: int| 0 <= a < rest.len() && rest[a] == g.min_us;
            let b = choose|b: int| 0 <= b < rest.len() && rest[b] == g.max_us;
            assert(samples[a] == g.min_us && samples[b] == g.max_us);
        }
    }
}

/// The order in which samples are recorded does not matter.
pub proof fn law_histogram_ignores_order(a: Seq<u64>, b: Seq<u64>)
    requires
        a.to_multiset() == b.to_multiset(),
    ensures
        HistogramView::of(a) == HistogramView::of(b),
{
    let f = |h: HistogramView, x: u64| h.recorded(x);
    assert(vstd::seq_lib::commutative_foldl(f)) by {
        assert forall|x: u64, y: u64, v: HistogramView| #[trigger] f(f(v, x), y) == f(f(v, y), x) by {
            assert(v.recorded(x).recorded(y) =~= v.recorded(y).recorded(x));
        }
    }
    vstd::seq_lib::lemma_fold_left_permutation(a, b, f, HistogramView::empty());
}

impl View for LatencyHistogram {
    type V = HistogramView;

    open spec fn view(&self) -> HistogramView {
        HistogramView {
            count: self.count as nat,
            sum_us: self.sum_us as nat,
            min_us: self.min_us,
            max_us: self.max_us,
            buckets: Seq::new(BUCKETS as nat, |i: int| self.buckets@[i] as nat),
        }
    }
}

impl LatencyHistogram {
    /// Every sample is in one bucket, and the smallest is not larger than the
    /// largest.
    pub open spec fn wf(&self) -> bool {
        &&& total(self.buckets@, BUCKETS as nat) == self.count
        &&& self.min_us <= self.max_us
    }

    /// One more sample in a bucket is one more sample.
    proof fn lemma_total_update(buckets: Seq<u64>, i: int, x: u64, n: nat)
        requires
            0 <= i < buckets.len(),
            n <= buckets.len(),
        ensures
            total(buckets.update(i, x), n) == if i < n {
                (total(buckets, n) + x - buckets[i]) as nat
            } else {
                total(buckets, n)
            },
            i < n ==> total(buckets, n) >= buckets[i],
        decreases n,
    {
        if n > 0 {
            Self::lemma_total_update(buckets, i, x, (n - 1) as nat);
        }
    }

    /// Record a latency.
    pub fn record(&mut self, latency_us: u64)
        requires
            old(self).wf(),
            old(self).count < u64::MAX,
            old(self).sum_us + latency_us <= u64::MAX,
        ensures
            final(self).wf(),
            final(self)@ == old(self)@.recorded(latency_us),
    {
        let first: bool = self.count == 0;
        self.count = self.count + 1;
        self.sum_us = self.sum_us + latency_us;
        if first || latency_us < self.min_us {
            self.min_us = latency_us;
        }
        if first || latency_us > self.max_us {
            self.max_us = latency_us;
        }
        let i: usize = bucket_of(latency_us);
        proof {
            Self::lemma_total_update(
                self.buckets@,
                i as int,
                (self.buckets@[i as int] + 1) as u64,
                BUCKETS as nat,
            );
        }
        self.buckets[i] = self.buckets[i] + 1;
        proof {
            let want = old(self)@.recorded(latency_us);
            assert forall|k: int| 0 <= k < BUCKETS implies self@.buckets[k] == want.buckets[k] by {
                if is_bucket_of(latency_us, k) {
                    law_bucket_unique(latency_us, i as int, k);
                }
            }
            assert(self@ =~= want);
        }
    }
}

impl Default for LatencyHistogram {
    /// No samples.
    fn default() -> (r: Self)
        ensures
            r.wf(),
            r@ == HistogramView::empty(),
    {
        let r = LatencyHistogram {
            count: 0,
            sum_us: 0,
            min_us: 0,
            max_us: 0,
            buckets: [0, 0, 0, 0, 0, 0, 0, 0, 0],
        };
        proof {
            reveal_with_fuel(total, 10);
            assert(r@ =~= HistogramView::empty());
        }
        r
    }
}

} // verus!
