use vstd::prelude::*;

use crate::summary::{ClassificationError, Observer};

verus! {

/// A half-open interval of keys together with the number of observations
/// that fell into it; an absent bound stands for an unbounded outer edge.
#[derive(Clone, Copy, Debug, PartialEq, Eq)]
pub struct Bucket {
    pub lower: Option<u64>,
    pub upper: Option<u64>,
    pub count: u64,
}

impl Bucket {
    pub fn lower(&self) -> (r: Option<u64>)
        ensures
            r == self.lower,
    {
        self.lower
    }

    pub fn upper(&self) -> (r: Option<u64>)
        ensures
            r == self.upper,
    {
        self.upper
    }

    pub fn count(&self) -> (r: u64)
        ensures
            r == self.count,
    {
        self.count
    }
}

/// The index, at or after position `i`, of the first boundary strictly
/// greater than `v`; the number of boundaries when there is none.
pub open spec fn bucket_index_from(bs: Seq<u64>, v: u64, i: int) -> int
    decreases bs.len() - i,
{
    if i < 0 || i >= bs.len() {
        bs.len() as int
    } else if v < bs[i] {
        i
    } else {
        bucket_index_from(bs, v, i + 1)
    }
}

/// The bucket that an observation with key `v` falls into, for boundary keys
/// `bs`: the index of the first boundary strictly greater than `v`, so a
/// value equal to a boundary belongs to the bucket above it, and a value no
/// boundary exceeds belongs to the last, unbounded bucket.
pub open spec fn bucket_index_of(bs: Seq<u64>, v: u64) -> int {
    bucket_index_from(bs, v, 0)
}

proof fn lemma_bucket_index_from_props(bs: Seq<u64>, v: u64, i: int)
    requires
        0 <= i <= bs.len(),
    ensures
        i <= bucket_index_from(bs, v, i) <= bs.len(),
        bucket_index_from(bs, v, i) < bs.len() ==> v < bs[bucket_index_from(bs, v, i)],
        forall|j: int| i <= j < bucket_index_from(bs, v, i) ==> !(v < bs[j]),
    decreases bs.len() - i,
{
    if i < bs.len() && !(v < bs[i]) {
        lemma_bucket_index_from_props(bs, v, i + 1);
    }
}

/// The bucket index is always in range, its boundary (when it has one) lies
/// strictly above the value, and no earlier boundary does.
pub proof fn lemma_bucket_index_props(bs: Seq<u64>, v: u64)
    ensures
        0 <= bucket_index_of(bs, v) <= bs.len(),
        bucket_index_of(bs, v) < bs.len() ==> v < bs[bucket_index_of(bs, v)],
        forall|j: int| 0 <= j < bucket_index_of(bs, v) ==> !(v < bs[j]),
{
    lemma_bucket_index_from_props(bs, v, 0);
}

proof fn lemma_bucket_index_from_determined(bs: Seq<u64>, v: u64, i: int, k: int)
    requires
        0 <= i <= k <= bs.len(),
        k < bs.len() ==> v < bs[k],
        forall|j: int| i <= j < k ==> !(v < bs[j]),
    ensures
        bucket_index_from(bs, v, i) == k,
    decreases bs.len() - i,
{
    if i < k {
        lemma_bucket_index_from_determined(bs, v, i + 1, k);
    }
}

/// A position whose boundary exceeds the value, while no earlier boundary
/// does, is exactly the bucket index.
pub proof fn lemma_bucket_index_determined(bs: Seq<u64>, v: u64, k: int)
    requires
        0 <= k <= bs.len(),
        k < bs.len() ==> v < bs[k],
        forall|j: int| 0 <= j < k ==> !(v < bs[j]),
    ensures
        bucket_index_of(bs, v) == k,
{
    lemma_bucket_index_from_determined(bs, v, 0, k);
}

/// Tie-break at a boundary: over strictly increasing boundary keys, a value
/// exactly equal to a boundary is classified into the bucket directly above
/// that boundary, never the one below it.
pub proof fn lemma_boundary_tie_break(bs: Seq<u64>, i: int)
    requires
        0 <= i < bs.len(),
        forall|p: int, q: int| 0 <= p < q < bs.len() ==> bs[p] < bs[q],
    ensures
        bucket_index_of(bs, bs[i]) == i + 1,
{
    let v = bs[i];
    assert forall|j: int| 0 <= j < i + 1 implies !(v < bs[j]) by {
        if j < i {
            assert(bs[j] < bs[i]);
        }
    }
    lemma_bucket_index_determined(bs, v, i + 1);
}

/// The total of a sequence of per-bucket tallies.
pub open spec fn seq_sum(s: Seq<u64>) -> nat
    decreases s.len(),
{
    if s.len() == 0 {
        0
    } else {
        seq_sum(s.drop_last()) + s.last() as nat
    }
}

proof fn lemma_seq_sum_zero(s: Seq<u64>)
    requires
        forall|i: int| 0 <= i < s.len() ==> s[i] == 0,
    ensures
        seq_sum(s) == 0,
    decreases s.len(),
{
    if s.len() > 0 {
        assert(forall|i: int| 0 <= i < s.drop_last().len() ==> s.drop_last()[i] == 0);
        lemma_seq_sum_zero(s.drop_last());
    }
}

proof fn lemma_seq_sum_element(s: Seq<u64>, i: int)
    requires
        0 <= i < s.len(),
    ensures
        s[i] <= seq_sum(s),
    decreases s.len(),
{
    if i < s.len() - 1 {
        lemma_seq_sum_element(s.drop_last(), i);
        assert(s.drop_last()[i] == s[i]);
    }
}

proof fn lemma_seq_sum_update(s: Seq<u64>, i: int, x: u64)
    requires
        0 <= i < s.len(),
    ensures
        seq_sum(s.update(i, x)) == seq_sum(s) - s[i] + x,
    decreases s.len(),
{
    let t = s.update(i, x);
    if i == s.len() - 1 {
        assert(t.drop_last() =~= s.drop_last());
    } else {
        assert(t.drop_last() =~= s.drop_last().update(i, x));
        lemma_seq_sum_update(s.drop_last(), i, x);
        assert(s.drop_last()[i] == s[i]);
        assert(t.last() == s.last());
    }
}

/// How many keys of the batch `vs` are classified into bucket `j` by the
/// boundary keys `bs`.
pub open spec fn count_in_bucket(bs: Seq<u64>, vs: Seq<u64>, j: int) -> nat
    decreases vs.len(),
{
    if vs.len() == 0 {
        0
    } else {
        count_in_bucket(bs, vs.drop_last(), j) + if bucket_index_of(bs, vs.last()) == j {
            1nat
        } else {
            0nat
        }
    }
}

/// The per-bucket tallies of a batch, summed over the buckets below `upto`.
pub open spec fn total_in_buckets(bs: Seq<u64>, vs: Seq<u64>, upto: int) -> nat
    decreases upto,
{
    if upto <= 0 {
        0
    } else {
        total_in_buckets(bs, vs, upto - 1) + count_in_bucket(bs, vs, upto - 1)
    }
}

proof fn lemma_total_in_buckets_empty(bs: Seq<u64>, vs: Seq<u64>, upto: int)
    requires
        vs.len() == 0,
    ensures
        total_in_buckets(bs, vs, upto) == 0,
    decreases upto,
{
    if upto > 0 {
        lemma_total_in_buckets_empty(bs, vs, upto - 1);
    }
}

proof fn lemma_total_in_buckets_drop(bs: Seq<u64>, vs: Seq<u64>, upto: int)
    requires
        vs.len() > 0,
    ensures
        total_in_buckets(bs, vs, upto) == total_in_buckets(bs, vs.drop_last(), upto) + (
        if 0 <= bucket_index_of(bs, vs.last()) < upto {
            1nat
        } else {
            0nat
        }),
    decreases upto,
{
    if upto > 0 {
        lemma_total_in_buckets_drop(bs, vs, upto - 1);
    }
}

/// Every observation lands in exactly one bucket: for any boundary keys and
/// any batch of values, the per-bucket tallies over all the buckets sum to
/// the length of the batch.
pub proof fn lemma_bucket_partition(bs: Seq<u64>, vs: Seq<u64>)
    ensures
        total_in_buckets(bs, vs, bs.len() + 1 as int) == vs.len(),
    decreases vs.len(),
{
    if vs.len() == 0 {
        lemma_total_in_buckets_empty(bs, vs, bs.len() + 1 as int);
    } else {
        lemma_bucket_partition(bs, vs.drop_last());
        lemma_total_in_buckets_drop(bs, vs, bs.len() + 1 as int);
        lemma_bucket_index_props(bs, vs.last());
    }
}

/// An ordered set of bucket boundaries, given as keys, with one tally for
/// each of the buckets they cut out: one below the first boundary, one
/// between each neighbouring pair, and one at or above the last boundary.
///
/// Boundaries are expected strictly increasing; the accumulator does not
/// validate that, it is the caller's responsibility.
#[derive(Debug)]
pub struct Histogram {
    boundaries: Vec<u64>,
    counts: Vec<u64>,
}

impl Histogram {
    /// The boundary keys, in the order they were given.
    pub closed spec fn boundary_keys(&self) -> Seq<u64> {
        self.boundaries@
    }

    /// The per-bucket tallies, parallel to the buckets in increasing order.
    pub closed spec fn bucket_counts(&self) -> Seq<u64> {
        self.counts@
    }

    /// A histogram over the given boundary keys with every tally at zero.
    pub fn with_boundaries(boundaries: Vec<u64>) -> (r: Histogram)
        requires
            boundaries@.len() < usize::MAX,
        ensures
            r.inv(),
            r.boundary_keys() == boundaries@,
            r.bucket_counts().len() == boundaries@.len() + 1,
            forall|i: int| 0 <= i < r.bucket_counts().len() ==> r.bucket_counts()[i] == 0,
            r.observed_count() == 0,
    {
        let n: usize = boundaries.len() + 1;
        let mut counts: Vec<u64> = Vec::new();
        while counts.len() < n
            invariant
                counts@.len() <= n,
                forall|i: int| 0 <= i < counts@.len() ==> counts@[i] == 0,
            decreases n - counts.len(),
        {
            counts.push(0);
        }
        proof {
            lemma_seq_sum_zero(counts@);
        }
        Histogram { counts, boundaries }
    }

    /// Read access to the tallies, for rendering and for tests.
    pub fn counts(&self) -> (r: &Vec<u64>)
        ensures
            r@ == self.bucket_counts(),
    {
        &self.counts
    }

    /// The bucket list: each tally together with its interval, the outer
    /// edges left unbounded.
    pub fn collect(&self) -> (r: Vec<Bucket>)
        requires
            self.inv(),
        ensures
            r@.len() == self.bucket_counts().len(),
            forall|i: int|
                0 <= i < r@.len() ==> {
                    &&& r@[i].count == self.bucket_counts()[i]
                    &&& r@[i].lower == (if i == 0 {
                        Option::<u64>::None
                    } else {
                        Option::Some(self.boundary_keys()[i - 1])
                    })
                    &&& r@[i].upper == (if i == self.boundary_keys().len() {
                        Option::<u64>::None
                    } else {
                        Option::Some(self.boundary_keys()[i])
                    })
                },
    {
        let mut r: Vec<Bucket> = Vec::new();
        let n: usize = self.counts.len();
        let mut i: usize = 0;
        while i < n
            invariant
                self.inv(),
                n == self.bucket_counts().len(),
                i <= n,
                r@.len() == i,
                forall|k: int| 0 <= k < i ==> r@[k].count == self.bucket_counts()[k],
                forall|k: int|
                    0 <= k < i ==> r@[k].lower == (if k == 0 {
                        Option::<u64>::None
                    } else {
                        Option::Some(self.boundary_keys()[k - 1])
                    }),
                forall|k: int|
                    0 <= k < i ==> r@[k].upper == (if k == self.boundary_keys().len() {
                        Option::<u64>::None
                    } else {
                        Option::Some(self.boundary_keys()[k])
                    }),
            decreases n - i,
        {
            let lower: Option<u64> = if i == 0 {
                None
            } else {
                Some(self.boundaries[i - 1])
            };
            let upper: Option<u64> = if i == self.boundaries.len() {
                None
            } else {
                Some(self.boundaries[i])
            };
            let ghost r0 = r@;
            let ghost i0 = i as int;
            r.push(Bucket { lower, upper, count: self.counts[i] });
            i = i + 1;
            proof {
                assert forall|k: int| 0 <= k < i implies {
                    &&& r@[k].count == self.bucket_counts()[k]
                    &&& r@[k].lower == (if k == 0 {
                        Option::<u64>::None
                    } else {
                        Option::Some(self.boundary_keys()[k - 1])
                    })
                    &&& r@[k].upper == (if k == self.boundary_keys().len() {
                        Option::<u64>::None
                    } else {
                        Option::Some(self.boundary_keys()[k])
                    })
                } by {
                    if k < i0 {
                        assert(r@[k] == r0[k]);
                    } else {
                        assert(r@[k] == (Bucket { lower, upper, count: self.counts@[k] }));
                    }
                }
            }
        }
        r
    }
}

impl Observer for Histogram {
    /// Well-formed: exactly one tally more than there are boundaries.
    open spec fn inv(&self) -> bool {
        self.bucket_counts().len() == self.boundary_keys().len() + 1
    }

    /// Everything this histogram has observed is in its tallies: the count
    /// of observations is by definition the sum of the bucket counts.
    open spec fn observed_count(&self) -> nat {
        seq_sum(self.bucket_counts())
    }

    /// Classifies one key into its bucket and advances that tally; under the
    /// well-formedness invariant this never fails, the index check before
    /// the increment is defensive only.
    fn observe(&mut self, value: u64) -> (r: Result<(), ClassificationError>)
        ensures
            r is Ok,
            final(self).boundary_keys() == old(self).boundary_keys(),
            final(self).bucket_counts().len() == old(self).bucket_counts().len(),
            ({
                let idx: int = bucket_index_of(old(self).boundary_keys(), value);
                &&& final(self).bucket_counts()[idx] == old(self).bucket_counts()[idx] + 1
                &&& forall|j: int|
                    0 <= j < old(self).bucket_counts().len() && j != idx
                        ==> final(self).bucket_counts()[j] == old(self).bucket_counts()[j]
            }),
    {
        let n: usize = self.boundaries.len();
        let mut idx: usize = 0;
        while idx < n
            invariant
                n == self.boundary_keys().len(),
                idx <= n,
                forall|j: int| 0 <= j < idx ==> !(value < self.boundary_keys()[j]),
            ensures
                n == self.boundary_keys().len(),
                idx <= n,
                forall|j: int| 0 <= j < idx ==> !(value < self.boundary_keys()[j]),
                idx < n ==> value < self.boundary_keys()[idx as int],
            decreases n - idx,
        {
            if value < self.boundaries[idx] {
                break ;
            }
            idx = idx + 1;
        }
        proof {
            lemma_bucket_index_determined(self.boundary_keys(), value, idx as int);
        }
        if idx < self.counts.len() {
            let c: u64 = self.counts[idx];
            proof {
                lemma_seq_sum_element(self.bucket_counts(), idx as int);
            }
            self.counts.set(idx, c + 1);
            proof {
                lemma_seq_sum_update(old(self).bucket_counts(), idx as int, (c + 1) as u64);
            }
            Ok(())
        } else {
            Err(ClassificationError { value })
        }
    }

    /// Classifies a whole batch, in order; under the invariant this never
    /// fails, and each tally grows by exactly the number of the batch's keys
    /// that belong to its bucket.
    fn observe_many(&mut self, values: &Vec<u64>) -> (r: Result<(), ClassificationError>)
        ensures
            r is Ok,
            final(self).boundary_keys() == old(self).boundary_keys(),
            final(self).bucket_counts().len() == old(self).bucket_counts().len(),
            final(self).observed_count() == old(self).observed_count() + values@.len(),
            forall|j: int|
                0 <= j < old(self).bucket_counts().len()
                    ==> final(self).bucket_counts()[j] == old(self).bucket_counts()[j]
                    + count_in_bucket(old(self).boundary_keys(), values@, j),
    {
        let ghost s0 = *self;
        let mut i: usize = 0;
        while i < values.len()
            invariant
                s0 == *old(self),
                self.inv(),
                i <= values@.len(),
                s0.observed_count() + values@.len() <= u64::MAX,
                self.boundary_keys() == s0.boundary_keys(),
                self.bucket_counts().len() == s0.bucket_counts().len(),
                self.observed_count() == s0.observed_count() + i,
                forall|j: int|
                    0 <= j < s0.bucket_counts().len() ==> self.bucket_counts()[j]
                        == s0.bucket_counts()[j] + count_in_bucket(
                        s0.boundary_keys(),
                        values@.take(i as int),
                        j,
                    ),
            decreases values@.len() - i,
        {
            let r = self.observe(values[i]);
            proof {
                assert(values@.take(i + 1 as int).drop_last() =~= values@.take(i as int));
                assert(values@.take(i + 1 as int).last() == values@[i as int]);
                let idx: int = bucket_index_of(s0.boundary_keys(), values@[i as int]);
                assert forall|j: int| 0 <= j < s0.bucket_counts().len() implies self
                    .bucket_counts()[j] == s0.bucket_counts()[j] + count_in_bucket(
                    s0.boundary_keys(),
                    values@.take(i + 1 as int),
                    j,
                ) by {
                    assert(count_in_bucket(s0.boundary_keys(), values@.take(i + 1 as int), j)
                        == count_in_bucket(s0.boundary_keys(), values@.take(i as int), j) + (
                    if idx == j {
                        1nat
                    } else {
                        0nat
                    }));
                }
            }
            if r.is_err() {
                return r;
            }
            i = i + 1;
        }
        proof {
            assert(values@.take(values@.len() as int) =~= values@);
        }
        Ok(())
    }
}

} // verus!
