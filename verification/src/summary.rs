use vstd::prelude::*;

verus! {

/// Error carried when an observed value could not be placed by an
/// accumulator; it holds the key of the offending observation.
#[derive(Clone, Copy, Debug, PartialEq, Eq, Structural)]
pub struct ClassificationError {
    pub value: u64,
}

/// One step of a running minimum over keys.
pub open spec fn step_min(m: Option<u64>, v: u64) -> Option<u64> {
    match m {
        Option::None => Option::Some(v),
        Option::Some(x) => if v < x {
            Option::Some(v)
        } else {
            Option::Some(x)
        },
    }
}

/// One step of a running maximum over keys.
pub open spec fn step_max(m: Option<u64>, v: u64) -> Option<u64> {
    match m {
        Option::None => Option::Some(v),
        Option::Some(x) => if v > x {
            Option::Some(v)
        } else {
            Option::Some(x)
        },
    }
}

/// Running minimum folded over a whole sequence of keys.
pub open spec fn fold_min(m: Option<u64>, vs: Seq<u64>) -> Option<u64>
    decreases vs.len(),
{
    if vs.len() == 0 {
        m
    } else {
        step_min(fold_min(m, vs.drop_last()), vs.last())
    }
}

/// Running maximum folded over a whole sequence of keys.
pub open spec fn fold_max(m: Option<u64>, vs: Seq<u64>) -> Option<u64>
    decreases vs.len(),
{
    if vs.len() == 0 {
        m
    } else {
        step_max(fold_max(m, vs.drop_last()), vs.last())
    }
}

/// The capability shared by every accumulator: observe one value, or a whole
/// batch in order, stopping at the first failure and propagating it.
pub trait Observer: Sized {
    /// The accumulator's internal consistency condition; constructors
    /// establish it and both operations preserve it.
    spec fn inv(&self) -> bool;

    /// How many observations the accumulator has absorbed so far.
    spec fn observed_count(&self) -> nat;

    fn observe(&mut self, value: u64) -> (r: Result<(), ClassificationError>)
        requires
            old(self).inv(),
            old(self).observed_count() < u64::MAX,
        ensures
            final(self).inv(),
            r is Ok ==> final(self).observed_count() == old(self).observed_count() + 1,
            r is Err ==> final(self).observed_count() == old(self).observed_count(),
    ;

    fn observe_many(&mut self, values: &Vec<u64>) -> (r: Result<(), ClassificationError>)
        requires
            old(self).inv(),
            old(self).observed_count() + values@.len() <= u64::MAX,
        ensures
            final(self).inv(),
            old(self).observed_count() <= final(self).observed_count(),
            final(self).observed_count() <= old(self).observed_count() + values@.len(),
        default_ensures
            r is Ok ==> final(self).observed_count() == old(self).observed_count()
                + values@.len(),
    {
        let ghost s0 = *self;
        let mut i: usize = 0;
        while i < values.len()
            invariant
                s0 == *old(self),
                self.inv(),
                i <= values@.len(),
                s0.observed_count() + values@.len() <= u64::MAX,
                self.observed_count() == s0.observed_count() + i,
            decreases values@.len() - i,
        {
            let r = self.observe(values[i]);
            if r.is_err() {
                return r;
            }
            i = i + 1;
        }
        Ok(())
    }
}

/// Running extrema and count of a stream of observations, updated in
/// constant time per value; the minimum and maximum are absent until the
/// first observation arrives.
#[derive(Debug)]
pub struct DistributionSummary {
    count: u64,
    min: Option<u64>,
    max: Option<u64>,
}

impl DistributionSummary {
    /// The smallest key observed so far, if any.
    pub closed spec fn min_key(&self) -> Option<u64> {
        self.min
    }

    /// The largest key observed so far, if any.
    pub closed spec fn max_key(&self) -> Option<u64> {
        self.max
    }

    pub fn min(&self) -> (r: Option<u64>)
        ensures
            r == self.min_key(),
    {
        self.min
    }

    pub fn max(&self) -> (r: Option<u64>)
        ensures
            r == self.max_key(),
    {
        self.max
    }

    pub fn count(&self) -> (r: u64)
        ensures
            r as nat == self.observed_count(),
    {
        self.count
    }
}

impl Default for DistributionSummary {
    /// An empty summary: nothing observed, both extrema absent.
    fn default() -> (r: Self)
        ensures
            r.inv(),
            r.observed_count() == 0,
            r.min_key() is None,
            r.max_key() is None,
    {
        DistributionSummary { count: 0, min: None, max: None }
    }
}

impl Observer for DistributionSummary {
    closed spec fn inv(&self) -> bool {
        &&& (self.count == 0 <==> self.min is None)
        &&& (self.count == 0 <==> self.max is None)
        &&& (self.min is Some ==> self.min->0 <= self.max->0)
    }

    closed spec fn observed_count(&self) -> nat {
        self.count as nat
    }

    /// Folds one value into the extrema and advances the count; never fails.
    fn observe(&mut self, value: u64) -> (r: Result<(), ClassificationError>)
        ensures
            r is Ok,
            final(self).min_key() == step_min(old(self).min_key(), value),
            final(self).max_key() == step_max(old(self).max_key(), value),
    {
        self.count = self.count + 1;
        self.min = match self.min {
            None => Some(value),
            Some(m) => if value < m {
                Some(value)
            } else {
                Some(m)
            },
        };
        self.max = match self.max {
            None => Some(value),
            Some(m) => if value > m {
                Some(value)
            } else {
                Some(m)
            },
        };
        Ok(())
    }

    /// Folds a whole batch into the extrema, in order; never fails, and the
    /// count grows by exactly the batch length.
    fn observe_many(&mut self, values: &Vec<u64>) -> (r: Result<(), ClassificationError>)
        ensures
            r is Ok,
            final(self).observed_count() == old(self).observed_count() + values@.len(),
            final(self).min_key() == fold_min(old(self).min_key(), values@),
            final(self).max_key() == fold_max(old(self).max_key(), values@),
    {
        let ghost s0 = *self;
        let mut i: usize = 0;
        while i < values.len()
            invariant
                self.inv(),
                i <= values@.len(),
                s0.observed_count() + values@.len() <= u64::MAX,
                self.observed_count() == s0.observed_count() + i,
                self.min_key() == fold_min(s0.min_key(), values@.take(i as int)),
                self.max_key() == fold_max(s0.max_key(), values@.take(i as int)),
            decreases values@.len() - i,
        {
            let r = self.observe(values[i]);
            proof {
                assert(values@.take(i + 1 as int).drop_last() =~= values@.take(i as int));
                assert(values@.take(i + 1 as int).last() == values@[i as int]);
            }
            if r.is_err() {
                return r;
            }
            i = i + 1;
        }
        proof {
            assert(values@.take(values@.len() as int) =~= values@);
        }
        Ok(())
    }
}

} // verus!
