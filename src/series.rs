use vstd::prelude::*;

use crate::key::{keys_of, strictly_increasing, StepIndex};

verus! {

/// How a lookup outside the covered domain is answered.
#[derive(Clone, Copy, Debug, PartialEq, Eq, Structural)]
pub enum InvalidAccessPolicy {
    ReturnNone,
    ReturnClosest,
}

/// A step-function series: `index` grows strictly, `values` runs parallel
/// to it, and `values[k]` holds on `[index[k], index[k + 1])`.
pub struct DataSeries<I, V> {
    index: Vec<I>,
    values: Vec<V>,
    invalid_access_policy: InvalidAccessPolicy,
}

/// Position of the first interval `[k[i], k[i + 1])`, from `i` on, that holds `q`.
pub open spec fn interval_from(k: Seq<int>, q: int, i: int) -> Option<int>
    decreases k.len() - i,
{
    if i < 0 || i + 1 >= k.len() {
        None
    } else if k[i] <= q < k[i + 1] {
        Some(i)
    } else {
        interval_from(k, q, i + 1)
    }
}

/// A found interval starts no earlier than the search, exists, and holds `q`.
pub proof fn lemma_interval_from(k: Seq<int>, q: int, i: int)
    ensures
        match interval_from(k, q, i) {
            Some(t) => i <= t && 0 <= t && t + 1 < k.len() && k[t] <= q < k[t + 1],
            None => true,
        },
    decreases k.len() - i,
{
    if i >= 0 && i + 1 < k.len() && !(k[i] <= q < k[i + 1]) {
        lemma_interval_from(k, q, i + 1);
    }
}

/// Position whose value a lookup of `q` answers with, if any.
pub open spec fn lookup(k: Seq<int>, policy: InvalidAccessPolicy, q: int) -> Option<int> {
    if k.len() == 0 {
        None
    } else if interval_from(k, q, 0).is_some() {
        interval_from(k, q, 0)
    } else if q == k.last() {
        Some(k.len() - 1)
    } else {
        match policy {
            InvalidAccessPolicy::ReturnClosest => if q > k.last() {
                Some(k.len() - 1)
            } else if q < k[0] {
                Some(0)
            } else {
                None
            },
            InvalidAccessPolicy::ReturnNone => None,
        }
    }
}

impl<I: StepIndex, V> DataSeries<I, V> {
    /// The keys of the index points, in order.
    pub open spec fn keys(&self) -> Seq<int> {
        keys_of(self.points())
    }

    /// The values, parallel to the index points.
    pub closed spec fn vals(&self) -> Seq<V> {
        self.values@
    }

    /// The index points themselves.
    pub closed spec fn points(&self) -> Seq<I> {
        self.index@
    }

    /// The policy that governs lookups outside the domain.
    pub closed spec fn policy(&self) -> InvalidAccessPolicy {
        self.invalid_access_policy
    }

    /// Index and values run parallel, and the index grows strictly.
    pub open spec fn wf(&self) -> bool {
        &&& self.points().len() == self.vals().len()
        &&& strictly_increasing(self.keys())
    }

    /// Creates an empty series that answers lookups outside the domain with `None`.
    pub fn new() -> (r: DataSeries<I, V>)
        ensures
            r.wf(),
            r.points().len() == 0,
            r.vals().len() == 0,
            r.policy() == InvalidAccessPolicy::ReturnNone,
    {
        DataSeries {
            index: Vec::new(),
            values: Vec::new(),
            invalid_access_policy: InvalidAccessPolicy::ReturnNone,
        }
    }

    /// Appends the pair when `index` lies beyond the last index point (or
    /// the series is empty), and reports whether it did.
    pub fn push(&mut self, index: I, value: V) -> (r: bool)
        requires
            old(self).wf(),
        ensures
            final(self).wf(),
            r == (old(self).keys().len() == 0 || old(self).keys().last() < index.key()),
            r ==> final(self).points() == old(self).points().push(index),
            r ==> final(self).vals() == old(self).vals().push(value),
            !r ==> final(self).points() == old(self).points(),
            !r ==> final(self).vals() == old(self).vals(),
            final(self).policy() == old(self).policy(),
    {
        let n = self.index.len();
        if n > 0 {
            let last = self.index[n - 1].key_of();
            if last >= index.key_of() {
                return false;
            }
        }
        self.index.push(index);
        self.values.push(value);
        proof {
            let ok = old(self).keys();
            let nk = self.keys();
            assert(nk =~= ok.push(index.key()));
            assert forall|i: int, j: int| 0 <= i < j < nk.len() implies nk[i] < nk[j] by {
                if j == ok.len() && i + 1 < j {
                    assert(ok[i] < ok[ok.len() - 1]);
                }
            }
        }
        true
    }

    /// Replaces the policy for lookups outside the domain.
    pub fn set_invalid_access_policy(&mut self, policy: InvalidAccessPolicy)
        ensures
            final(self).points() == old(self).points(),
            final(self).vals() == old(self).vals(),
            final(self).policy() == policy,
    {
        self.invalid_access_policy = policy;
    }

    /// Looks up the value that holds at `index`: the value of the interval
    /// that contains it, the last value at the last point, and otherwise
    /// what the policy says.
    pub fn at(&self, index: &I) -> (r: Option<&V>)
        requires
            self.wf(),
        ensures
            match lookup(self.keys(), self.policy(), index.key()) {
                Some(k) => r.is_some() && *r.unwrap() == self.vals()[k],
                None => r.is_none(),
            },
    {
        let ghost k = self.keys();
        let q = index.key_of();
        let n = self.index.len();
        if n == 0 {
            return None;
        }
        let mut i: usize = 0;
        while i + 1 < n
            invariant
                n == self.index@.len(),
                n == self.values@.len(),
                k == self.keys(),
                q as int == index.key(),
                0 <= i < n,
                interval_from(k, q as int, 0) == interval_from(k, q as int, i as int),
            decreases n - i,
        {
            let lo = self.index[i].key_of();
            let hi = self.index[i + 1].key_of();
            assert(k[i as int] == lo && k[i + 1] == hi);
            if lo <= q && q < hi {
                assert(interval_from(k, q as int, i as int) == Some(i as int));
                return Some(&self.values[i]);
            }
            i = i + 1;
        }
        let last = self.index[n - 1].key_of();
        if q == last {
            return Some(&self.values[n - 1]);
        }
        match self.invalid_access_policy {
            InvalidAccessPolicy::ReturnClosest => {
                if q > last {
                    return Some(&self.values[n - 1]);
                }
                let first = self.index[0].key_of();
                if q < first {
                    return Some(&self.values[0]);
                }
                None
            },
            InvalidAccessPolicy::ReturnNone => None,
        }
    }

    /// Assembles a series from parts that already meet its invariant.
    pub(crate) fn from_parts(index: Vec<I>, values: Vec<V>, policy: InvalidAccessPolicy) -> (r:
        DataSeries<I, V>)
        requires
            index@.len() == values@.len(),
            strictly_increasing(keys_of(index@)),
        ensures
            r.wf(),
            r.points() == index@,
            r.vals() == values@,
            r.policy() == policy,
    {
        DataSeries { index, values, invalid_access_policy: policy }
    }

    /// Returns the policy for lookups outside the domain.
    pub fn policy_value(&self) -> (r: InvalidAccessPolicy)
        ensures
            r == self.policy(),
    {
        self.invalid_access_policy
    }

    /// Read-only views of the index points and the values, in order.
    pub fn as_arrays(&self) -> (r: (&Vec<I>, &Vec<V>))
        ensures
            r.0@ == self.points(),
            r.1@ == self.vals(),
    {
        (&self.index, &self.values)
    }
}

} // verus!
