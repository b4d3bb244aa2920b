use vstd::prelude::*;

use crate::scalars::Arith;
use crate::{spec_fold, Ndarr};

verus! {

/// The spec-level absolute value matching `abs` below: the minimum stays
/// itself, as the wrapping negation leaves it.
pub open spec fn abs_spec(x: i64) -> i64 {
    if x == i64::MIN {
        i64::MIN
    } else if x < 0 {
        (-x) as i64
    } else {
        x
    }
}

impl<T: Arith> Ndarr<T> {
    /// The left fold of all elements under the scalar's addition, starting
    /// from the first element.
    pub fn sum(&self) -> (r: T)
        requires
            self.wf(),
            self.data@.len() >= 1,
        ensures
            r == spec_fold(self.data@, |x: T, y: T| x.sadd(y)),
    {
        let n = self.data.len();
        let mut acc = self.data[0];
        let mut i: usize = 1;
        while i < n
            invariant
                n == self.data@.len(),
                n >= 1,
                1 <= i <= n,
                acc == spec_fold(self.data@.take(i as int), |x: T, y: T| x.sadd(y)),
            decreases n - i,
        {
            proof {
                assert(self.data@.take(i + 1).drop_last() =~= self.data@.take(i as int));
            }
            acc = acc.add(self.data[i]);
            i += 1;
        }
        proof {
            assert(self.data@.take(n as int) =~= self.data@);
        }
        acc
    }
}

impl Ndarr<i64> {
    /// The largest element, or `None` for an empty array.
    pub fn max(&self) -> (r: Option<i64>)
        ensures
            r is Some <==> self.data@.len() >= 1,
            r matches Some(m) ==> {
                &&& exists|k: int| 0 <= k < self.data@.len() && self.data@[k] == m
                &&& forall|k: int| 0 <= k < self.data@.len() ==> self.data@[k] <= m
            },
    {
        let n = self.data.len();
        if n == 0 {
            return None;
        }
        let mut best = self.data[0];
        let mut i: usize = 1;
        while i < n
            invariant
                n == self.data@.len(),
                1 <= i <= n,
                exists|k: int| 0 <= k < i && self.data@[k] == best,
                forall|k: int| 0 <= k < i ==> self.data@[k] <= best,
            decreases n - i,
        {
            if self.data[i] > best {
                best = self.data[i];
            }
            i += 1;
        }
        Some(best)
    }

    /// The elementwise absolute value; `i64::MIN`, which has no positive
    /// counterpart, stays itself.
    pub fn abs(&self) -> (r: Ndarr<i64>)
        requires
            self.wf(),
        ensures
            r.wf(),
            r.dim.shape@ == self.dim.shape@,
            r.data@.len() == self.data@.len(),
            forall|i: int|
                0 <= i < self.data@.len() ==> #[trigger] r.data@[i] == abs_spec(self.data@[i]),
    {
        let f = |x: i64| -> (r: i64)
            ensures
                r == abs_spec(x),
            {
                if x == i64::MIN {
                    i64::MIN
                } else if x < 0 {
                    -x
                } else {
                    x
                }
            };
        let out = self.map(f);
        proof {
            assert forall|i: int| 0 <= i < self.data@.len() implies #[trigger] out.data@[i]
                == abs_spec(self.data@[i]) by {
            }
        }
        out
    }

    /// Elementwise strict positivity.
    pub fn is_positive(&self) -> (r: Ndarr<bool>)
        requires
            self.wf(),
        ensures
            r.wf(),
            r.dim.shape@ == self.dim.shape@,
            r.data@.len() == self.data@.len(),
            forall|i: int|
                0 <= i < self.data@.len() ==> #[trigger] r.data@[i] == (self.data@[i] > 0),
    {
        let f = |x: i64| -> (r: bool)
            ensures
                r == (x > 0),
            { x > 0 };
        let out = self.map_types(f);
        proof {
            assert forall|i: int| 0 <= i < self.data@.len() implies #[trigger] out.data@[i] == (
            self.data@[i] > 0) by {
            }
        }
        out
    }

    /// Elementwise strict negativity.
    pub fn is_negative(&self) -> (r: Ndarr<bool>)
        requires
            self.wf(),
        ensures
            r.wf(),
            r.dim.shape@ == self.dim.shape@,
            r.data@.len() == self.data@.len(),
            forall|i: int|
                0 <= i < self.data@.len() ==> #[trigger] r.data@[i] == (self.data@[i] < 0),
    {
        let f = |x: i64| -> (r: bool)
            ensures
                r == (x < 0),
            { x < 0 };
        let out = self.map_types(f);
        proof {
            assert forall|i: int| 0 <= i < self.data@.len() implies #[trigger] out.data@[i] == (
            self.data@[i] < 0) by {
            }
        }
        out
    }
}

} // verus!
