use vstd::prelude::*;

use crate::dyadic::bcast_elem;
use crate::helpers::shape_product;
use crate::shape::{broadcast_compatible, broadcast_shape_spec};
use crate::{Dim, Ndarr};

verus! {

/// When two integer arrays can be combined elementwise: both well formed,
/// their shapes broadcast, the result fits in memory, and an empty operand
/// forces an empty result.
pub open spec fn elementwise_op_req(a: Ndarr<i64>, b: Ndarr<i64>) -> bool {
    &&& a.wf()
    &&& b.wf()
    &&& broadcast_compatible(a.dim.shape@, b.dim.shape@)
    &&& shape_product(broadcast_shape_spec(a.dim.shape@, b.dim.shape@)) <= usize::MAX
    &&& (shape_product(a.dim.shape@) == 0 ==> shape_product(
        broadcast_shape_spec(a.dim.shape@, b.dim.shape@),
    ) == 0)
    &&& (shape_product(b.dim.shape@) == 0 ==> shape_product(
        broadcast_shape_spec(a.dim.shape@, b.dim.shape@),
    ) == 0)
}

/// Elementwise remainder with the same total convention as `Arith::sdiv`: a
/// zero divisor, or the one overflowing pair, yields 0.
pub open spec fn srem(x: i64, y: i64) -> i64 {
    match i64::checked_rem(x, y) {
        Some(v) => v,
        None => 0,
    }
}

/// The elementwise engine behind the arithmetic operators: broadcasts the
/// two operands and combines them with `f`. This is where the operators'
/// meaning lives; each operator below is one call of it.
fn elementwise_i64<F: Fn(i64, i64) -> i64>(a: &Ndarr<i64>, b: &Ndarr<i64>, f: F) -> (r:
    Ndarr<i64>)
    requires
        elementwise_op_req(*a, *b),
        forall|x: i64, y: i64| call_requires(f, (x, y)),
    ensures
        r.wf(),
        r.dim.shape@ == broadcast_shape_spec(a.dim.shape@, b.dim.shape@),
        forall|i: int|
            0 <= i < r.data@.len() ==> call_ensures(
                f,
                (
                    bcast_elem(
                        a.dim.shape@,
                        a.data@,
                        broadcast_shape_spec(a.dim.shape@, b.dim.shape@),
                        i,
                    ),
                    bcast_elem(
                        b.dim.shape@,
                        b.data@,
                        broadcast_shape_spec(a.dim.shape@, b.dim.shape@),
                        i,
                    ),
                ),
                #[trigger] r.data@[i],
            ),
{
    match a.poly_dyadic(b, f) {
        Ok(c) => c,
        Err(_) => {
            proof {
                assert(false);
            }
            Ndarr { data: Vec::new(), dim: Dim { shape: Vec::new() } }
        },
    }
}

// The operator impls below are sugar over `elementwise_i64` and the
// elementwise `map`. Their `*_req` spec functions enforce shape
// compatibility, so verified callers cannot hit the panic the operators
// would otherwise hide; their `obeys_*_spec` functions are `false` because a
// result value over heap buffers cannot be written down as a spec value —
// the exact elementwise meaning is `poly_dyadic`'s contract, to which every
// body delegates.

impl core::ops::Add for Ndarr<i64> {
    type Output = Ndarr<i64>;

    fn add(self, rhs: Ndarr<i64>) -> Ndarr<i64> {
        let f = |x: i64, y: i64| -> (r: i64)
            ensures
                r == vstd::wrapping::i64_specs::wrapping_add(x, y),
            { x.wrapping_add(y) };
        elementwise_i64(&self, &rhs, f)
    }
}

impl vstd::std_specs::ops::AddSpecImpl for Ndarr<i64> {
    open spec fn obeys_add_spec() -> bool {
        false
    }

    open spec fn add_req(self, rhs: Ndarr<i64>) -> bool {
        elementwise_op_req(self, rhs)
    }

    open spec fn add_spec(self, rhs: Ndarr<i64>) -> Ndarr<i64> {
        // Unused: `obeys_add_spec` is false.
        self
    }
}

impl core::ops::Sub for Ndarr<i64> {
    type Output = Ndarr<i64>;

    fn sub(self, rhs: Ndarr<i64>) -> Ndarr<i64> {
        let f = |x: i64, y: i64| -> (r: i64)
            ensures
                r == vstd::wrapping::i64_specs::wrapping_sub(x, y),
            { x.wrapping_sub(y) };
        elementwise_i64(&self, &rhs, f)
    }
}

impl vstd::std_specs::ops::SubSpecImpl for Ndarr<i64> {
    open spec fn obeys_sub_spec() -> bool {
        false
    }

    open spec fn sub_req(self, rhs: Ndarr<i64>) -> bool {
        elementwise_op_req(self, rhs)
    }

    open spec fn sub_spec(self, rhs: Ndarr<i64>) -> Ndarr<i64> {
        // Unused: `obeys_sub_spec` is false.
        self
    }
}

impl core::ops::Mul for Ndarr<i64> {
    type Output = Ndarr<i64>;

    fn mul(self, rhs: Ndarr<i64>) -> Ndarr<i64> {
        let f = |x: i64, y: i64| -> (r: i64)
            ensures
                r == vstd::wrapping::i64_specs::wrapping_mul(x, y),
            { x.wrapping_mul(y) };
        elementwise_i64(&self, &rhs, f)
    }
}

impl vstd::std_specs::ops::MulSpecImpl for Ndarr<i64> {
    open spec fn obeys_mul_spec() -> bool {
        false
    }

    open spec fn mul_req(self, rhs: Ndarr<i64>) -> bool {
        elementwise_op_req(self, rhs)
    }

    open spec fn mul_spec(self, rhs: Ndarr<i64>) -> Ndarr<i64> {
        // Unused: `obeys_mul_spec` is false.
        self
    }
}

impl core::ops::Div for Ndarr<i64> {
    type Output = Ndarr<i64>;

    fn div(self, rhs: Ndarr<i64>) -> Ndarr<i64> {
        let f = |x: i64, y: i64| -> (r: i64)
            ensures
                r == crate::scalars::Arith::sdiv(x, y),
            {
                match x.checked_div(y) {
                    Some(v) => v,
                    None => if y == 0 {
                        0
                    } else {
                        i64::MIN
                    },
                }
            };
        elementwise_i64(&self, &rhs, f)
    }
}

impl vstd::std_specs::ops::DivSpecImpl for Ndarr<i64> {
    open spec fn obeys_div_spec() -> bool {
        false
    }

    open spec fn div_req(self, rhs: Ndarr<i64>) -> bool {
        elementwise_op_req(self, rhs)
    }

    open spec fn div_spec(self, rhs: Ndarr<i64>) -> Ndarr<i64> {
        // Unused: `obeys_div_spec` is false.
        self
    }
}

impl core::ops::Rem for Ndarr<i64> {
    type Output = Ndarr<i64>;

    fn rem(self, rhs: Ndarr<i64>) -> Ndarr<i64> {
        let f = |x: i64, y: i64| -> (r: i64)
            ensures
                r == srem(x, y),
            {
                match x.checked_rem(y) {
                    Some(v) => v,
                    None => 0,
                }
            };
        elementwise_i64(&self, &rhs, f)
    }
}

impl vstd::std_specs::ops::RemSpecImpl for Ndarr<i64> {
    open spec fn obeys_rem_spec() -> bool {
        false
    }

    open spec fn rem_req(self, rhs: Ndarr<i64>) -> bool {
        elementwise_op_req(self, rhs)
    }

    open spec fn rem_spec(self, rhs: Ndarr<i64>) -> Ndarr<i64> {
        // Unused: `obeys_rem_spec` is false.
        self
    }
}

impl core::ops::Neg for Ndarr<i64> {
    type Output = Ndarr<i64>;

    fn neg(self) -> Ndarr<i64> {
        let f = |x: i64| -> (r: i64)
            ensures
                r == vstd::wrapping::i64_specs::wrapping_sub(0, x),
            { 0i64.wrapping_sub(x) };
        self.map(f)
    }
}

impl vstd::std_specs::ops::NegSpecImpl for Ndarr<i64> {
    open spec fn obeys_neg_spec() -> bool {
        false
    }

    open spec fn neg_req(self) -> bool {
        self.wf()
    }

    open spec fn neg_spec(self) -> Ndarr<i64> {
        // Unused: `obeys_neg_spec` is false.
        self
    }
}

} // verus!
