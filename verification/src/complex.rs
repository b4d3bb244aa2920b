use vstd::prelude::*;

use crate::scalars::{Analytic, Arith};

verus! {

/// A complex number over a scalar type `T`: real part first, imaginary part
/// second.
#[derive(Debug, Clone, Copy, PartialEq, Eq)]
pub struct C<T>(pub T, pub T);

/// Lifts a scalar to a purely imaginary complex number, so that `x.i()`
/// reads as the mathematical `xi`.
pub trait Imag<T: Arith> {
    /// The scalar this value stands for.
    spec fn as_scalar(&self) -> T;

    fn i(&self) -> (r: C<T>)
        ensures
            r == C(T::szero(), self.as_scalar()),
    ;
}

impl<T: Arith> Imag<T> for T {
    open spec fn as_scalar(&self) -> T {
        *self
    }

    fn i(&self) -> (r: C<T>) {
        C(T::zero(), *self)
    }
}

impl<T: Copy> C<T> {
    /// The real part.
    pub fn re(&self) -> (r: T)
        ensures
            r == self.0,
    {
        self.0
    }

    /// The imaginary part.
    pub fn im(&self) -> (r: T)
        ensures
            r == self.1,
    {
        self.1
    }
}

impl<T: Arith> C<T> {
    /// Complex addition at the spec level, componentwise over the scalar's
    /// own addition.
    pub open spec fn spec_add(self, o: C<T>) -> C<T> {
        C(self.0.sadd(o.0), self.1.sadd(o.1))
    }

    pub open spec fn spec_sub(self, o: C<T>) -> C<T> {
        C(self.0.ssub(o.0), self.1.ssub(o.1))
    }

    pub open spec fn spec_mul(self, o: C<T>) -> C<T> {
        C(
            self.0.smul(o.0).ssub(self.1.smul(o.1)),
            self.0.smul(o.1).sadd(self.1.smul(o.0)),
        )
    }

    /// Complex division: multiply by the conjugate and divide both parts by
    /// the squared magnitude of the divisor.
    pub open spec fn spec_div(self, o: C<T>) -> C<T> {
        C(
            self.0.smul(o.0).sadd(self.1.smul(o.1)).sdiv(o.spec_r_square()),
            self.1.smul(o.0).ssub(self.0.smul(o.1)).sdiv(o.spec_r_square()),
        )
    }

    pub open spec fn spec_neg(self) -> C<T> {
        C(self.0.sneg(), self.1.sneg())
    }

    pub open spec fn spec_conj(self) -> C<T> {
        C(self.0, self.1.sneg())
    }

    /// The squared magnitude `re² + im²`.
    pub open spec fn spec_r_square(self) -> T {
        self.0.smul(self.0).sadd(self.1.smul(self.1))
    }

    pub open spec fn spec_one() -> C<T> {
        C(T::sone(), T::szero())
    }

    /// `self` raised to the positive power `n`, multiplying from the left
    /// as the iterative loop does.
    pub open spec fn spec_pow_pos(self, n: int) -> C<T>
        decreases n,
    {
        if n <= 1 {
            self
        } else {
            self.spec_pow_pos(n - 1).spec_mul(self)
        }
    }

    /// `self` raised to any integer power: the empty product for 0, the
    /// reciprocal of the positive power for negative exponents.
    pub open spec fn spec_powi(self, n: int) -> C<T> {
        if n == 0 {
            C::<T>::spec_one()
        } else if n > 0 {
            self.spec_pow_pos(n)
        } else {
            C::<T>::spec_one().spec_div(self.spec_pow_pos(-n))
        }
    }

    pub fn add(self, o: C<T>) -> (r: C<T>)
        ensures
            r == self.spec_add(o),
    {
        C(self.0.add(o.0), self.1.add(o.1))
    }

    pub fn sub(self, o: C<T>) -> (r: C<T>)
        ensures
            r == self.spec_sub(o),
    {
        C(self.0.sub(o.0), self.1.sub(o.1))
    }

    pub fn mul(self, o: C<T>) -> (r: C<T>)
        ensures
            r == self.spec_mul(o),
    {
        C(
            self.0.mul(o.0).sub(self.1.mul(o.1)),
            self.0.mul(o.1).add(self.1.mul(o.0)),
        )
    }

    pub fn div(self, o: C<T>) -> (r: C<T>)
        ensures
            r == self.spec_div(o),
    {
        let den = o.r_square();
        C(
            self.0.mul(o.0).add(self.1.mul(o.1)).div(den),
            self.1.mul(o.0).sub(self.0.mul(o.1)).div(den),
        )
    }

    pub fn neg(self) -> (r: C<T>)
        ensures
            r == self.spec_neg(),
    {
        C(self.0.neg(), self.1.neg())
    }

    /// The complex conjugate.
    pub fn conj(&self) -> (r: C<T>)
        ensures
            r == self.spec_conj(),
    {
        C(self.0, self.1.neg())
    }

    /// The squared magnitude `re² + im²`.
    pub fn r_square(&self) -> (r: T)
        ensures
            r == self.spec_r_square(),
    {
        self.0.mul(self.0).add(self.1.mul(self.1))
    }

    /// The multiplicative inverse: the conjugate with both parts divided by
    /// the squared magnitude.
    pub fn inv(&self) -> (r: C<T>)
        ensures
            r == C(self.0.sdiv(self.spec_r_square()), self.1.sneg().sdiv(self.spec_r_square())),
    {
        let r_sq = self.r_square();
        C(self.0.div(r_sq), self.1.neg().div(r_sq))
    }

    /// `self` raised to an integer power by repeated multiplication; a
    /// negative exponent divides the unit by the positive power.
    pub fn powi(&self, n: i32) -> (r: C<T>)
        requires
            n > i32::MIN,
        ensures
            r == self.spec_powi(n as int),
    {
        if n == 0 {
            return C(T::one(), T::zero());
        }
        let m: i32 = if n > 0 {
            n
        } else {
            -n
        };
        let mut out = C(self.0, self.1);
        let mut k: i32 = 1;
        while k < m
            invariant
                1 <= k <= m,
                out == self.spec_pow_pos(k as int),
            decreases m - k,
        {
            out = out.mul(*self);
            k = k + 1;
        }
        if n > 0 {
            out
        } else {
            C(T::one(), T::zero()).div(out)
        }
    }
}

impl<T: Arith> core::ops::Add for C<T> {
    type Output = C<T>;

    fn add(self, rhs: C<T>) -> C<T> {
        C::add(self, rhs)
    }
}

impl<T: Arith> vstd::std_specs::ops::AddSpecImpl for C<T> {
    open spec fn obeys_add_spec() -> bool {
        true
    }

    open spec fn add_req(self, rhs: C<T>) -> bool {
        true
    }

    open spec fn add_spec(self, rhs: C<T>) -> C<T> {
        self.spec_add(rhs)
    }
}

impl<T: Arith> core::ops::Sub for C<T> {
    type Output = C<T>;

    fn sub(self, rhs: C<T>) -> C<T> {
        C::sub(self, rhs)
    }
}

impl<T: Arith> vstd::std_specs::ops::SubSpecImpl for C<T> {
    open spec fn obeys_sub_spec() -> bool {
        true
    }

    open spec fn sub_req(self, rhs: C<T>) -> bool {
        true
    }

    open spec fn sub_spec(self, rhs: C<T>) -> C<T> {
        self.spec_sub(rhs)
    }
}

impl<T: Arith> core::ops::Mul for C<T> {
    type Output = C<T>;

    fn mul(self, rhs: C<T>) -> C<T> {
        C::mul(self, rhs)
    }
}

impl<T: Arith> vstd::std_specs::ops::MulSpecImpl for C<T> {
    open spec fn obeys_mul_spec() -> bool {
        true
    }

    open spec fn mul_req(self, rhs: C<T>) -> bool {
        true
    }

    open spec fn mul_spec(self, rhs: C<T>) -> C<T> {
        self.spec_mul(rhs)
    }
}

impl<T: Arith> core::ops::Div for C<T> {
    type Output = C<T>;

    fn div(self, rhs: C<T>) -> C<T> {
        C::div(self, rhs)
    }
}

impl<T: Arith> vstd::std_specs::ops::DivSpecImpl for C<T> {
    open spec fn obeys_div_spec() -> bool {
        true
    }

    open spec fn div_req(self, rhs: C<T>) -> bool {
        true
    }

    open spec fn div_spec(self, rhs: C<T>) -> C<T> {
        self.spec_div(rhs)
    }
}

impl<T: Arith> core::ops::Neg for C<T> {
    type Output = C<T>;

    fn neg(self) -> C<T> {
        C::neg(self)
    }
}

impl<T: Arith> vstd::std_specs::ops::NegSpecImpl for C<T> {
    open spec fn obeys_neg_spec() -> bool {
        true
    }

    open spec fn neg_req(self) -> bool {
        true
    }

    open spec fn neg_spec(self) -> C<T> {
        self.spec_neg()
    }
}

impl<T: Analytic> C<T> {
    /// The magnitude, through the scalar's `hypot`.
    pub fn abs(&self) -> T {
        self.0.hypot(self.1)
    }

    /// The argument (angle), through the scalar's two-argument arctangent.
    pub fn arg(&self) -> T {
        self.1.atan2(self.0)
    }

    /// The complex exponential `e^(re) · (cos im + i sin im)`.
    pub fn exp(&self) -> C<T> {
        C(self.0.exp().mul(self.1.cos()), self.0.exp().mul(self.1.sin()))
    }

    /// The principal square root, with a branch cut keeping the argument of
    /// the result within a right angle of the positive real axis.
    pub fn sqrt(&self) -> C<T> {
        let two = T::one().add(T::one());
        let (r, arg) = self.to_polar();
        C(r.sqrt(), T::zero()).mul(C(T::zero(), arg.div(two)).exp())
    }

    /// The principal complex logarithm, `ln |z| + i arg z`.
    pub fn ln(&self) -> C<T> {
        C(self.abs().ln(), self.arg())
    }

    /// `self` raised to the real power `n`, through polar form.
    pub fn powf(&self, n: T) -> C<T> {
        if n.is_zero() {
            C(T::one(), T::zero())
        } else if n.is_neg() {
            let (r, arg) = self.to_polar();
            let pow_r = r.powf(T::zero().sub(n));
            let pow_c = C(T::zero(), arg.mul(n)).exp();
            C(T::one(), T::zero()).div(C(pow_r.mul(pow_c.0), pow_r.mul(pow_c.1)))
        } else {
            let (r, arg) = self.to_polar();
            let pow_r = r.powf(n);
            let pow_c = C(T::zero(), arg.mul(n)).exp();
            C(pow_r.mul(pow_c.0), pow_r.mul(pow_c.1))
        }
    }

    /// `self` raised to a complex power, through the exponential of the
    /// logarithm.
    pub fn powc(&self, c: C<T>) -> C<T> {
        let (r, arg1) = self.to_polar();
        let p1 = C(r.ln().mul(c.0), r.ln().mul(c.1));
        let p2 = C(T::zero(), arg1).mul(c);
        p1.add(p2).exp()
    }

    /// The complex sine, from the exponentials of `±iz`.
    pub fn sin(&self) -> C<T> {
        let two = T::one().add(T::one());
        let nom = C(self.1.neg(), self.0).exp().sub(C(self.1, self.0.neg()).exp());
        let den = C(T::zero(), two);
        nom.div(den)
    }

    /// The complex cosine, from the exponentials of `±iz`.
    pub fn cos(&self) -> C<T> {
        let two = T::one().add(T::one());
        let nom = C(self.1.neg(), self.0).exp().add(C(self.1, self.0.neg()).exp());
        let den = C(two, T::zero());
        nom.div(den)
    }

    pub fn tan(&self) -> C<T> {
        self.sin().div(self.cos())
    }

    pub fn cot(&self) -> C<T> {
        self.cos().div(self.sin())
    }

    pub fn sec(&self) -> C<T> {
        C(T::one(), T::zero()).div(self.cos())
    }

    pub fn csc(&self) -> C<T> {
        C(T::one(), T::zero()).div(self.sin())
    }

    /// The hyperbolic sine, from the exponentials of `±z`.
    pub fn sinh(&self) -> C<T> {
        let two = T::one().add(T::one());
        let nom = self.exp().sub(self.neg().exp());
        let den = C(two, T::zero());
        nom.div(den)
    }

    /// The hyperbolic cosine, from the exponentials of `±z`.
    pub fn cosh(&self) -> C<T> {
        let two = T::one().add(T::one());
        let nom = self.exp().add(self.neg().exp());
        let den = C(two, T::zero());
        nom.div(den)
    }

    pub fn tanh(&self) -> C<T> {
        self.sinh().div(self.cosh())
    }

    pub fn coth(&self) -> C<T> {
        self.cosh().div(self.sinh())
    }

    pub fn sech(&self) -> C<T> {
        C(T::one(), T::zero()).div(self.cosh())
    }

    pub fn csch(&self) -> C<T> {
        C(T::one(), T::zero()).div(self.sinh())
    }

    /// The complex number of magnitude `r` and argument `angle`.
    pub fn from_polar(r: T, angle: T) -> C<T> {
        let unit = C(T::zero(), angle).exp();
        C(r.mul(unit.0), r.mul(unit.1))
    }

    /// The pair of magnitude and argument.
    pub fn to_polar(&self) -> (T, T) {
        (self.abs(), self.arg())
    }

    /// Whether either part is infinite.
    pub fn is_infinite(&self) -> bool {
        self.0.is_infinite() || self.1.is_infinite()
    }

    /// Whether both parts are finite.
    pub fn is_finite(&self) -> bool {
        self.0.is_finite() && self.1.is_finite()
    }

    /// Whether both parts are normal.
    pub fn is_normal(&self) -> bool {
        self.0.is_normal() && self.1.is_normal()
    }

    /// Whether either part is a NaN.
    pub fn is_nan(&self) -> bool {
        self.0.is_nan() || self.1.is_nan()
    }
}

} // verus!
