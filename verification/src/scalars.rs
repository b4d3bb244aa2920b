use vstd::prelude::*;

verus! {

/// Marker for the plain element types that may stand alone as scalars, used
/// to disambiguate scalar extraction from whole-array operations.
pub trait Scalar {}

impl Scalar for i8 {

}

impl Scalar for i16 {

}

impl Scalar for i32 {

}

impl Scalar for i64 {

}

impl Scalar for i128 {

}

impl Scalar for isize {

}

impl Scalar for u8 {

}

impl Scalar for u16 {

}

impl Scalar for u32 {

}

impl Scalar for u64 {

}

impl Scalar for u128 {

}

impl Scalar for usize {

}

impl Scalar for char {

}

impl Scalar for bool {

}

/// The ring-like interface the complex-number layer and the array fillers
/// build on: total addition, subtraction, multiplication, division,
/// negation and the two constants, every executable operation pinned to its
/// own spec counterpart. Implementations must be total — the integer
/// implementations here wrap on overflow and send division by zero to 0.
pub trait Arith: Copy + Sized {
    spec fn sadd(self, o: Self) -> Self;

    spec fn ssub(self, o: Self) -> Self;

    spec fn smul(self, o: Self) -> Self;

    spec fn sdiv(self, o: Self) -> Self;

    spec fn sneg(self) -> Self;

    spec fn szero() -> Self;

    spec fn sone() -> Self;

    spec fn sfrom_u16(x: u16) -> Self;

    fn add(self, o: Self) -> (r: Self)
        ensures
            r == self.sadd(o),
    ;

    fn sub(self, o: Self) -> (r: Self)
        ensures
            r == self.ssub(o),
    ;

    fn mul(self, o: Self) -> (r: Self)
        ensures
            r == self.smul(o),
    ;

    fn div(self, o: Self) -> (r: Self)
        ensures
            r == self.sdiv(o),
    ;

    fn neg(self) -> (r: Self)
        ensures
            r == self.sneg(),
    ;

    fn zero() -> (r: Self)
        ensures
            r == Self::szero(),
    ;

    fn one() -> (r: Self)
        ensures
            r == Self::sone(),
    ;

    fn from_u16(x: u16) -> (r: Self)
        ensures
            r == Self::sfrom_u16(x),
    ;
}

impl Arith for i64 {
    open spec fn sadd(self, o: i64) -> i64 {
        vstd::wrapping::i64_specs::wrapping_add(self, o)
    }

    open spec fn ssub(self, o: i64) -> i64 {
        vstd::wrapping::i64_specs::wrapping_sub(self, o)
    }

    open spec fn smul(self, o: i64) -> i64 {
        vstd::wrapping::i64_specs::wrapping_mul(self, o)
    }

    open spec fn sdiv(self, o: i64) -> i64 {
        match i64::checked_div(self, o) {
            Some(v) => v,
            None => if o == 0 {
                0
            } else {
                i64::MIN
            },
        }
    }

    open spec fn sneg(self) -> i64 {
        vstd::wrapping::i64_specs::wrapping_sub(0, self)
    }

    open spec fn szero() -> i64 {
        0
    }

    open spec fn sone() -> i64 {
        1
    }

    open spec fn sfrom_u16(x: u16) -> i64 {
        x as i64
    }

    fn add(self, o: i64) -> i64 {
        self.wrapping_add(o)
    }

    fn sub(self, o: i64) -> i64 {
        self.wrapping_sub(o)
    }

    fn mul(self, o: i64) -> i64 {
        self.wrapping_mul(o)
    }

    fn div(self, o: i64) -> i64 {
        match self.checked_div(o) {
            Some(v) => v,
            None => if o == 0 {
                0
            } else {
                i64::MIN
            },
        }
    }

    fn neg(self) -> i64 {
        0i64.wrapping_sub(self)
    }

    fn zero() -> i64 {
        0
    }

    fn one() -> i64 {
        1
    }

    fn from_u16(x: u16) -> i64 {
        x as i64
    }
}

impl Arith for u32 {
    open spec fn sadd(self, o: u32) -> u32 {
        vstd::wrapping::u32_specs::wrapping_add(self, o)
    }

    open spec fn ssub(self, o: u32) -> u32 {
        vstd::wrapping::u32_specs::wrapping_sub(self, o)
    }

    open spec fn smul(self, o: u32) -> u32 {
        vstd::wrapping::u32_specs::wrapping_mul(self, o)
    }

    open spec fn sdiv(self, o: u32) -> u32 {
        if o == 0 {
            0
        } else {
            (self as int / o as int) as u32
        }
    }

    open spec fn sneg(self) -> u32 {
        vstd::wrapping::u32_specs::wrapping_sub(0, self)
    }

    open spec fn szero() -> u32 {
        0
    }

    open spec fn sone() -> u32 {
        1
    }

    open spec fn sfrom_u16(x: u16) -> u32 {
        x as u32
    }

    fn add(self, o: u32) -> u32 {
        self.wrapping_add(o)
    }

    fn sub(self, o: u32) -> u32 {
        self.wrapping_sub(o)
    }

    fn mul(self, o: u32) -> u32 {
        self.wrapping_mul(o)
    }

    fn div(self, o: u32) -> u32 {
        if o == 0 {
            0
        } else {
            self / o
        }
    }

    fn neg(self) -> u32 {
        0u32.wrapping_sub(self)
    }

    fn zero() -> u32 {
        0
    }

    fn one() -> u32 {
        1
    }

    fn from_u16(x: u16) -> u32 {
        x as u32
    }
}

/// The transcendental interface of the complex-number layer. The verified
/// core takes nothing for granted about these operations — a caller's floating type
/// implements them outside it, and the code built on them is checked for
/// panic freedom and structure only, which is why none of the methods
/// carries a contract.
pub trait Analytic: Arith {
    fn exp(self) -> Self;

    fn ln(self) -> Self;

    fn sqrt(self) -> Self;

    fn powf(self, n: Self) -> Self;

    fn sin(self) -> Self;

    fn cos(self) -> Self;

    fn atan2(self, o: Self) -> Self;

    fn hypot(self, o: Self) -> Self;

    fn is_zero(self) -> bool;

    fn is_neg(self) -> bool;

    fn is_finite(self) -> bool;

    fn is_infinite(self) -> bool;

    fn is_normal(self) -> bool;

    fn is_nan(self) -> bool;
}

} // verus!
