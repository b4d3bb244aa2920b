use rapl::complex::{Imag, C};
use rapl::scalars::{Analytic, Arith};
use std::f64::consts::{FRAC_1_SQRT_2, FRAC_PI_2, LN_2, PI};

/// A floating scalar for the complex layer: the verified core leaves the
/// transcendental operations to the caller's type.
#[derive(Clone, Copy, PartialEq, PartialOrd, Debug)]
struct F(f64);

impl Arith for F {
    // The spec-level counterparts erase to plain functions outside the
    // verified crate; they mirror the executable operations.
    fn sadd(self, o: F) -> F {
        F(self.0 + o.0)
    }
    fn ssub(self, o: F) -> F {
        F(self.0 - o.0)
    }
    fn smul(self, o: F) -> F {
        F(self.0 * o.0)
    }
    fn sdiv(self, o: F) -> F {
        F(self.0 / o.0)
    }
    fn sneg(self) -> F {
        F(-self.0)
    }
    fn szero() -> F {
        F(0.0)
    }
    fn sone() -> F {
        F(1.0)
    }
    fn sfrom_u16(x: u16) -> F {
        F(x as f64)
    }
    fn add(self, o: F) -> F {
        F(self.0 + o.0)
    }
    fn sub(self, o: F) -> F {
        F(self.0 - o.0)
    }
    fn mul(self, o: F) -> F {
        F(self.0 * o.0)
    }
    fn div(self, o: F) -> F {
        F(self.0 / o.0)
    }
    fn neg(self) -> F {
        F(-self.0)
    }
    fn zero() -> F {
        F(0.0)
    }
    fn one() -> F {
        F(1.0)
    }
    fn from_u16(x: u16) -> F {
        F(x as f64)
    }
}

impl Analytic for F {
    fn exp(self) -> F {
        F(self.0.exp())
    }
    fn ln(self) -> F {
        F(self.0.ln())
    }
    fn sqrt(self) -> F {
        F(self.0.sqrt())
    }
    fn powf(self, n: F) -> F {
        F(self.0.powf(n.0))
    }
    fn sin(self) -> F {
        F(self.0.sin())
    }
    fn cos(self) -> F {
        F(self.0.cos())
    }
    fn atan2(self, o: F) -> F {
        F(self.0.atan2(o.0))
    }
    fn hypot(self, o: F) -> F {
        F(self.0.hypot(o.0))
    }
    fn is_zero(self) -> bool {
        self.0 == 0.0
    }
    fn is_neg(self) -> bool {
        self.0 < 0.0
    }
    fn is_finite(self) -> bool {
        self.0.is_finite()
    }
    fn is_infinite(self) -> bool {
        self.0.is_infinite()
    }
    fn is_normal(self) -> bool {
        self.0.is_normal()
    }
    fn is_nan(self) -> bool {
        self.0.is_nan()
    }
}

fn cf(re: f64, im: f64) -> C<F> {
    C(F(re), F(im))
}

fn approx_epsilon(a: C<F>, b: C<F>, epsilon: f64) -> bool {
    let approx = (a == b) || (a - b).abs().0 < epsilon;
    if !approx {
        println!("Error: {:?} != {:?}", a, b)
    }
    approx
}

fn approx(a: C<F>, b: C<F>) -> bool {
    approx_epsilon(a, b, 1e-10)
}

#[test]
fn add() {
    assert_eq!(C(1, 0) + 1i64.i(), C(1, 1));
    assert_eq!(1i64.i() + C(1, 0), C(1, 1));
    assert_eq!(cf(0., 2.) + cf(2., 3.), cf(2., 5.));
}

#[test]
fn sub() {
    assert_eq!(C(1, 0) - 1i64.i(), C(1, -1));
    assert_eq!(1i64.i() - C(1, 0), C(-1, 1));
    assert_eq!(cf(0., 2.) - cf(2., 3.), cf(-2., -1.));
}

#[test]
fn mul() {
    let c1 = C(2i64, 3);
    let c2 = C(4i64, 5);
    let expected = C(-7i64, 22);
    assert_eq!(c1 * c2, expected);
}

#[test]
fn division() {
    let c1 = cf(2., 3.);
    let c2 = cf(4., 5.);
    let expected = cf(23. / 41., 2. / 41.);
    assert_eq!(c1 / c2, expected);
}

#[test]
fn conj() {
    let a: C<i64> = C(2, 3);
    assert!((a * a.conj()).re() == a.r_square())
}

#[test]
fn inv() {
    let a: C<i64> = C(2, 0);
    assert_eq!(a.inv(), C(0, 0));
    let b = cf(0., 2.);
    assert_eq!(b.inv(), cf(0., -0.5));
}

#[test]
fn ln() {
    let a = cf(0.0, 1.0);
    assert_eq!(a.ln(), cf(0.0, FRAC_PI_2));

    let a = cf(2.0, 0.0);
    assert_eq!(a.ln(), cf(LN_2, 0.0));

    let a = cf(-1.0, 0.0);
    assert_eq!(a.ln(), cf(0.0, PI));
}

#[test]
fn mod_abs() {
    let unit = cf(FRAC_1_SQRT_2, FRAC_1_SQRT_2);
    assert_eq!(cf(0.0, 1.0).abs(), F(1.0));
    assert_eq!(cf(1.0, 0.0).abs(), F(1.0));
    assert_eq!(cf(-1.0, 0.0).abs(), F(1.0));
    assert_eq!(cf(-1.0, -0.0).abs(), F(1.0));
    assert_eq!(unit.abs(), F(1.0));
}

#[test]
fn sqrt() {
    for n in (0..100).map(f64::from) {
        let n2 = n * n;
        assert!(approx(cf(n2, 0.).sqrt(), cf(n, 0.)));
        assert!(approx(cf(-n2, 0.).sqrt(), cf(0., n)));
        assert!(approx(cf(-n2, -0.).sqrt(), cf(0.0, -n)));
    }
    let z2 = cf(0.25, 0.0);
    assert_eq!(z2.sqrt(), cf(0.5, 0.));
    let all_z = [
        cf(0.0, 0.0),
        cf(1.0, 0.0),
        cf(0.0, 1.0),
        cf(-1.0, 0.0),
        cf(-1.0, 0.0),
        cf(-1.0, 0.0),
        cf(-2.0, -1.0),
        cf(FRAC_1_SQRT_2, FRAC_1_SQRT_2),
    ];
    for c in all_z {
        assert!(approx(c.conj().sqrt(), c.sqrt().conj()));
        assert!(approx(c.sqrt() * c.sqrt(), c));
        assert!(-FRAC_PI_2 <= c.sqrt().arg().0 && c.sqrt().arg().0 <= FRAC_PI_2);
    }
}

#[test]
fn powi() {
    let z1 = C(2i64, 0);
    assert_eq!(z1.powi(3), C(8, 0));
    let z2 = 2i64.i();
    assert_eq!(z2.powi(4), C(16, 0));
    let z3 = C(3i64, -5);
    assert_eq!(z3.powi(3), z3 * z3 * z3);
    let m = cf(-2.0, -1.0);
    assert_eq!(m.powi(2), m * m);
    assert_eq!(C(5i64, 10).powi(0), C(1, 0));
    assert_eq!(F(2.0).i().powi(-2), cf(-1. / 4., 0.));
}

#[test]
fn powf() {
    let m = cf(-2.0, -1.0);
    assert!(approx(m.powf(F(2.)), m * m));
    assert!(approx(m.powf(F(0.)), cf(1., 0.)));
    assert!(approx(cf(0.0, 1.0).powf(F(4.)), cf(1., 0.)))
}

#[test]
fn powc() {
    let m = cf(-2.0, -1.0);
    assert!(approx(m.powc(cf(2., 0.)), m * m));
    assert!(approx(m.powc(cf(0., 0.)), cf(1., 0.)));
    let z = cf(2.0, 0.5);
    assert!(approx(z.powc(z), cf(2.4767939208048335, 2.8290270856372506)))
}

#[test]
fn trig_consistency() {
    let z = cf(0.3, -0.7);
    assert!(approx(z.tan(), z.sin().div(z.cos())));
    assert!(approx(z.cot(), z.cos().div(z.sin())));
    assert!(approx(z.tanh(), z.sinh().div(z.cosh())));
    let (r, arg) = z.to_polar();
    assert!(approx(C::from_polar(r, arg), z));
}

#[test]
fn classify() {
    let z = cf(1.0, 2.0);
    assert!(z.is_finite());
    assert!(!z.is_infinite());
    assert!(z.is_normal());
    assert!(!z.is_nan());
    let w = cf(f64::NAN, 0.0);
    assert!(w.is_nan());
}
