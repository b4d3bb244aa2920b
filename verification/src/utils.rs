use vstd::prelude::*;

use crate::helpers::shape_product;
use crate::scalars::Arith;
use crate::{Dim, Ndarr};

verus! {

impl<T: Arith> Ndarr<T> {
    /// An array of the given shape filled with the scalar zero.
    pub fn zeros(shape: &[usize]) -> (r: Ndarr<T>)
        requires
            shape_product(shape@) <= usize::MAX,
        ensures
            r.wf(),
            r.dim.shape@ == shape@,
            forall|i: int| 0 <= i < r.data@.len() ==> r.data@[i] == T::szero(),
    {
        Ndarr::fill(T::zero(), shape)
    }

    /// An array of the given shape filled with the scalar one.
    pub fn ones(shape: &[usize]) -> (r: Ndarr<T>)
        requires
            shape_product(shape@) <= usize::MAX,
        ensures
            r.wf(),
            r.dim.shape@ == shape@,
            forall|i: int| 0 <= i < r.data@.len() ==> r.data@[i] == T::sone(),
    {
        Ndarr::fill(T::one(), shape)
    }

    /// `n` evenly spaced values from `start` toward `end`: the step is
    /// `(end - start) / (n - 1)` and each element adds it to the previous
    /// one.
    pub fn linspace(start: T, end: T, n: u16) -> (r: Ndarr<T>)
        requires
            n >= 1,
        ensures
            r.wf(),
            r.dim.shape@ =~= seq![n as usize],
            r.data@.len() == n,
            r.data@[0] == start,
            forall|i: int|
                1 <= i < n ==> #[trigger] r.data@[i] == r.data@[i - 1].sadd(
                    end.ssub(start).sdiv(T::sfrom_u16((n - 1) as u16)),
                ),
    {
        let segments = T::from_u16(n - 1);
        let dx = end.sub(start).div(segments);
        let mut data: Vec<T> = Vec::with_capacity(n as usize);
        data.push(start);
        let mut i: usize = 1;
        while i < n as usize
            invariant
                dx == end.ssub(start).sdiv(T::sfrom_u16((n - 1) as u16)),
                1 <= i <= n,
                data@.len() == i,
                data@[0] == start,
                forall|k: int| 1 <= k < i ==> #[trigger] data@[k] == data@[k - 1].sadd(dx),
            decreases n as usize - i,
        {
            let prev = data[i - 1];
            data.push(prev.add(dx));
            i += 1;
        }
        let mut shape: Vec<usize> = Vec::with_capacity(1);
        shape.push(n as usize);
        proof {
            assert(shape@ =~= seq![n as usize]);
            crate::helpers::lemma_product_singleton(n as usize);
            assert(data@.len() == n);
        }
        Ndarr { data, dim: Dim { shape } }
    }
}

impl<T: Copy> Ndarr<T> {
    /// Swaps the two halves of the array for spectrum centering: for rank 1
    /// the upper half (the larger half when odd) moves to the front; for
    /// rank 2 both the rows and the columns are shifted the same way.
    pub fn fftshif(&self) -> (r: Ndarr<T>)
        requires
            self.wf(),
            self.dim.shape@.len() == 1 || self.dim.shape@.len() == 2,
        ensures
            r.wf(),
            r.dim.shape@ == self.dim.shape@,
            r.data@.len() == self.data@.len(),
            self.dim.shape@.len() == 1 ==> r.data@ == self.data@.subrange(
                (self.data@.len() + 1) as int / 2,
                self.data@.len() as int,
            ) + self.data@.subrange(0, (self.data@.len() + 1) as int / 2),
            self.dim.shape@.len() == 2 ==> forall|i: int|
                0 <= i < r.data@.len() ==> #[trigger] r.data@[i] == self.data@[
                    {
                        let m = self.dim.shape@[0] as int;
                        let c = self.dim.shape@[1] as int;
                        ((i / c + (m + 1) / 2) % m) * c + ((i % c + (c + 1) / 2) % c)
                    }
                ],
    {
        let ghost s = self.dim.shape@;
        let n = self.data.len();
        if self.dim.shape.len() == 1 {
            let half = n / 2 + n % 2;
            proof {
                vstd::arithmetic::div_mod::lemma_fundamental_div_mod(n as int, 2);
                vstd::arithmetic::div_mod::lemma_mod_bound(n as int, 2);
                if n % 2 == 0 {
                    vstd::arithmetic::div_mod::lemma_fundamental_div_mod_converse(
                        (n + 1) as int,
                        2,
                        (n / 2) as int,
                        1,
                    );
                } else {
                    vstd::arithmetic::div_mod::lemma_fundamental_div_mod_converse(
                        (n + 1) as int,
                        2,
                        (n / 2 + 1) as int,
                        0,
                    );
                }
            }
            let mut out: Vec<T> = Vec::with_capacity(n);
            let mut i: usize = 0;
            while i < n
                invariant
                    n == self.data@.len(),
                    half == (n + 1) as int / 2,
                    half <= n,
                    0 <= i <= n,
                    out@.len() == i,
                    forall|k: int|
                        0 <= k < i ==> #[trigger] out@[k] == self.data@[
                            if k < n - half {
                                k + half
                            } else {
                                k - (n - half)
                            }
                        ],
                decreases n - i,
            {
                let v = if i < n - half {
                    self.data[i + half]
                } else {
                    self.data[i - (n - half)]
                };
                out.push(v);
                i += 1;
            }
            proof {
                let upper = self.data@.subrange((n + 1) as int / 2, n as int);
                let lower = self.data@.subrange(0, (n + 1) as int / 2);
                assert(out@ =~= upper + lower);
            }
            Ndarr { data: out, dim: Dim { shape: self.dim.shape() } }
        } else {
            if n == 0 {
                let out: Vec<T> = Vec::new();
                return Ndarr { data: out, dim: Dim { shape: self.dim.shape() } };
            }
            let m = self.dim.shape[0];
            let c = self.dim.shape[1];
            let hm = m / 2 + m % 2;
            let hc = c / 2 + c % 2;
            proof {
                crate::helpers::lemma_product_pos_extents(s);
                assert(shape_product(s) == shape_product(s.drop_last()) * s.last());
                assert(s.drop_last() =~= seq![s[0]]);
                crate::helpers::lemma_product_singleton(s[0]);
                lemma_half_round_up(m);
                lemma_half_round_up(c);
            }
            let mut out: Vec<T> = Vec::with_capacity(n);
            let mut i: usize = 0;
            while i < n
                invariant
                    self.wf(),
                    s == self.dim.shape@,
                    s.len() == 2,
                    n == self.data@.len(),
                    m == s[0],
                    c == s[1],
                    m >= 1,
                    c >= 1,
                    hm == (m + 1) as int / 2,
                    hm <= m,
                    hc == (c + 1) as int / 2,
                    hc <= c,
                    n as int == m * c,
                    0 <= i <= n,
                    out@.len() == i,
                    forall|k: int|
                        0 <= k < i ==> #[trigger] out@[k] == self.data@[((k / (c as int) + (
                        m + 1) as int / 2) % (m as int)) * (c as int) + ((k % (c as int) + (c
                            + 1) as int / 2) % (c as int))],
                decreases n - i,
            {
                let row = i / c;
                let col = i % c;
                proof {
                    vstd::arithmetic::div_mod::lemma_mod_bound(i as int, c as int);
                    vstd::arithmetic::div_mod::lemma_div_pos_is_pos(i as int, c as int);
                    assert(i < m * c);
                    assert((i as int) < (c as int) * (m as int)) by (nonlinear_arith)
                        requires (i as int) < (m as int) * (c as int);
                    vstd::arithmetic::div_mod::lemma_multiply_divide_lt(
                        i as int,
                        c as int,
                        m as int,
                    );
                }
                let shifted_row = if row >= m - hm {
                    row - (m - hm)
                } else {
                    row + hm
                };
                let shifted_col = if col >= c - hc {
                    col - (c - hc)
                } else {
                    col + hc
                };
                proof {
                    lemma_shift_mod(row as int, hm as int, m as int);
                    lemma_shift_mod(col as int, hc as int, c as int);
                    assert(shifted_row as int == (row + (m + 1) as int / 2) % (m as int));
                    assert(shifted_col as int == (col + (c + 1) as int / 2) % (c as int));
                    assert(shifted_row as int * c as int + shifted_col < m * c && shifted_row
                        as int * c as int <= (m as int - 1) * (c as int)) by (nonlinear_arith)
                        requires
                            0 <= shifted_row as int <= m as int - 1,
                            0 <= shifted_col < c as int,
                            m >= 1,
                            c >= 1,
                    ;
                }
                let src = shifted_row * c + shifted_col;
                out.push(self.data[src]);
                i += 1;
            }
            Ndarr { data: out, dim: Dim { shape: self.dim.shape() } }
        }
    }
}

/// Half of `x`, rounded up, equals `(x + 1) / 2`.
proof fn lemma_half_round_up(x: usize)
    ensures
        x / 2 + x % 2 == (x + 1) as int / 2,
        x / 2 + x % 2 <= x,
{
    vstd::arithmetic::div_mod::lemma_fundamental_div_mod(x as int, 2);
    vstd::arithmetic::div_mod::lemma_mod_bound(x as int, 2);
    if x % 2 == 0 {
        vstd::arithmetic::div_mod::lemma_fundamental_div_mod_converse(
            (x + 1) as int,
            2,
            (x / 2) as int,
            1,
        );
    } else {
        vstd::arithmetic::div_mod::lemma_fundamental_div_mod_converse(
            (x + 1) as int,
            2,
            (x / 2 + 1) as int,
            0,
        );
    }
}

/// Adding a shift below the modulus to a value below the modulus wraps at
/// most once.
proof fn lemma_shift_mod(v: int, h: int, m: int)
    requires
        0 <= v < m,
        0 <= h <= m,
    ensures
        (v + h) % m == if v >= m - h {
            v - (m - h)
        } else {
            v + h
        },
{
    if v >= m - h {
        vstd::arithmetic::div_mod::lemma_mod_add_multiples_vanish(v + h - m, m);
        vstd::arithmetic::div_mod::lemma_small_mod((v + h - m) as nat, m as nat);
    } else {
        vstd::arithmetic::div_mod::lemma_small_mod((v + h) as nat, m as nat);
    }
}

} // verus!
