use vstd::prelude::*;
use vstd::arithmetic::div_mod::{
    lemma_div_pos_is_pos, lemma_fundamental_div_mod_converse, lemma_mod_bound,
    lemma_multiply_divide_lt,
};

use crate::errors::DimError;
use crate::helpers::{lemma_product_pos_extents, shape_product};
use crate::shape::{
    broadcast_compatible, broadcast_shape_spec, clamp_index, flat_of, index_of,
    lemma_broadcast_identity, lemma_flat_bounds, lemma_flat_of_index_of, lemma_index_of_flat_of,
    lemma_rev_cast_identity, pad_left_spec, rev_cast_spec, valid_index,
};
use crate::{axis_items, reduces_to, spec_fold, Dim, Ndarr};

verus! {

/// A run of `j` axes of extent 1.
pub open spec fn ones_spec(j: int) -> Seq<usize> {
    Seq::new(j as nat, |_k: int| 1usize)
}

/// A multi-index has one component per axis.
pub proof fn lemma_index_of_len(s: Seq<usize>, n: int)
    ensures
        index_of(s, n).len() == s.len(),
    decreases s.len(),
{
    if s.len() > 0 {
        lemma_index_of_len(s.drop_last(), n / (s.last() as int));
    }
}

/// Padding a shape on the left with extent-1 axes keeps the element count,
/// and the multi-index of any position keeps its trailing components.
pub proof fn lemma_pad_left_parts(s: Seq<usize>, k: int, n: int)
    requires
        s.len() <= k,
        0 <= n < shape_product(s),
    ensures
        shape_product(pad_left_spec(s, k)) == shape_product(s),
        index_of(pad_left_spec(s, k), n).subrange(k - s.len(), k) == index_of(s, n),
    decreases k,
{
    let pad = pad_left_spec(s, k);
    if k == 0 {
        assert(pad =~= Seq::<usize>::empty());
        assert(index_of(pad, n).subrange(0, 0) =~= index_of(s, n));
    } else if s.len() == 0 {
        assert(pad.drop_last() =~= pad_left_spec(s, k - 1));
        assert(pad.last() == 1);
        assert(n / 1 == n && n % 1 == 0) by (nonlinear_arith);
        lemma_pad_left_parts(s, k - 1, n);
        lemma_index_of_len(pad, n);
        assert(index_of(pad, n) == index_of(pad_left_spec(s, k - 1), n).push(0));
        assert(index_of(pad, n).subrange(k, k) =~= index_of(s, n));
    } else {
        let sf = s.drop_last();
        let e = s.last() as int;
        lemma_product_pos_extents(s);
        lemma_mod_bound(n, e);
        lemma_div_pos_is_pos(n, e);
        assert(n < e * shape_product(sf)) by (nonlinear_arith)
            requires n < shape_product(sf) * e;
        lemma_multiply_divide_lt(n, e, shape_product(sf));
        assert(pad.drop_last() =~= pad_left_spec(sf, k - 1));
        assert(pad.last() == s.last());
        lemma_pad_left_parts(sf, k - 1, n / e);
        lemma_index_of_len(pad_left_spec(sf, k - 1), n / e);
        assert(index_of(pad, n) == index_of(pad_left_spec(sf, k - 1), n / e).push(
            (n % e) as usize,
        ));
        assert(index_of(pad, n).subrange(k - s.len(), k) =~= index_of(sf, n / e).push(
            (n % e) as usize,
        ));
        assert(index_of(s, n) == index_of(sf, n / e).push((n % e) as usize));
    }
}

/// The broadcast of the padded shape reads each position of a left-padded
/// operand from that same position: the reverse cast is the identity on
/// flat positions.
pub proof fn lemma_rev_cast_pad(s: Seq<usize>, k: int, n: int)
    requires
        s.len() <= k,
        0 <= n < shape_product(s),
    ensures
        shape_product(pad_left_spec(s, k)) == shape_product(s),
        rev_cast_spec(s, index_of(pad_left_spec(s, k), n)) == n,
{
    lemma_pad_left_parts(s, k, n);
    let pad = pad_left_spec(s, k);
    lemma_flat_of_index_of(pad, n);
    let idx = index_of(pad, n);
    assert(idx.len() == k);
    assert(pad_left_spec(s, idx.len() as int) =~= pad);
    assert(clamp_index(pad, idx) =~= idx);
    assert(clamp_index(pad, idx).subrange(k - s.len(), k) == idx.subrange(k - s.len(), k));
    lemma_flat_of_index_of(s, n);
}

/// A shape is broadcast-compatible with its own left padding, and the
/// broadcast is the padding itself.
pub proof fn lemma_pad_compat(s: Seq<usize>, k: int)
    requires
        s.len() <= k,
    ensures
        broadcast_compatible(s, pad_left_spec(s, k)),
        broadcast_shape_spec(s, pad_left_spec(s, k)) == pad_left_spec(s, k),
{
    let pad = pad_left_spec(s, k);
    let l = crate::shape::broadcast_rank(s, pad);
    assert(l == k);
    assert forall|j: int| 0 <= j < l implies #[trigger] crate::shape::aligned_extent(s, l, j)
        == crate::shape::aligned_extent(pad, l, j) by {
        assert(pad[j] == if j < k - s.len() {
            1usize
        } else {
            s[j - (k - s.len())]
        });
    }
    assert(broadcast_shape_spec(s, pad) =~= pad);
}

/// Appending extent-1 axes on the right keeps the element count and the
/// leading components of every multi-index; flat positions are unchanged.
pub proof fn lemma_pad_right_index(s: Seq<usize>, k: int, n: int)
    requires
        s.len() <= k,
        0 <= n < shape_product(s),
    ensures
        shape_product(s + ones_spec(k - s.len())) == shape_product(s),
        index_of(s + ones_spec(k - s.len()), n).take(s.len() as int) == index_of(s, n),
    decreases k - s.len(),
{
    let j = k - s.len();
    if j == 0 {
        assert(s + ones_spec(0) =~= s);
        lemma_index_of_len(s, n);
        assert(index_of(s, n).take(s.len() as int) =~= index_of(s, n));
    } else {
        let prev = s + ones_spec(j - 1);
        let cur = s + ones_spec(j);
        assert(cur.drop_last() =~= prev);
        assert(cur.last() == 1);
        assert(n / 1 == n && n % 1 == 0) by (nonlinear_arith);
        lemma_pad_right_index(s, k - 1, n);
        lemma_index_of_len(prev, n);
        assert(index_of(cur, n) == index_of(prev, n).push(0));
        assert(index_of(cur, n).take(s.len() as int) =~= index_of(prev, n).take(s.len() as int));
    }
}

impl<T: Copy> Ndarr<T> {
    /// The array with extent-1 axes appended until it has rank `k`, its
    /// buffer unchanged: transpose, pad the reversed shape on the left,
    /// materialize, transpose back.
    #[verifier::rlimit(80)]
    #[verifier::spinoff_prover]
    fn pad_to_rank(&self, k: usize) -> (r: Ndarr<T>)
        requires
            self.wf(),
            self.dim.shape@.len() <= k,
        ensures
            r.wf(),
            r.dim.shape@ == self.dim.shape@ + ones_spec(k - self.dim.shape@.len()),
            r.data@ == self.data@,
    {
        let ghost s1 = self.dim.shape@;
        let ghost r1 = s1.len() as int;
        let ghost rs1 = s1.reverse();
        let ghost pads = pad_left_spec(rs1, k as int);
        let b = self.t();
        let padded = match b.dim.path_shape(k) {
            Ok(d) => d,
            Err(_) => {
                proof {
                    assert(false);
                }
                Dim { shape: Vec::new() }
            },
        };
        proof {
            crate::lemma_product_reverse(s1);
            lemma_pad_compat(rs1, k as int);
            if shape_product(rs1) > 0 {
                lemma_rev_cast_pad(rs1, k as int, 0);
            } else {
                lemma_zero_product_pad(rs1, k as int);
            }
        }
        let bdata = match b.broadcast_data(padded.shape.as_slice()) {
            Ok(v) => v,
            Err(_) => {
                proof {
                    assert(false);
                }
                Vec::new()
            },
        };
        proof {
            assert forall|i: int| 0 <= i < bdata@.len() implies #[trigger] bdata@[i]
                == b.data@[i] by {
                lemma_rev_cast_pad(rs1, k as int, i);
            }
        }
        let mid = Ndarr { data: bdata, dim: padded };
        let c = mid.t();
        proof {
            let ghost ks = s1 + ones_spec(k - r1);
            assert(pads.reverse() =~= ks);
            assert(c.dim.shape@ == ks);
            assert forall|p: int| 0 <= p < c.data@.len() implies #[trigger] c.data@[p]
                == self.data@[p] by {
                crate::lemma_product_reverse(pads);
                lemma_flat_of_index_of(ks, p);
                let idx = index_of(ks, p);
                crate::lemma_valid_index_reverse(ks, idx);
                assert(ks.reverse() =~= pads);
                let q = flat_of(pads, idx.reverse());
                lemma_flat_bounds(pads, idx.reverse());
                assert(c.data@[p] == mid.data@[q]);
                assert(mid.data@[q] == b.data@[q]);
                assert(b.data@[q] == self.data@[flat_of(s1, index_of(rs1, q).reverse())]);
                lemma_index_of_flat_of(pads, idx.reverse());
                assert(index_of(pads, q) == idx.reverse());
                lemma_pad_left_parts(rs1, k as int, q);
                assert(index_of(rs1, q) == idx.reverse().subrange(k - r1, k as int));
                assert(idx.reverse().subrange(k - r1, k as int) =~= idx.take(r1).reverse());
                assert(index_of(rs1, q).reverse() =~= idx.take(r1));
                lemma_pad_right_index(s1, k as int, p);
                assert(idx.take(r1) == index_of(s1, p));
                lemma_flat_of_index_of(s1, p);
            }
            assert(c.data@ =~= self.data@);
        }
        c
    }
}

/// Left padding keeps the element count.
pub proof fn lemma_pad_left_product(s: Seq<usize>, k: int)
    requires
        s.len() <= k,
    ensures
        shape_product(pad_left_spec(s, k)) == shape_product(s),
{
    crate::helpers::lemma_product_nonneg(s);
    if shape_product(s) > 0 {
        lemma_pad_left_parts(s, k, 0);
    } else {
        lemma_zero_product_pad(s, k);
    }
}

/// The left operand's shape inside the outer-product pipeline: the original
/// shape with the other operand's rank appended as extent-1 axes.
pub open spec fn outer_shape1(s1: Seq<usize>, s2: Seq<usize>) -> Seq<usize> {
    s1 + ones_spec(s2.len() as int)
}

/// The right operand's shape inside the outer-product pipeline: padded on
/// the left to the combined rank.
pub open spec fn outer_shape2(s1: Seq<usize>, s2: Seq<usize>) -> Seq<usize> {
    pad_left_spec(s2, s1.len() + s2.len() as int)
}

/// The shapes of an outer product's operands once padded to the combined
/// rank `rank(a) + rank(b)`, and the conditions under which the pipeline
/// runs: the padded shapes broadcast, the result fits in memory, and an
/// operand without elements forces an empty result.
pub open spec fn outer_req(s1: Seq<usize>, s2: Seq<usize>) -> bool {
    &&& s1.len() + s2.len() <= usize::MAX
    &&& broadcast_compatible(outer_shape1(s1, s2), outer_shape2(s1, s2))
    &&& shape_product(broadcast_shape_spec(outer_shape1(s1, s2), outer_shape2(s1, s2)))
        <= usize::MAX
    &&& (shape_product(s1) == 0 ==> shape_product(
        broadcast_shape_spec(outer_shape1(s1, s2), outer_shape2(s1, s2)),
    ) == 0)
    &&& (shape_product(s2) == 0 ==> shape_product(
        broadcast_shape_spec(outer_shape1(s1, s2), outer_shape2(s1, s2)),
    ) == 0)
}

/// The left operand's shape inside the contraction pipeline (inner product
/// and matrix multiplication): padded on the trailing side to the
/// intermediate rank `rank(a) + rank(b) - 1`.
pub open spec fn contract_shape1(s1: Seq<usize>, s2: Seq<usize>) -> Seq<usize> {
    s1 + ones_spec(s2.len() - 1)
}

/// The right operand's shape inside the contraction pipeline: padded on the
/// left to the intermediate rank.
pub open spec fn contract_shape2(s1: Seq<usize>, s2: Seq<usize>) -> Seq<usize> {
    pad_left_spec(s2, s1.len() + s2.len() - 1)
}

/// The broadcast of the two padded operands: the intermediate shape the
/// contraction combines elementwise before reducing.
pub open spec fn contract_bshape(s1: Seq<usize>, s2: Seq<usize>) -> Seq<usize> {
    broadcast_shape_spec(contract_shape1(s1, s2), contract_shape2(s1, s2))
}

/// When the contraction pipeline runs: both operands have rank at least 1,
/// the padded shapes broadcast, the intermediate fits in memory, an operand
/// without elements forces an empty intermediate, and the contracted axis
/// `rank(a) - 1` is not empty.
pub open spec fn contract_req(s1: Seq<usize>, s2: Seq<usize>) -> bool {
    &&& s1.len() >= 1
    &&& s2.len() >= 1
    &&& s1.len() + s2.len() - 1 <= usize::MAX
    &&& broadcast_compatible(contract_shape1(s1, s2), contract_shape2(s1, s2))
    &&& shape_product(contract_bshape(s1, s2)) <= usize::MAX
    &&& (shape_product(s1) == 0 ==> shape_product(contract_bshape(s1, s2)) == 0)
    &&& (shape_product(s2) == 0 ==> shape_product(contract_bshape(s1, s2)) == 0)
    &&& contract_bshape(s1, s2)[s1.len() - 1] >= 1
}

impl<T: Copy> Ndarr<T> {
    /// Generalized outer product: pads both operands to rank
    /// `rank(a) + rank(b)`, broadcasts them to their common shape and
    /// combines elementwise with `f`. Every pairing of an element of `a`
    /// with an element of `b` appears exactly once.
    pub fn outer_product<T2: Copy, T3: Copy, F: Fn(T, T2) -> T3>(
        &self,
        other: &Ndarr<T2>,
        f: F,
    ) -> (r: Ndarr<T3>)
        requires
            self.wf(),
            other.wf(),
            outer_req(self.dim.shape@, other.dim.shape@),
            forall|i: int|
                0 <= i < shape_product(
                    broadcast_shape_spec(
                        outer_shape1(self.dim.shape@, other.dim.shape@),
                        outer_shape2(self.dim.shape@, other.dim.shape@),
                    ),
                ) ==> call_requires(
                    f,
                    (
                        bcast_elem(
                            outer_shape1(self.dim.shape@, other.dim.shape@),
                            self.data@,
                            broadcast_shape_spec(
                                outer_shape1(self.dim.shape@, other.dim.shape@),
                                outer_shape2(self.dim.shape@, other.dim.shape@),
                            ),
                            i,
                        ),
                        bcast_elem(
                            outer_shape2(self.dim.shape@, other.dim.shape@),
                            other.data@,
                            broadcast_shape_spec(
                                outer_shape1(self.dim.shape@, other.dim.shape@),
                                outer_shape2(self.dim.shape@, other.dim.shape@),
                            ),
                            i,
                        ),
                    ),
                ),
        ensures
            r.wf(),
            r.dim.shape@ == broadcast_shape_spec(
                outer_shape1(self.dim.shape@, other.dim.shape@),
                outer_shape2(self.dim.shape@, other.dim.shape@),
            ),
            forall|i: int|
                0 <= i < r.data@.len() ==> call_ensures(
                    f,
                    (
                        bcast_elem(
                            outer_shape1(self.dim.shape@, other.dim.shape@),
                            self.data@,
                            broadcast_shape_spec(
                                outer_shape1(self.dim.shape@, other.dim.shape@),
                                outer_shape2(self.dim.shape@, other.dim.shape@),
                            ),
                            i,
                        ),
                        bcast_elem(
                            outer_shape2(self.dim.shape@, other.dim.shape@),
                            other.data@,
                            broadcast_shape_spec(
                                outer_shape1(self.dim.shape@, other.dim.shape@),
                                outer_shape2(self.dim.shape@, other.dim.shape@),
                            ),
                            i,
                        ),
                    ),
                    #[trigger] r.data@[i],
                ),
    {
        let ghost s1 = self.dim.shape@;
        let ghost s2 = other.dim.shape@;
        let k = self.dim.shape.len() + other.dim.shape.len();
        let arr1 = self.pad_to_rank(k);
        let arr2 = pad_left_exec(other, k);
        let r = match arr1.poly_dyadic(&arr2, f) {
            Ok(c) => c,
            Err(_) => {
                proof {
                    assert(false);
                }
                Ndarr { data: Vec::new(), dim: Dim { shape: Vec::new() } }
            },
        };
        r
    }

    /// Generalized inner product: pads both operands to the intermediate
    /// rank `rank(a) + rank(b) - 1`, combines them elementwise with `f`
    /// after broadcasting, then folds the contracted axis `rank(a) - 1` with
    /// `g`, strictly left to right. The contract names the intermediate
    /// combined buffer: each of its elements is an `f`-combination of the
    /// broadcast operands, and each output element is a `g`-fold of one of
    /// its columns.
    pub fn inner_product<T2: Copy, T3: Copy, F: Fn(T, T2) -> T3, G: Fn(T3, T3) -> T3>(
        &self,
        other: &Ndarr<T2>,
        f: F,
        g: G,
    ) -> (r: Ndarr<T3>)
        requires
            self.wf(),
            other.wf(),
            contract_req(self.dim.shape@, other.dim.shape@),
            forall|i: int|
                0 <= i < shape_product(contract_bshape(self.dim.shape@, other.dim.shape@))
                    ==> call_requires(
                    f,
                    (
                        bcast_elem(
                            contract_shape1(self.dim.shape@, other.dim.shape@),
                            self.data@,
                            contract_bshape(self.dim.shape@, other.dim.shape@),
                            i,
                        ),
                        bcast_elem(
                            contract_shape2(self.dim.shape@, other.dim.shape@),
                            other.data@,
                            contract_bshape(self.dim.shape@, other.dim.shape@),
                            i,
                        ),
                    ),
                ),
            forall|x: T3, y: T3| call_requires(g, (x, y)),
        ensures
            r.wf(),
            r.dim.shape@ == contract_bshape(self.dim.shape@, other.dim.shape@).remove(
                self.dim.shape@.len() - 1,
            ),
            r.data@.len() == shape_product(
                contract_bshape(self.dim.shape@, other.dim.shape@).remove(
                    self.dim.shape@.len() - 1,
                ),
            ),
            exists|c: Seq<T3>|
                {
                    &&& c.len() == shape_product(
                        contract_bshape(self.dim.shape@, other.dim.shape@),
                    )
                    &&& (forall|i: int|
                        0 <= i < c.len() ==> call_ensures(
                            f,
                            (
                                bcast_elem(
                                    contract_shape1(self.dim.shape@, other.dim.shape@),
                                    self.data@,
                                    contract_bshape(self.dim.shape@, other.dim.shape@),
                                    i,
                                ),
                                bcast_elem(
                                    contract_shape2(self.dim.shape@, other.dim.shape@),
                                    other.data@,
                                    contract_bshape(self.dim.shape@, other.dim.shape@),
                                    i,
                                ),
                            ),
                            #[trigger] c[i],
                        ))
                    &&& (forall|j: int|
                        0 <= j < r.data@.len() ==> reduces_to(
                            g,
                            axis_items(
                                contract_bshape(self.dim.shape@, other.dim.shape@),
                                c,
                                self.dim.shape@.len() - 1,
                                j,
                            ),
                            #[trigger] r.data@[j],
                        ))
                },
    {
        let ghost s1 = self.dim.shape@;
        let ghost s2 = other.dim.shape@;
        let r1 = self.dim.shape.len();
        let k = r1 + (other.dim.shape.len() - 1);
        let arr1 = self.pad_to_rank(k);
        let arr2 = pad_left_exec(other, k);
        let c = match arr1.poly_dyadic(&arr2, f) {
            Ok(c) => c,
            Err(_) => {
                proof {
                    assert(false);
                }
                Ndarr { data: Vec::new(), dim: Dim { shape: Vec::new() } }
            },
        };
        let out = match c.reduce(r1 - 1, g) {
            Ok(o) => o,
            Err(_) => {
                proof {
                    assert(false);
                }
                Ndarr { data: Vec::new(), dim: Dim { shape: Vec::new() } }
            },
        };
        proof {
            let ghost cdata = c.data@;
            assert(c.data@.len() == shape_product(contract_bshape(s1, s2)));
        }
        out
    }
}

/// The spec-level wrapping addition on `i64`, as one named function value so
/// that contracts and laws speak of the same fold.
pub open spec fn wrap_add_fn() -> spec_fn(i64, i64) -> i64 {
    |x: i64, y: i64| vstd::wrapping::i64_specs::wrapping_add(x, y)
}

/// One product term of the matrix multiplication: the wrapping product of
/// the two broadcast operand elements at position `p` of the intermediate
/// shape.
pub open spec fn mat_mul_prod_elem(
    s1: Seq<usize>,
    a: Seq<i64>,
    s2: Seq<usize>,
    b: Seq<i64>,
    p: int,
) -> i64 {
    vstd::wrapping::i64_specs::wrapping_mul(
        bcast_elem(contract_shape1(s1, s2), a, contract_bshape(s1, s2), p),
        bcast_elem(contract_shape2(s1, s2), b, contract_bshape(s1, s2), p),
    )
}

/// The whole intermediate buffer of products, position by position.
pub open spec fn mat_mul_combined(
    s1: Seq<usize>,
    a: Seq<i64>,
    s2: Seq<usize>,
    b: Seq<i64>,
) -> Seq<i64> {
    Seq::new(
        shape_product(contract_bshape(s1, s2)) as nat,
        |p: int| mat_mul_prod_elem(s1, a, s2, b, p),
    )
}

/// Output element `j` of the matrix multiplication: the left fold, under
/// wrapping addition, of the product column through `j` along the
/// contracted axis `rank(a) - 1`.
pub open spec fn mat_mul_elem(
    s1: Seq<usize>,
    a: Seq<i64>,
    s2: Seq<usize>,
    b: Seq<i64>,
    j: int,
) -> i64 {
    spec_fold(
        axis_items(
            contract_bshape(s1, s2),
            mat_mul_combined(s1, a, s2, b),
            s1.len() - 1,
            j,
        ),
        wrap_add_fn(),
    )
}

/// Reduce/mat-mul consistency: whatever the generic `inner_product`
/// pipeline returns when run with operators pinned to wrapping multiply and
/// wrapping add is exactly `mat_mul`'s result, element by element. `c` is
/// the intermediate combined buffer and `ri` the result, as
/// `inner_product`'s contract describes them.
pub proof fn lemma_inner_product_mat_mul_consistency<
    F: Fn(i64, i64) -> i64,
    G: Fn(i64, i64) -> i64,
>(
    s1: Seq<usize>,
    a: Seq<i64>,
    s2: Seq<usize>,
    b: Seq<i64>,
    c: Seq<i64>,
    ri: Seq<i64>,
    f: F,
    g: G,
)
    requires
        contract_req(s1, s2),
        c.len() == shape_product(contract_bshape(s1, s2)),
        forall|i: int|
            0 <= i < c.len() ==> call_ensures(
                f,
                (
                    bcast_elem(contract_shape1(s1, s2), a, contract_bshape(s1, s2), i),
                    bcast_elem(contract_shape2(s1, s2), b, contract_bshape(s1, s2), i),
                ),
                #[trigger] c[i],
            ),
        forall|j: int|
            0 <= j < ri.len() ==> reduces_to(
                g,
                axis_items(contract_bshape(s1, s2), c, s1.len() - 1, j),
                #[trigger] ri[j],
            ),
        forall|x: i64, y: i64, z: i64|
            call_ensures(f, (x, y), z) ==> z == vstd::wrapping::i64_specs::wrapping_mul(x, y),
        forall|x: i64, y: i64, z: i64|
            call_ensures(g, (x, y), z) ==> z == vstd::wrapping::i64_specs::wrapping_add(x, y),
    ensures
        forall|j: int| 0 <= j < ri.len() ==> #[trigger] ri[j] == mat_mul_elem(s1, a, s2, b, j),
{
    let bs = contract_bshape(s1, s2);
    let comb = mat_mul_combined(s1, a, s2, b);
    assert(c =~= comb);
    assert forall|j: int| 0 <= j < ri.len() implies #[trigger] ri[j] == mat_mul_elem(
        s1,
        a,
        s2,
        b,
        j,
    ) by {
        let items = axis_items(bs, comb, s1.len() - 1, j);
        assert(reduces_to(g, items, ri[j]));
        crate::lemma_reduces_to_deterministic(g, wrap_add_fn(), items, ri[j]);
    }
}

impl Ndarr<i64> {
    /// Matrix multiplication, generalized to arbitrary rank: pads both
    /// operands to the intermediate rank, multiplies elementwise after
    /// broadcasting and sums along the contracted axis `rank(a) - 1`.
    /// Arithmetic wraps on overflow. Equals `inner_product` with multiply
    /// and add, which the consistency law states in general.
    pub fn mat_mul(&self, other: &Ndarr<i64>) -> (r: Ndarr<i64>)
        requires
            self.wf(),
            other.wf(),
            contract_req(self.dim.shape@, other.dim.shape@),
        ensures
            r.wf(),
            r.dim.shape@ == contract_bshape(self.dim.shape@, other.dim.shape@).remove(
                self.dim.shape@.len() - 1,
            ),
            r.data@.len() == shape_product(
                contract_bshape(self.dim.shape@, other.dim.shape@).remove(
                    self.dim.shape@.len() - 1,
                ),
            ),
            forall|j: int|
                0 <= j < r.data@.len() ==> #[trigger] r.data@[j] == mat_mul_elem(
                    self.dim.shape@,
                    self.data@,
                    other.dim.shape@,
                    other.data@,
                    j,
                ),
    {
        let ghost s1 = self.dim.shape@;
        let ghost s2 = other.dim.shape@;
        let mul_op = |x: i64, y: i64| -> (r: i64)
            ensures
                r == vstd::wrapping::i64_specs::wrapping_mul(x, y),
            { x.wrapping_mul(y) };
        let add_op = |x: i64, y: i64| -> (r: i64)
            ensures
                r == vstd::wrapping::i64_specs::wrapping_add(x, y),
            { x.wrapping_add(y) };
        let out = self.inner_product(other, mul_op, add_op);
        proof {
            let c = choose|c: Seq<i64>|
                {
                    &&& c.len() == shape_product(contract_bshape(s1, s2))
                    &&& (forall|i: int|
                        0 <= i < c.len() ==> call_ensures(
                            mul_op,
                            (
                                bcast_elem(contract_shape1(s1, s2), self.data@, contract_bshape(s1, s2), i),
                                bcast_elem(contract_shape2(s1, s2), other.data@, contract_bshape(s1, s2), i),
                            ),
                            #[trigger] c[i],
                        ))
                    &&& (forall|j: int|
                        0 <= j < out.data@.len() ==> reduces_to(
                            add_op,
                            axis_items(contract_bshape(s1, s2), c, s1.len() - 1, j),
                            #[trigger] out.data@[j],
                        ))
                };
            lemma_inner_product_mat_mul_consistency(
                s1,
                self.data@,
                s2,
                other.data@,
                c,
                out.data@,
                mul_op,
                add_op,
            );
        }
        out
    }
}

/// On rank-2 operands the contraction pipeline computes the textbook matrix
/// product: output row `j / p`, column `j % p` is the left fold, under
/// wrapping addition, over `t` of `a[row, t] * b[t, col]`. This settles, for
/// the rank-2 case, that reducing the broadcast intermediate along axis
/// `rank(a) - 1` is the right contraction.
pub proof fn lemma_mat_mul_rank2(
    m: usize,
    k: usize,
    p: usize,
    a: Seq<i64>,
    b: Seq<i64>,
    j: int,
)
    requires
        m >= 1,
        k >= 1,
        p >= 1,
        a.len() == m * k,
        b.len() == k * p,
        0 <= j < m * p,
    ensures
        mat_mul_elem(seq![m, k], a, seq![k, p], b, j) == spec_fold(
            Seq::new(
                k as nat,
                |t: int|
                    vstd::wrapping::i64_specs::wrapping_mul(
                        a[(j / (p as int)) * k + t],
                        b[t * p + (j % (p as int))],
                    ),
            ),
            wrap_add_fn(),
        ),
{
    let s1 = seq![m, k];
    let s2 = seq![k, p];
    let bs = contract_bshape(s1, s2);
    let items = axis_items(bs, mat_mul_combined(s1, a, s2, b), 1, j);
    lemma_rank2_shapes(m, k, p);
    assert(items.len() == k);
    assert forall|t: int| 0 <= t < k implies #[trigger] items[t]
        == vstd::wrapping::i64_specs::wrapping_mul(
        a[(j / (p as int)) * k + t],
        b[t * p + (j % (p as int))],
    ) by {
        lemma_rank2_entry(m, k, p, a, b, j, t);
    }
    assert(items =~= Seq::new(
        k as nat,
        |t: int|
            vstd::wrapping::i64_specs::wrapping_mul(
                a[(j / (p as int)) * k + t],
                b[t * p + (j % (p as int))],
            ),
    ));
}

/// The padded and broadcast shapes of a rank-2 contraction, written out.
proof fn lemma_rank2_shapes(m: usize, k: usize, p: usize)
    requires
        m >= 1,
        k >= 1,
        p >= 1,
    ensures
        contract_shape1(seq![m, k], seq![k, p]) == seq![m, k, 1usize],
        contract_shape2(seq![m, k], seq![k, p]) == seq![1usize, k, p],
        contract_bshape(seq![m, k], seq![k, p]) == seq![m, k, p],
        shape_product(contract_bshape(seq![m, k], seq![k, p])) == m * k * p,
{
    reveal_with_fuel(crate::helpers::shape_product, 5);
    let s1 = seq![m, k];
    let s2 = seq![k, p];
    let cs1 = contract_shape1(s1, s2);
    let cs2 = contract_shape2(s1, s2);
    assert(cs1 =~= seq![m, k, 1usize]);
    assert(cs2 =~= seq![1usize, k, p]);
    assert forall|w: int| 0 <= w < 3 implies #[trigger] broadcast_shape_spec(cs1, cs2)[w]
        == seq![m, k, p][w] by {
        assert(crate::shape::aligned_extent(cs1, 3, w) == cs1[w]);
        assert(crate::shape::aligned_extent(cs2, 3, w) == cs2[w]);
    }
    assert(contract_bshape(s1, s2) =~= seq![m, k, p]);
    assert(seq![m, k, p].drop_last() =~= seq![m, k]);
    assert(seq![m, k].drop_last() =~= seq![m]);
    assert(seq![m, k, p].last() == p);
    assert(seq![m, k].last() == k);
    crate::helpers::lemma_product_singleton(m);
    assert(shape_product(seq![m, k]) == m * k);
    assert(shape_product(seq![m, k, p]) == (m * k) * p);
    assert((m * k) * p == m * k * p) by (nonlinear_arith);
}

/// One product term of a rank-2 contraction: the `t`-th item of the column
/// through output position `j` is the wrapping product of `a[row, t]` and
/// `b[t, col]`.
#[verifier::spinoff_prover]
#[verifier::rlimit(80)]
proof fn lemma_rank2_entry(
    m: usize,
    k: usize,
    p: usize,
    a: Seq<i64>,
    b: Seq<i64>,
    j: int,
    t: int,
)
    requires
        m >= 1,
        k >= 1,
        p >= 1,
        a.len() == m * k,
        b.len() == k * p,
        0 <= j < m * p,
        0 <= t < k,
    ensures
        axis_items(
            contract_bshape(seq![m, k], seq![k, p]),
            mat_mul_combined(seq![m, k], a, seq![k, p], b),
            1,
            j,
        )[t] == vstd::wrapping::i64_specs::wrapping_mul(
            a[(j / (p as int)) * k + t],
            b[t * p + (j % (p as int))],
        ),
{
    reveal_with_fuel(crate::shape::flat_of, 5);
    reveal_with_fuel(crate::shape::index_of, 5);
    let s1 = seq![m, k];
    let s2 = seq![k, p];
    let cs1 = contract_shape1(s1, s2);
    let cs2 = contract_shape2(s1, s2);
    let bs = contract_bshape(s1, s2);
    lemma_rank2_shapes(m, k, p);
    let os = bs.remove(1);
    assert(os =~= seq![m, p]);
    let pi = p as int;
    let row = j / pi;
    let col = j % pi;
    lemma_mod_bound(j, pi);
    lemma_div_pos_is_pos(j, pi);
    assert((m as int) * pi == pi * (m as int)) by (nonlinear_arith);
    lemma_multiply_divide_lt(j, pi, m as int);
    // The output index of position `j` is the pair (row, col).
    assert(seq![m, p].drop_last() =~= seq![m]);
    assert(seq![m].drop_last() =~= Seq::<usize>::empty());
    assert(seq![m, p].last() == p);
    assert(seq![m].last() == m);
    lemma_fundamental_div_mod_converse_pair(row, m as int);
    assert(index_of(seq![m], row) =~= seq![row as usize]);
    assert(index_of(os, j) =~= seq![row as usize, col as usize]);
    let idx_out = seq![row as usize, col as usize];
    let items = axis_items(bs, mat_mul_combined(s1, a, s2, b), 1, j);
    let idx3 = idx_out.insert(1, t as usize);
    assert(idx3 =~= seq![row as usize, t as usize, col as usize]);
    assert(index_of(os, j) == idx_out);
    let q = flat_of(bs, idx3);
    // Horner evaluation of the flat position.
    assert(idx3.drop_last() =~= seq![row as usize, t as usize]);
    assert(seq![row as usize, t as usize].drop_last() =~= seq![row as usize]);
    assert(seq![row as usize].drop_last() =~= Seq::<usize>::empty());
    assert(idx3.last() == col as usize);
    assert(seq![row as usize, t as usize].last() == t as usize);
    assert(seq![row as usize].last() == row as usize);
    assert(seq![m, k, p].drop_last() =~= seq![m, k]);
    assert(seq![m, k].drop_last() =~= seq![m]);
    assert(seq![m, k, p].last() == p);
    assert(seq![m, k].last() == k);
    assert(q == (row * k + t) * pi + col);
    assert(0 <= (row * k + t) * pi + col < m * k * p) by (nonlinear_arith)
        requires
            0 <= row < m,
            0 <= t < k,
            0 <= col < pi,
            pi == p,
            m >= 1 && k >= 1 && p >= 1,
    ;
    assert(items[t] == mat_mul_combined(s1, a, s2, b)[q]);
    assert(mat_mul_combined(s1, a, s2, b)[q] == mat_mul_prod_elem(s1, a, s2, b, q));
    assert(valid_index(bs, idx3));
    lemma_index_of_flat_of(bs, idx3);
    assert(index_of(bs, q) == idx3);
    // The left operand reads row `row`, inner position `t`.
    assert(pad_left_spec(cs1, 3) =~= cs1);
    let c1 = clamp_index(cs1, idx3);
    assert(c1 =~= seq![row as usize, t as usize, 0usize]);
    assert(c1.subrange(0, 3) =~= c1);
    assert(c1.drop_last() =~= seq![row as usize, t as usize]);
    assert(c1.last() == 0usize);
    assert(cs1.last() == 1usize);
    assert(cs1.drop_last() =~= seq![m, k]);
    assert(flat_of(seq![m], seq![row as usize]) == row);
    assert(flat_of(seq![m, k], seq![row as usize, t as usize]) == row * k + t);
    assert(flat_of(cs1, c1) == (row * k + t) * 1 + 0);
    assert(flat_of(cs1, c1) == row * k + t);
    assert(bcast_elem(cs1, a, bs, q) == a[row * k + t]);
    // The right operand reads inner position `t`, column `col`.
    assert(pad_left_spec(cs2, 3) =~= cs2);
    let c2 = clamp_index(cs2, idx3);
    assert(c2 =~= seq![0usize, t as usize, col as usize]);
    assert(c2.subrange(0, 3) =~= c2);
    assert(c2.drop_last() =~= seq![0usize, t as usize]);
    assert(seq![0usize, t as usize].drop_last() =~= seq![0usize]);
    assert(seq![0usize].drop_last() =~= Seq::<usize>::empty());
    assert(c2.last() == col as usize);
    assert(cs2.last() == p);
    assert(cs2.drop_last() =~= seq![1usize, k]);
    assert(seq![1usize, k].last() == k);
    assert(seq![1usize, k].drop_last() =~= seq![1usize]);
    assert(seq![1usize].last() == 1usize);
    assert(seq![1usize].drop_last() =~= Seq::<usize>::empty());
    assert(seq![0usize, t as usize].last() == t as usize);
    assert(seq![0usize].last() == 0usize);
    assert(flat_of(seq![1usize], seq![0usize]) == 0);
    assert(flat_of(seq![1usize, k], seq![0usize, t as usize]) == 0 * k + t);
    assert(flat_of(cs2, c2) == t * pi + col);
    assert(bcast_elem(cs2, b, bs, q) == b[t * pi + col]);
}

/// A nonnegative value below a positive modulus divides to 0 and reduces to
/// itself.
proof fn lemma_fundamental_div_mod_converse_pair(v: int, m: int)
    requires
        0 <= v < m,
    ensures
        v / m == 0,
        v % m == v,
{
    lemma_fundamental_div_mod_converse(v, m, 0, v);
}

/// Whether two shapes are equal, axis by axis.
fn dims_equal(a: &Dim, b: &Dim) -> (r: bool)
    ensures
        r <==> a.shape@ == b.shape@,
{
    let n = a.shape.len();
    if n != b.shape.len() {
        return false;
    }
    let mut i: usize = 0;
    while i < n
        invariant
            n == a.shape@.len(),
            n == b.shape@.len(),
            0 <= i <= n,
            forall|k: int| 0 <= k < i ==> a.shape@[k] == b.shape@[k],
        decreases n - i,
    {
        if a.shape[i] != b.shape[i] {
            return false;
        }
        i += 1;
    }
    proof {
        assert(a.shape@ =~= b.shape@);
    }
    true
}

/// The other operand of the pipeline, padded on the left to rank `k` with
/// its buffer unchanged.
fn pad_left_exec<T2: Copy>(other: &Ndarr<T2>, k: usize) -> (r: Ndarr<T2>)
    requires
        other.wf(),
        other.dim.shape@.len() <= k,
    ensures
        r.wf(),
        r.dim.shape@ == pad_left_spec(other.dim.shape@, k as int),
        r.data@ == other.data@,
{
    let ghost s2 = other.dim.shape@;
    let padded = match other.dim.path_shape(k) {
        Ok(d) => d,
        Err(_) => {
            proof {
                assert(false);
            }
            Dim { shape: Vec::new() }
        },
    };
    proof {
        lemma_pad_compat(s2, k as int);
        lemma_pad_left_product(s2, k as int);
    }
    let bdata = match other.broadcast_data(padded.shape.as_slice()) {
        Ok(v) => v,
        Err(_) => {
            proof {
                assert(false);
            }
            Vec::new()
        },
    };
    proof {
        assert forall|i: int| 0 <= i < bdata@.len() implies #[trigger] bdata@[i]
            == other.data@[i] by {
            lemma_rev_cast_pad(s2, k as int, i);
        }
        assert(bdata@ =~= other.data@);
    }
    Ndarr { data: bdata, dim: padded }
}

/// A shape with no elements keeps having none after left padding.
proof fn lemma_zero_product_pad(s: Seq<usize>, k: int)
    requires
        s.len() <= k,
        shape_product(s) == 0,
    ensures
        shape_product(pad_left_spec(s, k)) == 0,
{
    let z = choose|j: int| 0 <= j < s.len() && s[j] == 0;
    assert(exists|j: int| 0 <= j < s.len() && s[j] == 0) by {
        if forall|j: int| 0 <= j < s.len() ==> s[j] >= 1 {
            crate::helpers::lemma_product_all_pos(s);
        } else {
            let w = choose|j: int| !(0 <= j < s.len() ==> s[j] >= 1);
            assert(0 <= w < s.len() && s[w] == 0);
        }
    }
    let j = choose|j: int| 0 <= j < s.len() && s[j] == 0;
    assert(pad_left_spec(s, k)[j + (k - s.len())] == 0);
    crate::helpers::lemma_product_zero(pad_left_spec(s, k), j + (k - s.len()));
}

/// The element that position `i` of the broadcast shape `bs` reads from an
/// operand of shape `s` and buffer `a`.
pub open spec fn bcast_elem<T>(s: Seq<usize>, a: Seq<T>, bs: Seq<usize>, i: int) -> T {
    a[rev_cast_spec(s, index_of(bs, i))]
}

/// Broadcasting a shape against itself reads each element from its own
/// position: the reverse cast of position `i` is `i`.
pub proof fn lemma_bcast_identity_pos(s: Seq<usize>, i: int)
    requires
        0 <= i < shape_product(s),
    ensures
        rev_cast_spec(s, index_of(s, i)) == i,
{
    lemma_flat_of_index_of(s, i);
    lemma_rev_cast_identity(s, index_of(s, i));
}

/// Compatibility and the broadcast shape are symmetric in their arguments.
pub proof fn lemma_broadcast_sym(s1: Seq<usize>, s2: Seq<usize>)
    ensures
        broadcast_compatible(s1, s2) == broadcast_compatible(s2, s1),
        broadcast_compatible(s1, s2) ==> broadcast_shape_spec(s2, s1) == broadcast_shape_spec(
            s1,
            s2,
        ),
{
    let l = crate::shape::broadcast_rank(s1, s2);
    assert(crate::shape::broadcast_rank(s2, s1) == l);
    if broadcast_compatible(s1, s2) {
        assert forall|k: int| 0 <= k < l implies {
            let x = #[trigger] crate::shape::aligned_extent(s2, l, k);
            let y = crate::shape::aligned_extent(s1, l, k);
            x == y || x == 1 || y == 1
        } by {
            assert(crate::shape::aligned_extent(s1, l, k) == crate::shape::aligned_extent(
                s1,
                l,
                k,
            ));
        }
        assert(broadcast_compatible(s2, s1));
        assert(broadcast_shape_spec(s2, s1) =~= broadcast_shape_spec(s1, s2));
    }
    if broadcast_compatible(s2, s1) {
        assert forall|k: int| 0 <= k < l implies {
            let x = #[trigger] crate::shape::aligned_extent(s1, l, k);
            let y = crate::shape::aligned_extent(s2, l, k);
            x == y || x == 1 || y == 1
        } by {
            assert(crate::shape::aligned_extent(s2, l, k) == crate::shape::aligned_extent(
                s2,
                l,
                k,
            ));
        }
        assert(broadcast_compatible(s1, s2));
    }
}

impl<T: Copy> Ndarr<T> {
    /// Combines two arrays of possibly different rank and shape elementwise
    /// after broadcasting both to their common shape;
    /// `IncompatibleShapes` when the shapes do not broadcast. Equal shapes
    /// take a fast path that skips materialization; the contract is the same
    /// either way.
    pub fn poly_dyadic<T2: Copy, T3: Copy, F: Fn(T, T2) -> T3>(
        &self,
        other: &Ndarr<T2>,
        f: F,
    ) -> (r: Result<Ndarr<T3>, DimError>)
        requires
            self.wf(),
            other.wf(),
            broadcast_compatible(self.dim.shape@, other.dim.shape@) ==> {
                let bs = broadcast_shape_spec(self.dim.shape@, other.dim.shape@);
                &&& shape_product(bs) <= usize::MAX
                &&& (shape_product(self.dim.shape@) == 0 ==> shape_product(bs) == 0)
                &&& (shape_product(other.dim.shape@) == 0 ==> shape_product(bs) == 0)
                &&& forall|i: int|
                    0 <= i < shape_product(bs) ==> call_requires(
                        f,
                        (
                            bcast_elem(self.dim.shape@, self.data@, bs, i),
                            bcast_elem(other.dim.shape@, other.data@, bs, i),
                        ),
                    )
            },
        ensures
            r is Ok <==> broadcast_compatible(self.dim.shape@, other.dim.shape@),
            r matches Ok(c) ==> {
                let bs = broadcast_shape_spec(self.dim.shape@, other.dim.shape@);
                &&& c.wf()
                &&& c.dim.shape@ == bs
                &&& forall|i: int|
                    0 <= i < c.data@.len() ==> call_ensures(
                        f,
                        (
                            bcast_elem(self.dim.shape@, self.data@, bs, i),
                            bcast_elem(other.dim.shape@, other.data@, bs, i),
                        ),
                        #[trigger] c.data@[i],
                    )
            },
    {
        let ghost s1 = self.dim.shape@;
        let ghost s2 = other.dim.shape@;
        let ghost bs = broadcast_shape_spec(s1, s2);
        if dims_equal(&self.dim, &other.dim) {
            // Fast path: equal shapes need no materialization, the operands
            // are already aligned position by position.
            proof {
                lemma_broadcast_identity(s1);
            }
            let n = self.data.len();
            let mut out: Vec<T3> = Vec::with_capacity(n);
            let mut i: usize = 0;
            while i < n
                invariant
                    self.wf(),
                    other.wf(),
                    s1 == self.dim.shape@,
                    s2 == other.dim.shape@,
                    s1 == s2,
                    bs == broadcast_shape_spec(s1, s2),
                    bs == s1,
                    n == self.data@.len(),
                    other.data@.len() == n,
                    forall|k: int|
                        0 <= k < n ==> call_requires(
                            f,
                            (
                                bcast_elem(s1, self.data@, bs, k),
                                bcast_elem(s2, other.data@, bs, k),
                            ),
                        ),
                    0 <= i <= n,
                    out@.len() == i,
                    forall|k: int|
                        0 <= k < i ==> call_ensures(
                            f,
                            (
                                bcast_elem(s1, self.data@, bs, k),
                                bcast_elem(s2, other.data@, bs, k),
                            ),
                            #[trigger] out@[k],
                        ),
                decreases n - i,
            {
                proof {
                    lemma_bcast_identity_pos(s1, i as int);
                    assert(bcast_elem(s1, self.data@, bs, i as int) == self.data@[i as int]);
                    assert(bcast_elem(s2, other.data@, bs, i as int) == other.data@[i as int]);
                }
                out.push(f(self.data[i], other.data[i]));
                i += 1;
            }
            return Ok(Ndarr { data: out, dim: Dim { shape: self.dim.shape() } });
        }
        let new_dim = match self.dim.broadcast_shape(&other.dim) {
            Ok(d) => d,
            Err(e) => {
                return Err(e);
            },
        };
        let cast1 = match self.broadcast_data(other.dim.shape.as_slice()) {
            Ok(v) => v,
            Err(_) => {
                proof {
                    assert(false);
                }
                return Err(DimError::new("Error arrays with these shapes can not be broadcasted"));
            },
        };
        proof {
            lemma_broadcast_sym(s1, s2);
        }
        let cast2 = match other.broadcast_data(self.dim.shape.as_slice()) {
            Ok(v) => v,
            Err(_) => {
                proof {
                    assert(false);
                }
                return Err(DimError::new("Error arrays with these shapes can not be broadcasted"));
            },
        };
        let n = cast1.len();
        let mut out: Vec<T3> = Vec::with_capacity(n);
        let mut i: usize = 0;
        while i < n
            invariant
                bs == broadcast_shape_spec(s1, s2),
                n == cast1@.len(),
                cast2@.len() == n,
                n as int == shape_product(bs),
                forall|k: int|
                    0 <= k < n ==> #[trigger] cast1@[k] == bcast_elem(s1, self.data@, bs, k),
                forall|k: int|
                    0 <= k < n ==> #[trigger] cast2@[k] == bcast_elem(s2, other.data@, bs, k),
                forall|k: int|
                    0 <= k < n ==> call_requires(
                        f,
                        (bcast_elem(s1, self.data@, bs, k), bcast_elem(s2, other.data@, bs, k)),
                    ),
                0 <= i <= n,
                out@.len() == i,
                forall|k: int|
                    0 <= k < i ==> call_ensures(
                        f,
                        (bcast_elem(s1, self.data@, bs, k), bcast_elem(s2, other.data@, bs, k)),
                        #[trigger] out@[k],
                    ),
            decreases n - i,
        {
            out.push(f(cast1[i], cast2[i]));
            i += 1;
        }
        Ok(Ndarr { data: out, dim: new_dim })
    }
}

/// Broadcast agreement (the elementwise half of the broadcast identity):
/// combining an array with itself through `poly_dyadic` gives the same
/// result as combining it with itself through `bimap`, for any operator
/// whose contract pins one result per input pair. `pd` and `bm` are the two
/// result buffers as the contracts of `poly_dyadic` and `bimap` describe
/// them.
pub proof fn lemma_poly_dyadic_matches_bimap<T, F: Fn(T, T) -> T>(
    s: Seq<usize>,
    a: Seq<T>,
    f: F,
    g: spec_fn(T, T) -> T,
    pd: Seq<T>,
    bm: Seq<T>,
)
    requires
        a.len() == shape_product(s),
        pd.len() == shape_product(broadcast_shape_spec(s, s)),
        bm.len() == a.len(),
        forall|i: int|
            0 <= i < pd.len() ==> call_ensures(
                f,
                (
                    bcast_elem(s, a, broadcast_shape_spec(s, s), i),
                    bcast_elem(s, a, broadcast_shape_spec(s, s), i),
                ),
                #[trigger] pd[i],
            ),
        forall|i: int| 0 <= i < bm.len() ==> call_ensures(f, (a[i], a[i]), #[trigger] bm[i]),
        forall|x: T, y: T, z: T| call_ensures(f, (x, y), z) ==> z == g(x, y),
    ensures
        pd == bm,
{
    lemma_broadcast_identity(s);
    assert forall|i: int| 0 <= i < pd.len() implies pd[i] == bm[i] by {
        lemma_bcast_identity_pos(s, i);
        assert(bcast_elem(s, a, broadcast_shape_spec(s, s), i) == a[i]);
        assert(pd[i] == g(a[i], a[i]));
        assert(bm[i] == g(a[i], a[i]));
    }
    assert(pd =~= bm);
}

} // verus!
