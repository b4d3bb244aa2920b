use vstd::prelude::*;
use vstd::arithmetic::div_mod::{
    lemma_div_pos_is_pos, lemma_fundamental_div_mod, lemma_fundamental_div_mod_converse,
    lemma_mod_bound, lemma_multiply_divide_lt,
};

use crate::errors::DimError;
use crate::helpers::{
    lemma_product_pos_extents, lemma_product_remove, shape_product,
};

verus! {

/// A multi-index addresses an element of a shape when it has one component
/// per axis and every component lies below its axis's extent.
pub open spec fn valid_index(shape: Seq<usize>, idx: Seq<usize>) -> bool {
    &&& idx.len() == shape.len()
    &&& forall|k: int| 0 <= k < shape.len() ==> idx[k] < shape[k]
}

/// Row-major flattening of a multi-index, in Horner form: the last axis
/// varies fastest.
pub open spec fn flat_of(shape: Seq<usize>, idx: Seq<usize>) -> int
    decreases shape.len(),
{
    if shape.len() == 0 {
        0
    } else {
        flat_of(shape.drop_last(), idx.drop_last()) * shape.last() + idx.last()
    }
}

/// Inverse of `flat_of`: the multi-index of flat position `n`, by successive
/// division and remainder from the last axis up.
pub open spec fn index_of(shape: Seq<usize>, n: int) -> Seq<usize>
    decreases shape.len(),
{
    if shape.len() == 0 {
        Seq::empty()
    } else {
        index_of(shape.drop_last(), n / (shape.last() as int)).push(
            (n % (shape.last() as int)) as usize,
        )
    }
}

/// A valid multi-index flattens to a position inside the buffer.
pub proof fn lemma_flat_bounds(shape: Seq<usize>, idx: Seq<usize>)
    requires
        valid_index(shape, idx),
    ensures
        0 <= flat_of(shape, idx) < shape_product(shape),
    decreases shape.len(),
{
    if shape.len() > 0 {
        let sf = shape.drop_last();
        let xf = idx.drop_last();
        assert forall|k: int| 0 <= k < sf.len() implies xf[k] < sf[k] by {
            assert(idx[k] < shape[k]);
        }
        lemma_flat_bounds(sf, xf);
        let f = flat_of(sf, xf);
        let p = shape_product(sf);
        let e = shape.last() as int;
        let i = idx.last() as int;
        assert(0 <= f * e + i < p * e) by (nonlinear_arith)
            requires
                0 <= f,
                f < p,
                0 <= i,
                i < e,
        ;
    }
}

/// Flatten/unflatten round trip: every valid multi-index is recovered from
/// its flat position.
pub proof fn lemma_index_of_flat_of(shape: Seq<usize>, idx: Seq<usize>)
    requires
        valid_index(shape, idx),
    ensures
        index_of(shape, flat_of(shape, idx)) == idx,
    decreases shape.len(),
{
    if shape.len() == 0 {
        assert(idx =~= Seq::<usize>::empty());
    } else {
        let sf = shape.drop_last();
        let xf = idx.drop_last();
        assert forall|k: int| 0 <= k < sf.len() implies xf[k] < sf[k] by {
            assert(idx[k] < shape[k]);
        }
        let f = flat_of(sf, xf);
        let e = shape.last() as int;
        let i = idx.last() as int;
        let n = f * e + i;
        lemma_flat_bounds(sf, xf);
        lemma_fundamental_div_mod_converse(n, e, f, i);
        lemma_index_of_flat_of(sf, xf);
        assert(index_of(shape, n) == index_of(sf, n / e).push((n % e) as usize));
        assert(xf.push(idx.last()) =~= idx);
    }
}

/// Every flat position below the element count unflattens to a valid
/// multi-index that flattens back to it.
pub proof fn lemma_flat_of_index_of(shape: Seq<usize>, n: int)
    requires
        0 <= n < shape_product(shape),
    ensures
        valid_index(shape, index_of(shape, n)),
        flat_of(shape, index_of(shape, n)) == n,
    decreases shape.len(),
{
    if shape.len() == 0 {
    } else {
        let sf = shape.drop_last();
        let p = shape_product(sf);
        let e = shape.last() as int;
        lemma_product_pos_extents(shape);
        assert(e >= 1);
        lemma_mod_bound(n, e);
        lemma_div_pos_is_pos(n, e);
        assert(shape_product(shape) == p * e);
        assert(n < e * p) by (nonlinear_arith)
            requires n < p * e;
        lemma_multiply_divide_lt(n, e, p);
        lemma_flat_of_index_of(sf, n / e);
        let idx = index_of(shape, n);
        let xf = index_of(sf, n / e);
        assert(idx == xf.push((n % e) as usize));
        assert(idx.drop_last() =~= xf);
        assert forall|k: int| 0 <= k < shape.len() implies idx[k] < shape[k] by {
            if k < shape.len() - 1 {
                assert(idx[k] == xf[k]);
                assert(xf[k] < sf[k]);
            }
        }
        lemma_fundamental_div_mod(n, e);
        assert(flat_of(shape, idx) == flat_of(sf, xf) * e + (n % e));
        assert(flat_of(sf, xf) == n / e);
        assert((n / e) * e == e * (n / e)) by (nonlinear_arith);
    }
}

/// Inserting an in-range component at the position where the shape gains an
/// axis keeps a multi-index valid.
pub proof fn lemma_valid_index_insert(
    small: Seq<usize>,
    idx: Seq<usize>,
    k: int,
    e: usize,
    extent: usize,
)
    requires
        valid_index(small, idx),
        0 <= k <= small.len(),
        e < extent,
    ensures
        valid_index(small.insert(k, extent), idx.insert(k, e)),
{
    small.insert_ensures(k, extent);
    idx.insert_ensures(k, e);
    assert forall|m: int| 0 <= m < small.insert(k, extent).len() implies idx.insert(k, e)[m]
        < small.insert(k, extent)[m] by {
        if m < k {
            assert(idx[m] < small[m]);
        } else if m > k {
            assert(idx[m - 1] < small[m - 1]);
        }
    }
}

/// Removing the same axis from a shape and from a valid multi-index of it
/// keeps the index valid.
pub proof fn lemma_valid_index_remove(shape: Seq<usize>, idx: Seq<usize>, k: int)
    requires
        valid_index(shape, idx),
        0 <= k < shape.len(),
    ensures
        valid_index(shape.remove(k), idx.remove(k)),
{
    assert forall|m: int| 0 <= m < shape.remove(k).len() implies idx.remove(k)[m]
        < shape.remove(k)[m] by {
        if m < k {
            assert(idx[m] < shape[m]);
        } else {
            assert(idx[m + 1] < shape[m + 1]);
        }
    }
}

/// Removing a position and putting the removed element back yields the
/// original sequence.
pub proof fn lemma_remove_insert(s: Seq<usize>, k: int)
    requires
        0 <= k < s.len(),
    ensures
        s.remove(k).insert(k, s[k]) == s,
{
    s.remove_ensures(k);
    s.remove(k).insert_ensures(k, s[k]);
    assert(s.remove(k).insert(k, s[k]) =~= s);
}

/// The common rank two shapes broadcast to: the larger of the two ranks.
pub open spec fn broadcast_rank(s1: Seq<usize>, s2: Seq<usize>) -> int {
    if s1.len() >= s2.len() {
        s1.len() as int
    } else {
        s2.len() as int
    }
}

/// The extent a shape contributes at position `k` of a rank-`l` alignment
/// from the right; axes the shape lacks contribute an implicit 1.
pub open spec fn aligned_extent(s: Seq<usize>, l: int, k: int) -> int {
    if k >= l - s.len() {
        s[k - (l - s.len())] as int
    } else {
        1
    }
}

/// Right-aligned broadcast compatibility: at every aligned position the two
/// extents agree or one of them is 1.
pub open spec fn broadcast_compatible(s1: Seq<usize>, s2: Seq<usize>) -> bool {
    forall|k: int|
        #![trigger aligned_extent(s1, broadcast_rank(s1, s2), k)]
        0 <= k < broadcast_rank(s1, s2) ==> {
            let x = aligned_extent(s1, broadcast_rank(s1, s2), k);
            let y = aligned_extent(s2, broadcast_rank(s1, s2), k);
            x == y || x == 1 || y == 1
        }
}

/// The broadcast shape: at every aligned position the larger of the two
/// extents.
pub open spec fn broadcast_shape_spec(s1: Seq<usize>, s2: Seq<usize>) -> Seq<usize> {
    Seq::new(
        broadcast_rank(s1, s2) as nat,
        |k: int|
            {
                let x = aligned_extent(s1, broadcast_rank(s1, s2), k);
                let y = aligned_extent(s2, broadcast_rank(s1, s2), k);
                if x >= y {
                    x as usize
                } else {
                    y as usize
                }
            },
    )
}

/// A shape padded on the left with extent-1 axes up to rank `r`.
pub open spec fn pad_left_spec(s: Seq<usize>, r: int) -> Seq<usize> {
    Seq::new(
        r as nat,
        |k: int|
            if k < r - s.len() {
                1usize
            } else {
                s[k - (r - s.len())]
            },
    )
}

/// Each component clamped below its padded extent; this is the reverse cast
/// of broadcasting, which sends every index of a broadcast axis back to the
/// single source element of that axis.
pub open spec fn clamp_index(padded: Seq<usize>, idx: Seq<usize>) -> Seq<usize> {
    Seq::new(
        idx.len(),
        |k: int|
            if idx[k] >= padded[k] {
                (padded[k] - 1) as usize
            } else {
                idx[k]
            },
    )
}

/// The flat position in a small source shape that a multi-index of a larger
/// broadcast shape reads from: pad the source on the left, clamp, keep the
/// trailing components, and flatten.
pub open spec fn rev_cast_spec(small: Seq<usize>, idx: Seq<usize>) -> int {
    flat_of(
        small,
        clamp_index(pad_left_spec(small, idx.len() as int), idx).subrange(
            idx.len() - small.len(),
            idx.len() as int,
        ),
    )
}

/// On a valid index of the shape itself, the reverse cast is the identity:
/// padding adds nothing and no component is clamped.
pub proof fn lemma_rev_cast_identity(shape: Seq<usize>, idx: Seq<usize>)
    requires
        valid_index(shape, idx),
    ensures
        rev_cast_spec(shape, idx) == flat_of(shape, idx),
{
    let r = idx.len() as int;
    let padded = pad_left_spec(shape, r);
    assert(padded =~= shape);
    assert(clamp_index(padded, idx) =~= idx);
    assert(clamp_index(padded, idx).subrange(0, r) =~= idx);
}

/// Broadcast identity: a shape is always compatible with itself, and
/// broadcasting it against itself returns it unchanged.
pub proof fn lemma_broadcast_identity(s: Seq<usize>)
    ensures
        broadcast_compatible(s, s),
        broadcast_shape_spec(s, s) == s,
{
    assert(broadcast_shape_spec(s, s) =~= s);
}

/// The shape of an array: one extent per axis, the rank being the number of
/// axes. Immutable once attached to an array; operations that change shape
/// build a new one.
#[derive(Debug, Clone, PartialEq, Eq)]
pub struct Dim {
    pub shape: Vec<usize>,
}

impl Dim {
    pub fn new(dim: &[usize]) -> (r: Result<Dim, DimError>)
        ensures
            r matches Ok(d) && d.shape@ == dim@,
    {
        let n = dim.len();
        let mut shape: Vec<usize> = Vec::with_capacity(n);
        let mut i: usize = 0;
        while i < n
            invariant
                n == dim@.len(),
                0 <= i <= n,
                shape@ =~= dim@.take(i as int),
            decreases n - i,
        {
            shape.push(dim[i]);
            i += 1;
        }
        proof {
            assert(dim@.take(n as int) =~= dim@);
        }
        Ok(Dim { shape })
    }

    pub fn len(&self) -> (r: usize)
        ensures
            r == self.shape@.len(),
    {
        self.shape.len()
    }

    pub fn shape(&self) -> (r: Vec<usize>)
        ensures
            r@ == self.shape@,
    {
        let n = self.shape.len();
        let mut out: Vec<usize> = Vec::with_capacity(n);
        let mut i: usize = 0;
        while i < n
            invariant
                n == self.shape@.len(),
                0 <= i <= n,
                out@ =~= self.shape@.take(i as int),
            decreases n - i,
        {
            out.push(self.shape[i]);
            i += 1;
        }
        proof {
            assert(self.shape@.take(n as int) =~= self.shape@);
        }
        out
    }

    /// The multi-index of flat position `n`, computed by successive division
    /// and remainder from the last axis up.
    pub fn get_indexes(&self, n: &usize) -> (r: Dim)
        requires
            (*n as int) < shape_product(self.shape@),
        ensures
            r.shape@ == index_of(self.shape@, *n as int),
            valid_index(self.shape@, r.shape@),
    {
        proof {
            lemma_flat_of_index_of(self.shape@, *n as int);
            lemma_product_pos_extents(self.shape@);
        }
        let rank = self.shape.len();
        let mut ind: Vec<usize> = Vec::with_capacity(rank);
        let mut i: usize = 0;
        while i < rank
            invariant
                rank == self.shape@.len(),
                0 <= i <= rank,
                ind@.len() == i,
            decreases rank - i,
        {
            ind.push(0);
            i += 1;
        }
        let mut cur: usize = *n;
        let mut i: usize = rank;
        proof {
            assert(self.shape@.take(rank as int) =~= self.shape@);
            assert(index_of(self.shape@, *n as int) =~= index_of(
                self.shape@.take(rank as int),
                cur as int,
            ) + ind@.subrange(rank as int, rank as int));
        }
        while i > 0
            invariant
                rank == self.shape@.len(),
                ind@.len() == rank,
                0 <= i <= rank,
                forall|k: int| 0 <= k < self.shape@.len() ==> self.shape@[k] >= 1,
                index_of(self.shape@, *n as int) =~= index_of(
                    self.shape@.take(i as int),
                    cur as int,
                ) + ind@.subrange(i as int, rank as int),
            decreases i,
        {
            i = i - 1;
            let e = self.shape[i];
            let ghost prev = cur;
            let ghost prev_ind = ind@;
            let digit = cur % e;
            cur = cur / e;
            ind.set(i, digit);
            proof {
                let s = self.shape@;
                assert(s.take(i + 1).drop_last() =~= s.take(i as int));
                assert(s.take(i + 1).last() == s[i as int]);
                assert(index_of(s.take(i + 1), prev as int) == index_of(
                    s.take(i as int),
                    cur as int,
                ).push(digit));
                assert(index_of(s.take(i as int), cur as int).push(digit) + prev_ind.subrange(
                    i + 1,
                    rank as int,
                ) =~= index_of(s.take(i as int), cur as int) + ind@.subrange(i as int, rank as int));
            }
        }
        proof {
            let s = self.shape@;
            assert(s.take(0) =~= Seq::<usize>::empty());
            assert(index_of(Seq::<usize>::empty(), cur as int) + ind@.subrange(0, rank as int)
                =~= ind@);
        }
        Dim { shape: ind }
    }

    /// The flat position of a multi-index, or `IndexOutOfBounds` when some
    /// component reaches its axis's extent.
    pub fn get_flat_pos(&self, indexes: &Dim) -> (r: Result<usize, DimError>)
        requires
            indexes.shape@.len() == self.shape@.len(),
            shape_product(self.shape@) <= usize::MAX,
        ensures
            r is Ok <==> valid_index(self.shape@, indexes.shape@),
            r matches Ok(p) ==> p as int == flat_of(self.shape@, indexes.shape@),
    {
        let rank = self.shape.len();
        let mut i: usize = 0;
        while i < rank
            invariant
                rank == self.shape@.len(),
                indexes.shape@.len() == rank,
                0 <= i <= rank,
                forall|k: int| 0 <= k < i ==> indexes.shape@[k] < self.shape@[k],
            decreases rank - i,
        {
            if indexes.shape[i] >= self.shape[i] {
                return Err(DimError::new("Index out of bounds"));
            }
            i += 1;
        }
        proof {
            lemma_flat_bounds(self.shape@, indexes.shape@);
            lemma_product_pos_extents_of_valid(self.shape@, indexes.shape@);
        }
        let mut acc: usize = 0;
        let mut i: usize = 0;
        while i < rank
            invariant
                rank == self.shape@.len(),
                indexes.shape@.len() == rank,
                valid_index(self.shape@, indexes.shape@),
                shape_product(self.shape@) <= usize::MAX,
                0 <= i <= rank,
                acc as int == flat_of(self.shape@.take(i as int), indexes.shape@.take(i as int)),
                forall|k: int| 0 <= k < rank ==> self.shape@[k] >= 1,
            decreases rank - i,
        {
            proof {
                let s = self.shape@;
                let x = indexes.shape@;
                assert(s.take(i + 1).drop_last() =~= s.take(i as int));
                assert(x.take(i + 1).drop_last() =~= x.take(i as int));
                assert forall|k: int| 0 <= k < i + 1 implies #[trigger] x.take(i + 1)[k] < s.take(
                    i + 1,
                )[k] by {
                    assert(x[k] < s[k]);
                }
                lemma_flat_bounds(s.take(i + 1), x.take(i + 1));
                lemma_prefix_product_le_of_valid(s, x, i + 1);
            }
            acc = acc * self.shape[i] + indexes.shape[i];
            i += 1;
        }
        proof {
            assert(self.shape@.take(rank as int) =~= self.shape@);
            assert(indexes.shape@.take(rank as int) =~= indexes.shape@);
        }
        Ok(acc)
    }

    /// Removes the axis at `index`, lowering the rank by one.
    pub fn remove_element(self, index: usize) -> (r: Dim)
        requires
            index < self.shape@.len(),
        ensures
            r.shape@ == self.shape@.remove(index as int),
    {
        let mut shape = self.shape;
        shape.remove(index);
        Dim { shape }
    }

    /// Inserts an axis of extent `element` at `index`, raising the rank by
    /// one.
    pub fn insert_element(self, index: usize, element: usize) -> (r: Dim)
        requires
            index <= self.shape@.len(),
            self.shape@.len() < usize::MAX,
        ensures
            r.shape@ == self.shape@.insert(index as int, element),
    {
        let mut shape = self.shape;
        shape.insert(index, element);
        Dim { shape }
    }

    /// Pads the shape on the left with extent-1 axes until it has rank `r2`;
    /// `RankTooLarge` when `r2` is below the current rank.
    pub fn path_shape(&self, r2: usize) -> (r: Result<Dim, DimError>)
        ensures
            r is Ok <==> r2 >= self.shape@.len(),
            r matches Ok(d) ==> d.shape@ == pad_left_spec(self.shape@, r2 as int),
    {
        let r1 = self.shape.len();
        if r1 > r2 {
            return Err(DimError::new("Can not pad shape to a smaller rank"));
        }
        let mut out: Vec<usize> = Vec::with_capacity(r2);
        let mut i: usize = 0;
        while i < r2
            invariant
                r1 == self.shape@.len(),
                r1 <= r2,
                0 <= i <= r2,
                out@ =~= pad_left_spec(self.shape@, r2 as int).take(i as int),
            decreases r2 - i,
        {
            if i < r2 - r1 {
                out.push(1);
            } else {
                out.push(self.shape[i - (r2 - r1)]);
            }
            proof {
                assert(out@ =~= pad_left_spec(self.shape@, r2 as int).take(i + 1));
            }
            i += 1;
        }
        proof {
            assert(pad_left_spec(self.shape@, r2 as int).take(r2 as int) =~= pad_left_spec(
                self.shape@,
                r2 as int,
            ));
        }
        Ok(Dim { shape: out })
    }

    /// The flat position in `small_shape` that the broadcast element at
    /// multi-index `indexes` is copied from.
    pub fn rev_cast_pos(small_shape: &Dim, indexes: &Dim) -> (r: Result<usize, DimError>)
        requires
            shape_product(small_shape.shape@) > 0,
            shape_product(small_shape.shape@) <= usize::MAX,
        ensures
            r is Ok <==> indexes.shape@.len() >= small_shape.shape@.len(),
            r matches Ok(p) ==> p as int == rev_cast_spec(small_shape.shape@, indexes.shape@),
            r matches Ok(p) ==> (p as int) < shape_product(small_shape.shape@),
    {
        let r1 = small_shape.shape.len();
        let r2 = indexes.shape.len();
        let padded = match small_shape.path_shape(r2) {
            Ok(p) => p,
            Err(e) => {
                return Err(e);
            },
        };
        proof {
            lemma_product_pos_extents(small_shape.shape@);
        }
        let mut sub: Vec<usize> = Vec::with_capacity(r1);
        let mut i: usize = 0;
        while i < r1
            invariant
                r1 == small_shape.shape@.len(),
                r2 == indexes.shape@.len(),
                r1 <= r2,
                padded.shape@ == pad_left_spec(small_shape.shape@, r2 as int),
                forall|k: int| 0 <= k < r1 ==> small_shape.shape@[k] >= 1,
                0 <= i <= r1,
                sub@ =~= clamp_index(padded.shape@, indexes.shape@).subrange(
                    r2 - r1,
                    r2 - r1 + i,
                ),
            decreases r1 - i,
        {
            let k = r2 - r1 + i;
            proof {
                assert(padded.shape@[k as int] == small_shape.shape@[i as int]);
            }
            let v = if indexes.shape[k] >= padded.shape[k] {
                padded.shape[k] - 1
            } else {
                indexes.shape[k]
            };
            sub.push(v);
            proof {
                assert(sub@ =~= clamp_index(padded.shape@, indexes.shape@).subrange(
                    r2 - r1,
                    r2 - r1 + i + 1,
                ));
            }
            i += 1;
        }
        let sub_dim = Dim { shape: sub };
        proof {
            assert forall|k: int| 0 <= k < r1 implies sub_dim.shape@[k]
                < small_shape.shape@[k] by {
                assert(padded.shape@[k + r2 - r1] == small_shape.shape@[k]);
            }
        }
        match small_shape.get_flat_pos(&sub_dim) {
            Ok(p) => {
                proof {
                    lemma_flat_bounds(small_shape.shape@, sub_dim.shape@);
                }
                Ok(p)
            },
            Err(_) => {
                proof {
                    assert(false);
                }
                Err(DimError::new("Index out of bounds"))
            },
        }
    }

    /// The broadcast of two shapes: right-aligned, each aligned pair must
    /// agree or contain a 1; `IncompatibleShapes` otherwise.
    pub fn broadcast_shape(&self, other: &Dim) -> (r: Result<Dim, DimError>)
        ensures
            r is Ok <==> broadcast_compatible(self.shape@, other.shape@),
            r matches Ok(d) ==> d.shape@ == broadcast_shape_spec(self.shape@, other.shape@),
    {
        let r1 = self.shape.len();
        let r2 = other.shape.len();
        let l = if r1 >= r2 {
            r1
        } else {
            r2
        };
        let mut out: Vec<usize> = Vec::with_capacity(l);
        let mut k: usize = 0;
        while k < l
            invariant
                r1 == self.shape@.len(),
                r2 == other.shape@.len(),
                l as int == broadcast_rank(self.shape@, other.shape@),
                0 <= k <= l,
                out@ =~= broadcast_shape_spec(self.shape@, other.shape@).take(k as int),
                forall|j: int|
                    #![trigger aligned_extent(self.shape@, l as int, j)]
                    0 <= j < k ==> {
                        let x = aligned_extent(self.shape@, l as int, j);
                        let y = aligned_extent(other.shape@, l as int, j);
                        x == y || x == 1 || y == 1
                    },
            decreases l - k,
        {
            let x = if k >= l - r1 {
                self.shape[k - (l - r1)]
            } else {
                1
            };
            let y = if k >= l - r2 {
                other.shape[k - (l - r2)]
            } else {
                1
            };
            if x != 1 && y != 1 && x != y {
                proof {
                    assert(x as int == aligned_extent(self.shape@, l as int, k as int));
                    assert(y as int == aligned_extent(other.shape@, l as int, k as int));
                    assert(!broadcast_compatible(self.shape@, other.shape@));
                }
                return Err(DimError::new("Error arrays with these shapes can not be broadcasted"));
            }
            out.push(if x >= y {
                x
            } else {
                y
            });
            proof {
                assert(x as int == aligned_extent(self.shape@, l as int, k as int));
                assert(y as int == aligned_extent(other.shape@, l as int, k as int));
                assert(out@ =~= broadcast_shape_spec(self.shape@, other.shape@).take(k + 1));
            }
            k += 1;
        }
        proof {
            assert(broadcast_shape_spec(self.shape@, other.shape@).take(l as int)
                =~= broadcast_shape_spec(self.shape@, other.shape@));
        }
        Ok(Dim { shape: out })
    }

    /// The shape with its axes in reverse order.
    pub fn reverse(&self) -> (r: Dim)
        ensures
            r.shape@ == self.shape@.reverse(),
    {
        let n = self.shape.len();
        let mut out: Vec<usize> = Vec::with_capacity(n);
        let mut i: usize = 0;
        while i < n
            invariant
                n == self.shape@.len(),
                0 <= i <= n,
                out@.len() == i,
                forall|k: int| 0 <= k < i ==> out@[k] == self.shape@[n - 1 - k],
            decreases n - i,
        {
            out.push(self.shape[n - 1 - i]);
            i += 1;
        }
        proof {
            assert(out@ =~= self.shape@.reverse());
        }
        Dim { shape: out }
    }
}

/// A shape some index is valid for has every extent positive.
proof fn lemma_product_pos_extents_of_valid(shape: Seq<usize>, idx: Seq<usize>)
    requires
        valid_index(shape, idx),
    ensures
        forall|k: int| 0 <= k < shape.len() ==> shape[k] >= 1,
{
}

/// For a shape with positive extents, the element count of a prefix never
/// exceeds that of the whole shape.
proof fn lemma_prefix_product_le_of_valid(shape: Seq<usize>, idx: Seq<usize>, m: int)
    requires
        valid_index(shape, idx),
        0 <= m <= shape.len(),
    ensures
        shape_product(shape.take(m)) <= shape_product(shape),
{
    crate::helpers::lemma_product_prefix_le(shape, m);
}

} // verus!
