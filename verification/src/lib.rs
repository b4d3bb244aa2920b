//! A rank-polymorphic N-dimensional array library: dense, flat-buffer-backed
//! arrays of arbitrary rank with shape broadcasting, generalized reductions,
//! slicing and tensor contraction, with machine-checked contracts for the
//! shape/broadcast algebra and the contraction pipeline.
//!
//! An array is a pair of a flat row-major buffer and a [`shape::Dim`]; the
//! rank is dynamic, and every shape or axis failure is returned as a
//! [`errors::DimError`], never silently coerced.

pub mod arithmetics;
pub mod complex;
pub mod dyadic;
pub mod errors;
pub mod extras;
pub mod helpers;
pub mod maps;
pub mod scalars;
pub mod shape;
pub mod utils;

use vstd::prelude::*;

pub use errors::DimError;
pub use shape::Dim;

use crate::helpers::{checked_product, lemma_product_remove, shape_product, vec_from_slice};
use crate::shape::{broadcast_compatible, broadcast_shape_spec, flat_of, index_of,
    lemma_flat_bounds, lemma_flat_of_index_of, lemma_index_of_flat_of, lemma_remove_insert,
    lemma_valid_index_insert, lemma_valid_index_remove, rev_cast_spec, valid_index};
use vstd::arithmetic::div_mod::{
    lemma_add_mod_noop, lemma_fundamental_div_mod, lemma_fundamental_div_mod_converse,
    lemma_mod_add_multiples_vanish, lemma_mod_bound, lemma_mod_multiples_basic, lemma_small_mod,
};

verus! {

/// The main N-dimensional array type: a flat row-major buffer of element
/// values together with its shape. The buffer always holds exactly the
/// product of the extents; a rank-0 array holds one scalar.
#[derive(Debug, Clone, PartialEq, Eq)]
pub struct Ndarr<T> {
    pub data: Vec<T>,
    pub dim: Dim,
}

impl<T> Ndarr<T> {
    /// The single structural invariant: the buffer holds one element for
    /// every position of the shape.
    pub open spec fn wf(&self) -> bool {
        &&& self.data@.len() == shape_product(self.dim.shape@)
        &&& self.data@.len() <= usize::MAX
    }
}

/// The element count of `s.reverse()` equals that of `s`.
pub proof fn lemma_product_reverse(s: Seq<usize>)
    ensures
        shape_product(s.reverse()) == shape_product(s),
    decreases s.len(),
{
    if s.len() > 0 {
        let tail = s.subrange(1, s.len() as int);
        assert(s.reverse().drop_last() =~= tail.reverse());
        assert(s.reverse().last() == s[0]);
        lemma_product_reverse(tail);
        lemma_product_remove(s, 0);
        assert(s.remove(0) =~= tail);
    }
}

/// A multi-index valid for a shape stays valid when both are reversed.
pub proof fn lemma_valid_index_reverse(shape: Seq<usize>, idx: Seq<usize>)
    requires
        valid_index(shape, idx),
    ensures
        valid_index(shape.reverse(), idx.reverse()),
{
    assert forall|k: int| 0 <= k < shape.len() implies idx.reverse()[k]
        < shape.reverse()[k] by {
        assert(idx[shape.len() - 1 - k] < shape[shape.len() - 1 - k]);
    }
}

impl<T: Copy> Ndarr<T> {
    /// Builds an array from a flat buffer and a shape;
    /// `ShapeCountMismatch` when the buffer length is not the product of the
    /// extents.
    pub fn new(data: &[T], shape: &[usize]) -> (r: Result<Ndarr<T>, DimError>)
        ensures
            r is Ok <==> data@.len() == shape_product(shape@),
            r matches Ok(a) ==> a.data@ == data@ && a.dim.shape@ == shape@ && a.wf(),
    {
        let dn = data.len();
        match checked_product(shape) {
            Some(n) => {
                if dn == n {
                    let buf = vec_from_slice(data);
                    let sh = vec_from_slice(shape);
                    Ok(Ndarr { data: buf, dim: Dim { shape: sh } })
                } else {
                    Err(DimError::new("The number of elements does not match the shape"))
                }
            },
            None => {
                // The product exceeds `usize::MAX`, which no buffer length
                // can reach.
                Err(DimError::new("The number of elements does not match the shape"))
            },
        }
    }

    /// A rank-1 array over an owned buffer: the vector itself becomes the
    /// data and the shape is its length.
    pub fn from_vec(data: Vec<T>) -> (r: Ndarr<T>)
        ensures
            r.wf(),
            r.data@ == data@,
            r.dim.shape@ =~= seq![data@.len() as usize],
    {
        let n = data.len();
        let mut shape: Vec<usize> = Vec::with_capacity(1);
        shape.push(n);
        proof {
            assert(shape@ =~= seq![n]);
            crate::helpers::lemma_product_singleton(n);
        }
        Ndarr { data, dim: Dim { shape } }
    }

    /// The number of axes.
    pub fn rank(&self) -> (r: usize)
        ensures
            r == self.dim.shape@.len(),
    {
        self.dim.shape.len()
    }

    /// A copy of the per-axis extents.
    pub fn shape(&self) -> (r: Vec<usize>)
        ensures
            r@ == self.dim.shape@,
    {
        self.dim.shape()
    }

    /// The flat buffer, in row-major order.
    pub fn flatten(self) -> (r: Vec<T>)
        ensures
            r@ == self.data@,
    {
        self.data
    }

    /// The number of elements.
    pub fn len(&self) -> (r: usize)
        ensures
            r == self.data@.len(),
    {
        self.data.len()
    }

    pub fn is_empty(&self) -> (r: bool)
        ensures
            r == (self.data@.len() == 0),
    {
        self.data.len() == 0
    }

    /// The one element of a rank-0 array whose type is a plain scalar.
    pub fn scalar(self) -> (r: T) where T: crate::scalars::Scalar
        requires
            self.wf(),
            self.dim.shape@.len() == 0,
        ensures
            r == self.data@[0],
    {
        self.data[0]
    }

    /// The one element of a rank-0 array.
    pub fn extract(self) -> (r: T)
        requires
            self.wf(),
            self.dim.shape@.len() == 0,
        ensures
            r == self.data@[0],
    {
        self.data[0]
    }

    /// Relabels the buffer under a new shape of the same element count;
    /// `ShapeCountMismatch` otherwise. The buffer order is unchanged: this is
    /// a relabeling, not a transpose.
    pub fn reshape(&self, shape: &[usize]) -> (r: Result<Ndarr<T>, DimError>)
        requires
            self.wf(),
        ensures
            r is Ok <==> shape_product(shape@) == shape_product(self.dim.shape@),
            r matches Ok(a) ==> a.data@ == self.data@ && a.dim.shape@ == shape@ && a.wf(),
    {
        let dn = self.data.len();
        match checked_product(shape) {
            Some(n) => {
                if dn == n {
                    let buf = vec_from_slice(self.data.as_slice());
                    let sh = vec_from_slice(shape);
                    Ok(Ndarr { data: buf, dim: Dim { shape: sh } })
                } else {
                    Err(DimError::new("Can not reshape array to this shape"))
                }
            },
            None => Err(DimError::new("Can not reshape array to this shape")),
        }
    }

    /// The element at a multi-index; `IndexOutOfBounds` when some component
    /// reaches its axis's extent.
    pub fn get(&self, index: &[usize]) -> (r: Result<T, DimError>)
        requires
            self.wf(),
            index@.len() == self.dim.shape@.len(),
        ensures
            r is Ok <==> valid_index(self.dim.shape@, index@),
            r matches Ok(v) ==> v == self.data@[flat_of(self.dim.shape@, index@)],
    {
        let idx = Dim { shape: vec_from_slice(index) };
        match self.dim.get_flat_pos(&idx) {
            Ok(p) => {
                proof {
                    lemma_flat_bounds(self.dim.shape@, index@);
                }
                Ok(self.data[p])
            },
            Err(e) => Err(e),
        }
    }

    /// Overwrites the element at a multi-index, which must be in bounds.
    pub fn assign_at(&mut self, index: &[usize], value: T)
        requires
            old(self).wf(),
            valid_index(old(self).dim.shape@, index@),
        ensures
            final(self).dim == old(self).dim,
            final(self).data@ == old(self).data@.update(
                flat_of(old(self).dim.shape@, index@),
                value,
            ),
            final(self).wf(),
    {
        let idx = Dim { shape: vec_from_slice(index) };
        match self.dim.get_flat_pos(&idx) {
            Ok(p) => {
                proof {
                    lemma_flat_bounds(self.dim.shape@, index@);
                }
                self.data.set(p, value);
            },
            Err(_) => {
                proof {
                    assert(false);
                }
            },
        }
    }

    /// An array of the given shape with every element equal to `with`.
    pub fn fill(with: T, shape: &[usize]) -> (r: Ndarr<T>)
        requires
            shape_product(shape@) <= usize::MAX,
        ensures
            r.wf(),
            r.dim.shape@ == shape@,
            forall|i: int| 0 <= i < r.data@.len() ==> r.data@[i] == with,
    {
        let n = match checked_product(shape) {
            Some(n) => n,
            None => {
                proof {
                    assert(false);
                }
                0
            },
        };
        let mut data: Vec<T> = Vec::with_capacity(n);
        let mut i: usize = 0;
        while i < n
            invariant
                0 <= i <= n,
                data@.len() == i,
                forall|k: int| 0 <= k < i ==> data@[k] == with,
            decreases n - i,
        {
            data.push(with);
            i += 1;
        }
        Ndarr { data, dim: Dim { shape: vec_from_slice(shape) } }
    }

    /// The buffer of this array materialized into the shape it broadcasts
    /// with `shape` to: position `i` of the result holds the source element
    /// that broadcasting maps it to. `IncompatibleShapes` when the shapes do
    /// not broadcast.
    pub fn broadcast_data(&self, shape: &[usize]) -> (r: Result<Vec<T>, DimError>)
        requires
            self.wf(),
            broadcast_compatible(self.dim.shape@, shape@) ==> shape_product(
                broadcast_shape_spec(self.dim.shape@, shape@),
            ) <= usize::MAX,
            broadcast_compatible(self.dim.shape@, shape@) && shape_product(self.dim.shape@) == 0
                ==> shape_product(broadcast_shape_spec(self.dim.shape@, shape@)) == 0,
        ensures
            r is Ok <==> broadcast_compatible(self.dim.shape@, shape@),
            r matches Ok(v) ==> {
                &&& v@.len() == shape_product(broadcast_shape_spec(self.dim.shape@, shape@))
                &&& forall|i: int|
                    0 <= i < v@.len() ==> v@[i] == self.data@[rev_cast_spec(
                        self.dim.shape@,
                        index_of(broadcast_shape_spec(self.dim.shape@, shape@), i),
                    )]
            },
    {
        let ghost s1 = self.dim.shape@;
        let ghost bs = broadcast_shape_spec(self.dim.shape@, shape@);
        let target = Dim { shape: vec_from_slice(shape) };
        let new_dim = match self.dim.broadcast_shape(&target) {
            Ok(d) => d,
            Err(e) => {
                return Err(e);
            },
        };
        let n = match checked_product(new_dim.shape.as_slice()) {
            Some(n) => n,
            None => {
                proof {
                    assert(false);
                }
                0
            },
        };
        let mut out: Vec<T> = Vec::with_capacity(n);
        let mut i: usize = 0;
        while i < n
            invariant
                self.wf(),
                s1 == self.dim.shape@,
                bs == broadcast_shape_spec(s1, shape@),
                new_dim.shape@ == bs,
                n as int == shape_product(bs),
                shape_product(s1) == 0 ==> shape_product(bs) == 0,
                0 <= i <= n,
                out@.len() == i,
                forall|k: int|
                    0 <= k < i ==> out@[k] == self.data@[rev_cast_spec(s1, index_of(bs, k))],
            decreases n - i,
        {
            proof {
                crate::helpers::lemma_product_nonneg(s1);
            }
            let idx = new_dim.get_indexes(&i);
            let pos = match Dim::rev_cast_pos(&self.dim, &idx) {
                Ok(p) => p,
                Err(_) => {
                    proof {
                        assert(false);
                    }
                    0
                },
            };
            out.push(self.data[pos]);
            i += 1;
        }
        Ok(out)
    }

    /// The array materialized into the broadcast of its shape with `shape`;
    /// `IncompatibleShapes` when the shapes do not broadcast.
    pub fn broadcast(&self, shape: &[usize]) -> (r: Result<Ndarr<T>, DimError>)
        requires
            self.wf(),
            broadcast_compatible(self.dim.shape@, shape@) ==> shape_product(
                broadcast_shape_spec(self.dim.shape@, shape@),
            ) <= usize::MAX,
            broadcast_compatible(self.dim.shape@, shape@) && shape_product(self.dim.shape@) == 0
                ==> shape_product(broadcast_shape_spec(self.dim.shape@, shape@)) == 0,
        ensures
            r is Ok <==> broadcast_compatible(self.dim.shape@, shape@),
            r matches Ok(a) ==> {
                &&& a.wf()
                &&& a.dim.shape@ == broadcast_shape_spec(self.dim.shape@, shape@)
                &&& forall|i: int|
                    0 <= i < a.data@.len() ==> a.data@[i] == self.data@[rev_cast_spec(
                        self.dim.shape@,
                        index_of(broadcast_shape_spec(self.dim.shape@, shape@), i),
                    )]
            },
    {
        let target = Dim { shape: vec_from_slice(shape) };
        let new_dim = match self.dim.broadcast_shape(&target) {
            Ok(d) => d,
            Err(e) => {
                return Err(e);
            },
        };
        let data = match self.broadcast_data(shape) {
            Ok(v) => v,
            Err(_) => {
                proof {
                    assert(false);
                }
                return Err(DimError::new("Error arrays with these shapes can not be broadcasted"));
            },
        };
        Ok(Ndarr { data, dim: new_dim })
    }

    /// Broadcasts toward a target shape that must already dominate the
    /// result: errors when the broadcast result would need a rank above the
    /// target's. On success the result is the broadcast materialization,
    /// exactly as `broadcast` produces it: position `i` holds the source
    /// element that the reverse cast of the broadcast maps it to.
    pub fn broadcast_to(&self, shape: &[usize]) -> (r: Result<Ndarr<T>, DimError>)
        requires
            self.wf(),
            broadcast_compatible(self.dim.shape@, shape@) ==> shape_product(
                broadcast_shape_spec(self.dim.shape@, shape@),
            ) <= usize::MAX,
            broadcast_compatible(self.dim.shape@, shape@) && shape_product(self.dim.shape@) == 0
                ==> shape_product(broadcast_shape_spec(self.dim.shape@, shape@)) == 0,
        ensures
            r is Ok <==> broadcast_compatible(self.dim.shape@, shape@) && self.dim.shape@.len()
                <= shape@.len(),
            r matches Ok(a) ==> {
                &&& a.wf()
                &&& a.dim.shape@ == broadcast_shape_spec(self.dim.shape@, shape@)
                &&& forall|i: int|
                    0 <= i < a.data@.len() ==> a.data@[i] == self.data@[rev_cast_spec(
                        self.dim.shape@,
                        index_of(broadcast_shape_spec(self.dim.shape@, shape@), i),
                    )]
            },
    {
        let target = Dim { shape: vec_from_slice(shape) };
        let new_dim = match self.dim.broadcast_shape(&target) {
            Ok(d) => d,
            Err(e) => {
                return Err(e);
            },
        };
        if new_dim.shape.len() > shape.len() {
            return Err(DimError::new("Array can not be broadcasted to shape"));
        }
        match self.broadcast(shape) {
            Ok(a) => Ok(a),
            Err(_) => {
                proof {
                    assert(false);
                }
                Err(DimError::new("Array can not be broadcasted to shape"))
            },
        }
    }

    /// Rolls the elements along `axis` by `shift`: elements that roll beyond
    /// the last position re-enter at the first. The rotation amount is
    /// `shift` reduced into `[0, extent)` in the Euclidean sense, so a
    /// negative shift rolls the other way.
    pub fn roll(&self, shift: isize, axis: usize) -> (r: Ndarr<T>)
        requires
            self.wf(),
            axis < self.dim.shape@.len(),
            self.dim.shape@[axis as int] >= 1,
        ensures
            r.wf(),
            r.dim.shape@ == self.dim.shape@,
            r.data@.len() == self.data@.len(),
            forall|p: int|
                0 <= p < r.data@.len() ==> #[trigger] r.data@[p] == self.data@[flat_of(
                    self.dim.shape@,
                    index_of(self.dim.shape@, p).update(
                        axis as int,
                        ((index_of(self.dim.shape@, p)[axis as int] + self.dim.shape@[axis as int]
                            - ((shift as int) % (self.dim.shape@[axis as int] as int))) % (
                        self.dim.shape@[axis as int] as int)) as usize,
                    ),
                )],
    {
        let ghost s = self.dim.shape@;
        let count = self.dim.shape[axis];
        let ghost m = count as int;
        let rot: usize = euclid_rem(shift, count);
        let n = self.data.len();
        let mut out: Vec<T> = Vec::with_capacity(n);
        let mut p: usize = 0;
        while p < n
            invariant
                self.wf(),
                s == self.dim.shape@,
                axis < s.len(),
                count == s[axis as int],
                count >= 1,
                m == count as int,
                rot as int == (shift as int) % m,
                0 <= rot < count,
                n == self.data@.len(),
                0 <= p <= n,
                out@.len() == p,
                forall|k: int|
                    0 <= k < p ==> #[trigger] out@[k] == self.data@[flat_of(
                        s,
                        index_of(s, k).update(
                            axis as int,
                            ((index_of(s, k)[axis as int] + s[axis as int] - ((shift as int)
                                % m)) % m) as usize,
                        ),
                    )],
            decreases n - p,
        {
            let idx = self.dim.get_indexes(&p);
            let comp = idx.shape[axis];
            let newc = if comp >= rot {
                comp - rot
            } else {
                comp + (count - rot)
            };
            proof {
                lemma_mod_add_multiples_vanish(comp as int - rot as int, m);
                lemma_small_mod((newc as nat), (count as nat));
                assert(newc as int == (comp + m - rot) % m);
            }
            let mut v = idx.shape;
            v.set(axis, newc);
            let idx2 = Dim { shape: v };
            proof {
                assert forall|k: int| 0 <= k < s.len() implies idx2.shape@[k] < s[k] by {
                    if k != axis as int {
                        assert(index_of(s, p as int)[k] < s[k]);
                    }
                }
                lemma_flat_bounds(s, idx2.shape@);
            }
            let pos = match self.dim.get_flat_pos(&idx2) {
                Ok(q) => q,
                Err(_) => {
                    proof {
                        assert(false);
                    }
                    0
                },
            };
            out.push(self.data[pos]);
            p += 1;
        }
        Ndarr { data: out, dim: Dim { shape: self.dim.shape() } }
    }

    /// Transposes the array: the shape is reversed and the element at
    /// multi-index `(i_0, ..., i_{r-1})` moves to `(i_{r-1}, ..., i_0)`.
    pub fn t(&self) -> (r: Ndarr<T>)
        requires
            self.wf(),
        ensures
            r.wf(),
            r.dim.shape@ == self.dim.shape@.reverse(),
            r.data@.len() == self.data@.len(),
            forall|p: int|
                0 <= p < r.data@.len() ==> r.data@[p] == self.data@[flat_of(
                    self.dim.shape@,
                    index_of(self.dim.shape@.reverse(), p).reverse(),
                )],
    {
        let ghost s = self.dim.shape@;
        let ghost rs = self.dim.shape@.reverse();
        let out_dim = self.dim.reverse();
        proof {
            lemma_product_reverse(s);
        }
        let n = self.data.len();
        if n == 0 {
            return Ndarr { data: Vec::new(), dim: out_dim };
        }
        let mut out: Vec<T> = Vec::with_capacity(n);
        let mut i: usize = 0;
        while i < n
            invariant
                0 <= i <= n,
                out@.len() == i,
                self.data@.len() == n,
                n >= 1,
            decreases n - i,
        {
            out.push(self.data[0]);
            i += 1;
        }
        let mut i: usize = 0;
        while i < n
            invariant
                self.wf(),
                n == self.data@.len(),
                out_dim.shape@ == rs,
                rs == s.reverse(),
                s == self.dim.shape@,
                shape_product(rs) == n,
                out@.len() == n,
                0 <= i <= n,
                forall|j: int|
                    0 <= j < i ==> out@[flat_of(rs, index_of(s, j).reverse())] == self.data@[j],
            decreases n - i,
        {
            let idx = self.dim.get_indexes(&i);
            let rev_idx = idx.reverse();
            proof {
                lemma_valid_index_reverse(s, idx.shape@);
                lemma_flat_bounds(rs, rev_idx.shape@);
            }
            let pos = match out_dim.get_flat_pos(&rev_idx) {
                Ok(p) => p,
                Err(_) => {
                    proof {
                        assert(false);
                    }
                    0
                },
            };
            let ghost old_out = out@;
            out.set(pos, self.data[i]);
            proof {
                assert forall|j: int|
                    0 <= j < i + 1 implies out@[flat_of(rs, index_of(s, j).reverse())]
                    == self.data@[j] by {
                    lemma_flat_of_index_of(s, j);
                    lemma_valid_index_reverse(s, index_of(s, j));
                    lemma_flat_bounds(rs, index_of(s, j).reverse());
                    if j < i {
                        // The write at `pos` touches only position `i`'s
                        // target: distinct flat positions come from distinct
                        // multi-indices.
                        lemma_flat_of_index_of(s, i as int);
                        lemma_valid_index_reverse(s, index_of(s, i as int));
                        if flat_of(rs, index_of(s, j).reverse()) == pos {
                            lemma_index_of_flat_of(rs, index_of(s, j).reverse());
                            lemma_index_of_flat_of(rs, index_of(s, i as int).reverse());
                            assert(index_of(s, j).reverse() == index_of(s, i as int).reverse());
                            assert(index_of(s, j).reverse().reverse() =~= index_of(s, j));
                            assert(index_of(s, i as int).reverse().reverse() =~= index_of(
                                s,
                                i as int,
                            ));
                            assert(index_of(s, j) == index_of(s, i as int));
                            assert(flat_of(s, index_of(s, j)) == j);
                            assert(flat_of(s, index_of(s, i as int)) == i);
                            assert(false);
                        }
                        assert(out@[flat_of(rs, index_of(s, j).reverse())] == old_out[flat_of(
                            rs,
                            index_of(s, j).reverse(),
                        )]);
                    }
                }
            }
            i += 1;
        }
        proof {
            assert forall|p: int|
                0 <= p < n implies out@[p] == self.data@[flat_of(
                s,
                index_of(rs, p).reverse(),
            )] by {
                lemma_product_reverse(s);
                lemma_flat_of_index_of(rs, p);
                lemma_valid_index_reverse(rs, index_of(rs, p));
                assert(rs.reverse() =~= s);
                let src = flat_of(s, index_of(rs, p).reverse());
                lemma_flat_bounds(s, index_of(rs, p).reverse());
                assert(0 <= src < n);
                // Instantiate the loop invariant at the source position.
                assert(out@[flat_of(rs, index_of(s, src).reverse())] == self.data@[src]);
                lemma_index_of_flat_of(s, index_of(rs, p).reverse());
                assert(index_of(s, src) == index_of(rs, p).reverse());
                assert(index_of(rs, p).reverse().reverse() =~= index_of(rs, p));
                lemma_flat_of_index_of(rs, p);
                assert(flat_of(rs, index_of(s, src).reverse()) == p);
            }
        }
        Ndarr { data: out, dim: out_dim }
    }
}

/// The flat position, in an array of shape `s`, of element `j` of the `i`-th
/// cross-section of the array along `axis`.
pub open spec fn slice_src_pos(s: Seq<usize>, axis: int, i: int, j: int) -> int {
    flat_of(s, index_of(s.remove(axis), j).insert(axis, i as usize))
}

impl<T: Copy> Ndarr<T> {
    /// Splits the array along `axis` into `shape[axis]` arrays of rank one
    /// less: slice `i` is the cross-section at index `i` along `axis`, its
    /// elements in row-major order of the remaining axes.
    pub fn slice_at(&self, axis: usize) -> (r: Vec<Ndarr<T>>)
        requires
            self.wf(),
            axis < self.dim.shape@.len(),
        ensures
            r@.len() == self.dim.shape@[axis as int],
            forall|i: int|
                0 <= i < r@.len() ==> {
                    &&& (#[trigger] r@[i]).wf()
                    &&& r@[i].dim.shape@ == self.dim.shape@.remove(axis as int)
                    &&& r@[i].data@.len() == shape_product(self.dim.shape@.remove(axis as int))
                    &&& forall|j: int|
                        0 <= j < r@[i].data@.len() ==> #[trigger] r@[i].data@[j]
                            == self.data@[slice_src_pos(self.dim.shape@, axis as int, i, j)]
                },
    {
        let ghost s = self.dim.shape@;
        let ghost s2 = s.remove(axis as int);
        let rank = self.dim.shape.len();
        let extent = self.dim.shape[axis];
        let mut out: Vec<Ndarr<T>> = Vec::new();
        if extent == 0 {
            return out;
        }
        let sub_dim = Dim { shape: self.dim.shape() }.remove_element(axis);
        let n2 = self.data.len() / extent;
        proof {
            lemma_product_remove(s, axis as int);
            crate::helpers::lemma_product_nonneg(s2);
            lemma_fundamental_div_mod_converse(
                shape_product(s),
                extent as int,
                shape_product(s2),
                0,
            );
        }
        let mut i: usize = 0;
        while i < extent
            invariant
                self.wf(),
                s == self.dim.shape@,
                s2 == s.remove(axis as int),
                rank == s.len(),
                axis < rank,
                extent == s[axis as int],
                sub_dim.shape@ == s2,
                n2 as int == shape_product(s2),
                0 <= i <= extent,
                out@.len() == i,
                forall|ii: int|
                    0 <= ii < i ==> {
                        &&& (#[trigger] out@[ii]).wf()
                        &&& out@[ii].dim.shape@ == s2
                        &&& out@[ii].data@.len() == shape_product(s2)
                        &&& forall|j: int|
                            0 <= j < out@[ii].data@.len() ==> #[trigger] out@[ii].data@[j]
                                == self.data@[slice_src_pos(s, axis as int, ii, j)]
                    },
            decreases extent - i,
        {
            let mut buf: Vec<T> = Vec::with_capacity(n2);
            let mut j: usize = 0;
            while j < n2
                invariant
                    self.wf(),
                    s == self.dim.shape@,
                    s2 == s.remove(axis as int),
                    rank == s.len(),
                    axis < rank,
                    extent == s[axis as int],
                    i < extent,
                    sub_dim.shape@ == s2,
                    n2 as int == shape_product(s2),
                    0 <= j <= n2,
                    buf@.len() == j,
                    forall|k: int|
                        0 <= k < j ==> #[trigger] buf@[k] == self.data@[slice_src_pos(
                            s,
                            axis as int,
                            i as int,
                            k,
                        )],
                decreases n2 - j,
            {
                let idx_small = sub_dim.get_indexes(&j);
                let idx_full = idx_small.insert_element(axis, i);
                proof {
                    lemma_valid_index_insert(s2, index_of(s2, j as int), axis as int, i, extent);
                    lemma_remove_insert(s, axis as int);
                    lemma_flat_bounds(s, idx_full.shape@);
                }
                let pos = match self.dim.get_flat_pos(&idx_full) {
                    Ok(p) => p,
                    Err(_) => {
                        proof {
                            assert(false);
                        }
                        0
                    },
                };
                buf.push(self.data[pos]);
                j += 1;
            }
            out.push(Ndarr { data: buf, dim: Dim { shape: sub_dim.shape() } });
            i += 1;
        }
        out
    }
}

/// Reassembles cross-sections taken along `axis` into one array of rank one
/// more: the exact left inverse of `slice_at`. All slices must share one
/// shape and hold at least one element each.
pub fn de_slice<T: Copy>(slices: &Vec<Ndarr<T>>, axis: usize) -> (r: Ndarr<T>)
    requires
        slices@.len() >= 1,
        forall|i: int| 0 <= i < slices@.len() ==> (#[trigger] slices@[i]).wf(),
        forall|i: int|
            0 <= i < slices@.len() ==> (#[trigger] slices@[i]).dim.shape@
                == slices@[0].dim.shape@,
        axis <= slices@[0].dim.shape@.len(),
        slices@[0].dim.shape@.len() < usize::MAX,
        slices@[0].data@.len() >= 1,
        shape_product(
            slices@[0].dim.shape@.insert(axis as int, slices@.len() as usize),
        ) <= usize::MAX,
    ensures
        r.wf(),
        r.dim.shape@ == slices@[0].dim.shape@.insert(axis as int, slices@.len() as usize),
        forall|p: int|
            0 <= p < r.data@.len() ==> #[trigger] r.data@[p] == slices@[index_of(
                slices@[0].dim.shape@.insert(axis as int, slices@.len() as usize),
                p,
            )[axis as int] as int].data@[flat_of(
                slices@[0].dim.shape@,
                index_of(
                    slices@[0].dim.shape@.insert(axis as int, slices@.len() as usize),
                    p,
                ).remove(axis as int),
            )],
{
    let ghost s2 = slices@[0].dim.shape@;
    let count = slices.len();
    let ghost out_s = s2.insert(axis as int, count as usize);
    let n2 = slices[0].data.len();
    let rank2 = slices[0].dim.shape.len();
    let out_dim = Dim { shape: slices[0].dim.shape() }.insert_element(axis, count);
    proof {
        crate::helpers::lemma_product_insert(s2, axis as int, count as usize);
    }
    let n = match checked_product(out_dim.shape.as_slice()) {
        Some(n) => n,
        None => {
            proof {
                assert(false);
            }
            0
        },
    };
    let init = slices[0].data[0];
    let mut out: Vec<T> = Vec::with_capacity(n);
    let mut p: usize = 0;
    while p < n
        invariant
            0 <= p <= n,
            out@.len() == p,
        decreases n - p,
    {
        out.push(init);
        p += 1;
    }
    let mut i: usize = 0;
    while i < count
        invariant
            slices@.len() == count,
            forall|ii: int| 0 <= ii < count ==> (#[trigger] slices@[ii]).wf(),
            forall|ii: int| 0 <= ii < count ==> (#[trigger] slices@[ii]).dim.shape@ == s2,
            s2 == slices@[0].dim.shape@,
            axis <= s2.len(),
            rank2 == s2.len(),
            out_s == s2.insert(axis as int, count as usize),
            out_dim.shape@ == out_s,
            s2.len() < usize::MAX,
            n as int == shape_product(out_s),
            n2 as int == shape_product(s2),
            n2 >= 1,
            out@.len() == n,
            0 <= i <= count,
            forall|ii: int, j: int|
                0 <= ii < i && 0 <= j < n2 ==> #[trigger] out@[slice_src_pos(
                    out_s,
                    axis as int,
                    ii,
                    j,
                )] == slices@[ii].data@[j],
        decreases count - i,
    {
        let sub_dim = Dim { shape: slices[0].dim.shape() };
        let mut j: usize = 0;
        while j < n2
            invariant
                slices@.len() == count,
                forall|ii: int| 0 <= ii < count ==> (#[trigger] slices@[ii]).wf(),
                forall|ii: int| 0 <= ii < count ==> (#[trigger] slices@[ii]).dim.shape@ == s2,
                s2 == slices@[0].dim.shape@,
                axis <= s2.len(),
                rank2 == s2.len(),
                out_s == s2.insert(axis as int, count as usize),
                n as int == shape_product(out_s),
                n2 as int == shape_product(s2),
                sub_dim.shape@ == s2,
                out_dim.shape@ == out_s,
                s2.len() < usize::MAX,
                i < count,
                out@.len() == n,
                0 <= j <= n2,
                forall|ii: int, jj: int|
                    (0 <= ii < i && 0 <= jj < n2) || (ii == i && 0 <= jj < j) ==> #[trigger] out@[
                        slice_src_pos(out_s, axis as int, ii, jj)
                    ] == slices@[ii].data@[jj],
            decreases n2 - j,
        {
            let idx_small = sub_dim.get_indexes(&j);
            let idx_full = idx_small.insert_element(axis, i);
            proof {
                lemma_valid_index_insert(s2, index_of(s2, j as int), axis as int, i, count);
                lemma_flat_bounds(out_s, idx_full.shape@);
            }
            let pos = match out_dim.get_flat_pos(&idx_full) {
                Ok(p) => p,
                Err(_) => {
                    proof {
                        assert(false);
                    }
                    0
                },
            };
            let ghost old_out = out@;
            out.set(pos, slices[i].data[j]);
            proof {
                assert forall|ii: int, jj: int|
                    (0 <= ii < i && 0 <= jj < n2) || (ii == i as int && 0 <= jj < j + 1)
                        implies #[trigger] out@[slice_src_pos(out_s, axis as int, ii, jj)]
                    == slices@[ii].data@[jj] by {
                    assert(out_s.remove(axis as int) =~= s2);
                    lemma_flat_of_index_of(s2, jj);
                    lemma_valid_index_insert(
                        s2,
                        index_of(s2, jj),
                        axis as int,
                        ii as usize,
                        count as usize,
                    );
                    lemma_flat_bounds(out_s, index_of(s2, jj).insert(axis as int, ii as usize));
                    if ii == i as int && jj == j as int {
                    } else {
                        // The write targets a different flat position:
                        // distinct (slice, offset) pairs give distinct
                        // multi-indices, hence distinct flat positions.
                        if slice_src_pos(out_s, axis as int, ii, jj) == pos {
                            let a = index_of(s2, jj).insert(axis as int, ii as usize);
                            let b = index_of(s2, j as int).insert(axis as int, i as usize);
                            lemma_index_of_flat_of(out_s, a);
                            lemma_index_of_flat_of(out_s, b);
                            assert(a == b);
                            assert(a[axis as int] == ii as usize);
                            assert(b[axis as int] == i as usize);
                            assert(a.remove(axis as int) =~= index_of(s2, jj));
                            assert(b.remove(axis as int) =~= index_of(s2, j as int));
                            lemma_flat_of_index_of(s2, j as int);
                            assert(flat_of(s2, index_of(s2, jj)) == jj);
                            assert(flat_of(s2, index_of(s2, j as int)) == j);
                            assert(false);
                        }
                        assert(out@[slice_src_pos(out_s, axis as int, ii, jj)] == old_out[
                            slice_src_pos(out_s, axis as int, ii, jj)
                        ]);
                    }
                }
            }
            j += 1;
        }
        i += 1;
    }
    proof {
        assert forall|p: int|
            0 <= p < n implies out@[p] == slices@[index_of(out_s, p)[axis as int] as int].data@[
            flat_of(s2, index_of(out_s, p).remove(axis as int))
        ] by {
            assert(out_s.remove(axis as int) =~= s2);
            lemma_flat_of_index_of(out_s, p);
            let idx = index_of(out_s, p);
            lemma_valid_index_remove(out_s, idx, axis as int);
            proof_remove_of_insert(s2, axis as int, count as usize, idx);
            let ii = idx[axis as int] as int;
            let jj = flat_of(s2, idx.remove(axis as int));
            lemma_flat_bounds(s2, idx.remove(axis as int));
            // Instantiate the scatter invariant at (ii, jj).
            assert(out@[slice_src_pos(out_s, axis as int, ii, jj)] == slices@[ii].data@[jj]);
            lemma_index_of_flat_of(s2, idx.remove(axis as int));
            assert(index_of(s2, jj) == idx.remove(axis as int));
            lemma_remove_insert(out_s, axis as int);
            assert(idx.remove(axis as int).insert(axis as int, idx[axis as int]) =~= idx);
            lemma_index_of_flat_of(out_s, idx);
            assert(slice_src_pos(out_s, axis as int, ii, jj) == flat_of(out_s, idx));
            assert(flat_of(out_s, idx) == p);
        }
    }
    Ndarr { data: out, dim: out_dim }
}

/// Slice/de-slice inverse: reassembling the cross-sections of an array along
/// any axis returns the array. `sl` is the family of slice buffers that
/// `slice_at` ensures, `d` the buffer that `de_slice` ensures; the law holds
/// for every array with at least one element on the sliced axis.
pub proof fn lemma_de_slice_slice_at<T>(
    s: Seq<usize>,
    a: Seq<T>,
    axis: int,
    sl: Seq<Seq<T>>,
    d: Seq<T>,
)
    requires
        a.len() == shape_product(s),
        0 <= axis < s.len(),
        sl.len() == s[axis],
        forall|i: int|
            0 <= i < sl.len() ==> (#[trigger] sl[i]).len() == shape_product(s.remove(axis)),
        forall|i: int, j: int|
            0 <= i < sl.len() && 0 <= j < shape_product(s.remove(axis)) ==> #[trigger] sl[i][j]
                == a[slice_src_pos(s, axis, i, j)],
        d.len() == shape_product(s.remove(axis).insert(axis, s[axis])),
        forall|p: int|
            0 <= p < d.len() ==> #[trigger] d[p] == sl[index_of(
                s.remove(axis).insert(axis, s[axis]),
                p,
            )[axis] as int][flat_of(
                s.remove(axis),
                index_of(s.remove(axis).insert(axis, s[axis]), p).remove(axis),
            )],
    ensures
        d == a,
{
    let s2 = s.remove(axis);
    lemma_remove_insert(s, axis);
    assert(s2.insert(axis, s[axis]) == s);
    assert forall|p: int| 0 <= p < d.len() implies d[p] == a[p] by {
        lemma_flat_of_index_of(s, p);
        let idx = index_of(s, p);
        lemma_valid_index_remove(s, idx, axis);
        let i = idx[axis] as int;
        let j = flat_of(s2, idx.remove(axis));
        lemma_flat_bounds(s2, idx.remove(axis));
        assert(d[p] == sl[i][j]);
        assert(sl[i][j] == a[slice_src_pos(s, axis, i, j)]);
        lemma_index_of_flat_of(s2, idx.remove(axis));
        assert(index_of(s2, j) == idx.remove(axis));
        lemma_remove_insert(idx, axis);
        assert(idx.remove(axis).insert(axis, idx[axis]) == idx);
        assert(slice_src_pos(s, axis, i, j) == flat_of(s, idx));
        assert(flat_of(s, idx) == p);
    }
    assert(d =~= a);
}

/// What `slice_at(a, axis)` promises of its result: one well-formed slice of
/// the reduced shape per index along `axis`, each element copied from its
/// source position.
pub open spec fn is_slices_of<T>(sl: Seq<Ndarr<T>>, s: Seq<usize>, a: Seq<T>, axis: int) -> bool {
    &&& sl.len() == s[axis]
    &&& forall|i: int|
        0 <= i < sl.len() ==> {
            &&& (#[trigger] sl[i]).wf()
            &&& sl[i].dim.shape@ == s.remove(axis)
            &&& sl[i].data@.len() == shape_product(s.remove(axis))
        }
    &&& forall|i: int, j: int|
        0 <= i < sl.len() && 0 <= j < shape_product(s.remove(axis)) ==> #[trigger] sl[i].data@[j]
            == a[slice_src_pos(s, axis, i, j)]
}

/// The column of source elements that the fold or scan along `axis` combines
/// to produce output position `j`: one element per index of the folded axis.
pub open spec fn axis_items<T>(s: Seq<usize>, a: Seq<T>, axis: int, j: int) -> Seq<T> {
    Seq::new(s[axis] as nat, |i: int| a[slice_src_pos(s, axis, i, j)])
}

/// Holds when `result` can be reached by folding `items` from the left with
/// the operator `f`: the accumulator starts at `items[0]` and each step
/// combines the accumulator with the next item, in an input-output pair that
/// `f`'s contract admits.
pub open spec fn reduces_to<T, F: Fn(T, T) -> T>(f: F, items: Seq<T>, result: T) -> bool
    decreases items.len(),
{
    if items.len() == 1 {
        result == items[0]
    } else if items.len() > 1 {
        exists|mid: T|
            reduces_to(f, items.drop_last(), mid) && #[trigger] call_ensures(
                f,
                (mid, items.last()),
                result,
            )
    } else {
        false
    }
}

/// The left fold of `items` under a spec-level operator.
pub open spec fn spec_fold<T>(items: Seq<T>, g: spec_fn(T, T) -> T) -> T
    decreases items.len(),
{
    if items.len() <= 1 {
        items[0]
    } else {
        g(spec_fold(items.drop_last(), g), items.last())
    }
}

/// With an operator whose contract pins one result for every input pair, a
/// fold chain reaches exactly the spec-level fold.
pub proof fn lemma_reduces_to_deterministic<T, F: Fn(T, T) -> T>(
    f: F,
    g: spec_fn(T, T) -> T,
    items: Seq<T>,
    result: T,
)
    requires
        reduces_to(f, items, result),
        forall|x: T, y: T, z: T| call_ensures(f, (x, y), z) ==> z == g(x, y),
    ensures
        items.len() >= 1,
        result == spec_fold(items, g),
    decreases items.len(),
{
    if items.len() > 1 {
        let mid = choose|mid: T|
            reduces_to(f, items.drop_last(), mid) && #[trigger] call_ensures(
                f,
                (mid, items.last()),
                result,
            );
        lemma_reduces_to_deterministic(f, g, items.drop_last(), mid);
    }
}

impl<T: Copy> Ndarr<T> {
    /// Folds the array along `axis` with `f`, strictly left to right: the
    /// accumulator starts at slice 0 and is combined elementwise with each
    /// following slice. `AxisOutOfRange` when `axis` reaches the rank. The
    /// operator must accept every pair, since it is fed its own results.
    pub fn reduce<F: Fn(T, T) -> T>(&self, axis: usize, f: F) -> (r: Result<Ndarr<T>, DimError>)
        requires
            self.wf(),
            axis < self.dim.shape@.len() ==> self.dim.shape@[axis as int] >= 1,
            forall|x: T, y: T| call_requires(f, (x, y)),
        ensures
            r is Ok <==> axis < self.dim.shape@.len(),
            r matches Ok(out) ==> {
                &&& out.wf()
                &&& out.dim.shape@ == self.dim.shape@.remove(axis as int)
                &&& out.data@.len() == shape_product(self.dim.shape@.remove(axis as int))
                &&& forall|j: int|
                    0 <= j < out.data@.len() ==> reduces_to(
                        f,
                        axis_items(self.dim.shape@, self.data@, axis as int, j),
                        #[trigger] out.data@[j],
                    )
            },
    {
        let ghost s = self.dim.shape@;
        let ghost s2 = s.remove(axis as int);
        if axis >= self.dim.shape.len() {
            return Err(DimError::new("Axis greater than rank"));
        }
        let slices = self.slice_at(axis);
        let count = slices.len();
        let n2 = slices[0].data.len();
        let out_dim = Dim { shape: slices[0].dim.shape() };
        let mut out_data = vec_from_slice(slices[0].data.as_slice());
        proof {
            assert(is_slices_of(slices@, s, self.data@, axis as int));
            assert forall|j: int| 0 <= j < n2 implies reduces_to(
                f,
                axis_items(s, self.data@, axis as int, j).take(1),
                #[trigger] out_data@[j],
            ) by {
                let items = axis_items(s, self.data@, axis as int, j);
                assert(items.take(1).len() == 1);
                assert(items.take(1)[0] == self.data@[slice_src_pos(s, axis as int, 0, j)]);
                assert(out_data@[j] == slices@[0].data@[j]);
            }
        }
        let mut i: usize = 1;
        while i < count
            invariant
                self.wf(),
                s == self.dim.shape@,
                s2 == s.remove(axis as int),
                axis < s.len(),
                is_slices_of(slices@, s, self.data@, axis as int),
                count == slices@.len(),
                n2 as int == shape_product(s2),
                out_data@.len() == n2,
                forall|x: T, y: T| call_requires(f, (x, y)),
                1 <= i <= count,
                forall|j: int|
                    0 <= j < n2 ==> reduces_to(
                        f,
                        axis_items(s, self.data@, axis as int, j).take(i as int),
                        #[trigger] out_data@[j],
                    ),
            decreases count - i,
        {
            let mut j: usize = 0;
            while j < n2
                invariant
                    self.wf(),
                    s == self.dim.shape@,
                    s2 == s.remove(axis as int),
                    axis < s.len(),
                    is_slices_of(slices@, s, self.data@, axis as int),
                    count == slices@.len(),
                    n2 as int == shape_product(s2),
                    out_data@.len() == n2,
                    forall|x: T, y: T| call_requires(f, (x, y)),
                    1 <= i < count,
                    0 <= j <= n2,
                    forall|jj: int|
                        j <= jj < n2 ==> reduces_to(
                            f,
                            axis_items(s, self.data@, axis as int, jj).take(i as int),
                            #[trigger] out_data@[jj],
                        ),
                    forall|jj: int|
                        0 <= jj < j ==> reduces_to(
                            f,
                            axis_items(s, self.data@, axis as int, jj).take(i + 1),
                            #[trigger] out_data@[jj],
                        ),
                decreases n2 - j,
            {
                let ghost prev = out_data@[j as int];
                let v = f(out_data[j], slices[i].data[j]);
                proof {
                    let items = axis_items(s, self.data@, axis as int, j as int);
                    assert(items.take(i + 1).drop_last() =~= items.take(i as int));
                    assert(items.take(i + 1).last() == items[i as int]);
                    assert(items[i as int] == self.data@[slice_src_pos(
                        s,
                        axis as int,
                        i as int,
                        j as int,
                    )]);
                    assert(slices@[i as int].data@[j as int] == self.data@[slice_src_pos(
                        s,
                        axis as int,
                        i as int,
                        j as int,
                    )]);
                    assert(reduces_to(f, items.take(i as int), prev));
                    assert(call_ensures(f, (prev, items.take(i + 1).last()), v));
                    assert(reduces_to(f, items.take(i + 1), v));
                }
                out_data.set(j, v);
                j += 1;
            }
            i += 1;
        }
        proof {
            assert forall|j: int| 0 <= j < n2 implies reduces_to(
                f,
                axis_items(s, self.data@, axis as int, j),
                #[trigger] out_data@[j],
            ) by {
                let items = axis_items(s, self.data@, axis as int, j);
                assert(items.take(count as int) =~= items);
            }
        }
        Ok(Ndarr { data: out_data, dim: out_dim })
    }
}

/// The Euclidean remainder of a possibly negative shift by a positive
/// extent: the rotation amount a roll reduces to.
#[verifier::spinoff_prover]
fn euclid_rem(shift: isize, count: usize) -> (r: usize)
    requires
        count >= 1,
    ensures
        r as int == (shift as int) % (count as int),
        r < count,
{
    let ghost m = count as int;
    if count == 1 {
        proof {
            lemma_mod_bound(shift as int, 1);
        }
        0
    } else if shift >= 0 {
        let su = shift as usize;
        proof {
            assert(su as int == shift as int);
            lemma_mod_bound(su as int, m);
        }
        su % count
    } else {
        let a = (-(shift + 1)) as usize;
        let c = a % count;
        let r = (count - ((c + 1) % count)) % count;
        proof {
            let x = a as int;
            assert(shift as int == -(x + 1));
            let y = (x + 1) % m;
            lemma_mod_bound(x + 1, m);
            lemma_add_mod_noop(x, 1, m);
            lemma_small_mod(1nat, count as nat);
            assert((c as int + 1) % m == y);
            let q = (x + 1) / m;
            lemma_fundamental_div_mod(x + 1, m);
            if y == 0 {
                assert(x + 1 == m * q);
                assert(shift as int == m * (-q)) by (nonlinear_arith)
                    requires x + 1 == m * q && shift as int == -(x + 1);
                lemma_mod_multiples_basic(-q, m);
                lemma_mod_multiples_basic(1, m);
                assert(m * 1 == m);
                assert((m - 0) % m == 0);
            } else {
                assert(shift as int == m * (-q - 1) + (m - y)) by (nonlinear_arith)
                    requires x + 1 == m * q + y && shift as int == -(x + 1);
                lemma_fundamental_div_mod_converse(shift as int, m, -q - 1, m - y);
                lemma_small_mod((m - y) as nat, count as nat);
            }
        }
        r
    }
}

/// The shape a slice shape came from: removing the inserted axis gives it
/// back.
proof fn proof_remove_of_insert(s2: Seq<usize>, k: int, c: usize, idx: Seq<usize>)
    requires
        0 <= k <= s2.len(),
        valid_index(s2.insert(k, c), idx),
    ensures
        valid_index(s2, idx.remove(k)),
        idx[k] < c,
{
    lemma_valid_index_remove(s2.insert(k, c), idx, k);
    assert(s2.insert(k, c).remove(k) =~= s2);
}

/// Transpose involution: transposing twice returns the original array.
///
/// Stated over the element formulas that `t` ensures: if `b` is the
/// transpose of `a` and `c` is the transpose of `b`, then `c` has `a`'s
/// shape and buffer.
pub proof fn lemma_transpose_involution<T>(
    s: Seq<usize>,
    a: Seq<T>,
    b: Seq<T>,
    c: Seq<T>,
)
    requires
        a.len() == shape_product(s),
        b.len() == a.len(),
        c.len() == a.len(),
        forall|p: int|
            0 <= p < b.len() ==> b[p] == a[flat_of(s, index_of(s.reverse(), p).reverse())],
        forall|p: int|
            0 <= p < c.len() ==> c[p] == b[flat_of(
                s.reverse(),
                index_of(s.reverse().reverse(), p).reverse(),
            )],
    ensures
        c == a,
{
    assert forall|p: int| 0 <= p < c.len() implies c[p] == a[p] by {
        assert(s.reverse().reverse() =~= s);
        lemma_flat_of_index_of(s, p);
        lemma_valid_index_reverse(s, index_of(s, p));
        lemma_flat_bounds(s.reverse(), index_of(s, p).reverse());
        lemma_product_reverse(s);
        let q = flat_of(s.reverse(), index_of(s, p).reverse());
        assert(c[p] == b[q]);
        lemma_index_of_flat_of(s.reverse(), index_of(s, p).reverse());
        assert(index_of(s.reverse(), q) == index_of(s, p).reverse());
        assert(index_of(s, p).reverse().reverse() =~= index_of(s, p));
        assert(b[q] == a[flat_of(s, index_of(s.reverse(), q).reverse())]);
        assert(flat_of(s, index_of(s.reverse(), q).reverse()) == flat_of(s, index_of(s, p)));
        assert(flat_of(s, index_of(s, p)) == p);
    }
    assert(c =~= a);
}

} // verus!
