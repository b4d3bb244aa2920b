use vstd::prelude::*;

use crate::helpers::{lemma_product_pos_extents, lemma_product_remove, shape_product};
use crate::shape::{flat_of, index_of, lemma_remove_insert};
use crate::{axis_items, de_slice, is_slices_of, Dim, Ndarr};

verus! {

/// Holds when `result` can be reached by scanning `items` from the left:
/// the accumulator starts at `items[0]` and each step combines the next item
/// with the accumulator (item first), in a pair allowed by `f`'s contract.
pub open spec fn scans_to<T, F: Fn(T, T) -> T>(f: F, items: Seq<T>, result: T) -> bool
    decreases items.len(),
{
    if items.len() == 1 {
        result == items[0]
    } else if items.len() > 1 {
        exists|mid: T|
            scans_to(f, items.drop_last(), mid) && #[trigger] call_ensures(
                f,
                (items.last(), mid),
                result,
            )
    } else {
        false
    }
}

impl<T: Copy> Ndarr<T> {
    /// Applies `f` to every element independently, producing an array of a
    /// possibly different element type. No order is promised: the contract
    /// only relates each output element to its input element through `f`.
    pub fn map_types<U: Copy, F: Fn(T) -> U>(&self, f: F) -> (r: Ndarr<U>)
        requires
            self.wf(),
            forall|i: int| 0 <= i < self.data@.len() ==> call_requires(f, (self.data@[i],)),
        ensures
            r.wf(),
            r.dim.shape@ == self.dim.shape@,
            r.data@.len() == self.data@.len(),
            forall|i: int|
                0 <= i < self.data@.len() ==> call_ensures(f, (self.data@[i],), #[trigger] r.data@[i]),
    {
        let n = self.data.len();
        let mut out: Vec<U> = Vec::with_capacity(n);
        let mut i: usize = 0;
        while i < n
            invariant
                n == self.data@.len(),
                forall|k: int| 0 <= k < n ==> call_requires(f, (self.data@[k],)),
                0 <= i <= n,
                out@.len() == i,
                forall|k: int|
                    0 <= k < i ==> call_ensures(f, (self.data@[k],), #[trigger] out@[k]),
            decreases n - i,
        {
            out.push(f(self.data[i]));
            i += 1;
        }
        Ndarr { data: out, dim: crate::Dim { shape: self.dim.shape() } }
    }

    /// Applies `f: T -> T` to every element independently.
    pub fn map<F: Fn(T) -> T>(&self, f: F) -> (r: Ndarr<T>)
        requires
            self.wf(),
            forall|i: int| 0 <= i < self.data@.len() ==> call_requires(f, (self.data@[i],)),
        ensures
            r.wf(),
            r.dim.shape@ == self.dim.shape@,
            r.data@.len() == self.data@.len(),
            forall|i: int|
                0 <= i < self.data@.len() ==> call_ensures(f, (self.data@[i],), #[trigger] r.data@[i]),
    {
        self.map_types(f)
    }

    /// Applies `f` to every element in place.
    pub fn map_in_place<F: Fn(T) -> T>(&mut self, f: F)
        requires
            old(self).wf(),
            forall|i: int|
                0 <= i < old(self).data@.len() ==> call_requires(f, (old(self).data@[i],)),
        ensures
            final(self).wf(),
            final(self).dim == old(self).dim,
            final(self).data@.len() == old(self).data@.len(),
            forall|i: int|
                0 <= i < old(self).data@.len() ==> call_ensures(
                    f,
                    (old(self).data@[i],),
                    #[trigger] final(self).data@[i],
                ),
    {
        let n = self.data.len();
        let mut i: usize = 0;
        while i < n
            invariant
                n == self.data@.len(),
                self.dim == old(self).dim,
                self.data@.len() == old(self).data@.len(),
                forall|k: int| 0 <= k < n ==> call_requires(f, (old(self).data@[k],)),
                0 <= i <= n,
                forall|k: int| i <= k < n ==> self.data@[k] == old(self).data@[k],
                forall|k: int|
                    0 <= k < i ==> call_ensures(f, (old(self).data@[k],), #[trigger] self.data@[k]),
            decreases n - i,
        {
            let v = f(self.data[i]);
            self.data.set(i, v);
            i += 1;
        }
    }

    /// Cumulative left-to-right scan along `axis`: output slice 0 is input
    /// slice 0, and output slice `i+1` combines input slice `i+1` with
    /// output slice `i` elementwise through `f` (new element first). The
    /// shape is kept. Sequential by contract: `f` need not be associative.
    pub fn scanr<F: Fn(T, T) -> T>(&self, axis: usize, f: F) -> (r: Ndarr<T>)
        requires
            self.wf(),
            axis < self.dim.shape@.len(),
            shape_product(self.dim.shape@) >= 1,
            forall|x: T, y: T| call_requires(f, (x, y)),
        ensures
            r.wf(),
            r.dim.shape@ == self.dim.shape@,
            forall|p: int|
                0 <= p < r.data@.len() ==> scans_to(
                    f,
                    axis_items(
                        self.dim.shape@,
                        self.data@,
                        axis as int,
                        flat_of(
                            self.dim.shape@.remove(axis as int),
                            index_of(self.dim.shape@, p).remove(axis as int),
                        ),
                    ).take(index_of(self.dim.shape@, p)[axis as int] + 1),
                    #[trigger] r.data@[p],
                ),
    {
        let ghost s = self.dim.shape@;
        let ghost s2 = s.remove(axis as int);
        let ghost a = self.data@;
        let rank = self.dim.shape.len();
        proof {
            lemma_product_pos_extents(s);
            lemma_product_remove(s, axis as int);
            crate::helpers::lemma_product_all_pos(s2);
        }
        let slices = self.slice_at(axis);
        let count = slices.len();
        let n2 = slices[0].data.len();
        let mut cum: Vec<Ndarr<T>> = Vec::with_capacity(count);
        cum.push(
            Ndarr {
                data: crate::helpers::vec_from_slice(slices[0].data.as_slice()),
                dim: Dim { shape: slices[0].dim.shape() },
            },
        );
        proof {
            assert forall|j: int| 0 <= j < n2 implies scans_to(
                f,
                axis_items(s, a, axis as int, j).take(1),
                #[trigger] cum@[0].data@[j],
            ) by {
                let items = axis_items(s, a, axis as int, j);
                assert(items.take(1).len() == 1);
                assert(items.take(1)[0] == a[crate::slice_src_pos(s, axis as int, 0, j)]);
            }
        }
        let mut i: usize = 1;
        while i < count
            invariant
                self.wf(),
                s == self.dim.shape@,
                s2 == s.remove(axis as int),
                a == self.data@,
                axis < s.len(),
                rank == s.len(),
                is_slices_of(slices@, s, a, axis as int),
                count == slices@.len(),
                count == s[axis as int],
                n2 as int == shape_product(s2),
                forall|x: T, y: T| call_requires(f, (x, y)),
                1 <= i <= count,
                cum@.len() == i,
                forall|ii: int|
                    0 <= ii < i ==> {
                        &&& (#[trigger] cum@[ii]).wf()
                        &&& cum@[ii].dim.shape@ == s2
                        &&& cum@[ii].data@.len() == n2
                    },
                forall|ii: int, j: int|
                    0 <= ii < i && 0 <= j < n2 ==> scans_to(
                        f,
                        axis_items(s, a, axis as int, j).take(ii + 1),
                        #[trigger] cum@[ii].data@[j],
                    ),
            decreases count - i,
        {
            let mut buf: Vec<T> = Vec::with_capacity(n2);
            let mut j: usize = 0;
            while j < n2
                invariant
                    self.wf(),
                    s == self.dim.shape@,
                    s2 == s.remove(axis as int),
                    a == self.data@,
                    axis < s.len(),
                    is_slices_of(slices@, s, a, axis as int),
                    count == slices@.len(),
                    count == s[axis as int],
                    n2 as int == shape_product(s2),
                    forall|x: T, y: T| call_requires(f, (x, y)),
                    1 <= i < count,
                    cum@.len() == i,
                    cum@[i - 1].data@.len() == n2,
                    forall|jj: int|
                        0 <= jj < n2 ==> scans_to(
                            f,
                            axis_items(s, a, axis as int, jj).take(i as int),
                            #[trigger] cum@[i - 1].data@[jj],
                        ),
                    0 <= j <= n2,
                    buf@.len() == j,
                    forall|jj: int|
                        0 <= jj < j ==> scans_to(
                            f,
                            axis_items(s, a, axis as int, jj).take(i + 1),
                            #[trigger] buf@[jj],
                        ),
                decreases n2 - j,
            {
                let ghost prev = cum@[i - 1].data@[j as int];
                let v = f(slices[i].data[j], cum[i - 1].data[j]);
                proof {
                    let items = axis_items(s, a, axis as int, j as int);
                    assert(items.take(i + 1).drop_last() =~= items.take(i as int));
                    assert(items.take(i + 1).last() == items[i as int]);
                    assert(slices@[i as int].data@[j as int] == a[crate::slice_src_pos(
                        s,
                        axis as int,
                        i as int,
                        j as int,
                    )]);
                    assert(scans_to(f, items.take(i as int), prev));
                    assert(call_ensures(f, (items.take(i + 1).last(), prev), v));
                    assert(scans_to(f, items.take(i + 1), v));
                }
                buf.push(v);
                j += 1;
            }
            cum.push(Ndarr { data: buf, dim: Dim { shape: slices[0].dim.shape() } });
            i += 1;
        }
        proof {
            lemma_remove_insert(s, axis as int);
            assert(s2.insert(axis as int, count as usize) == s);
        }
        let out = de_slice(&cum, axis);
        proof {
            assert forall|p: int| 0 <= p < out.data@.len() implies scans_to(
                f,
                axis_items(
                    s,
                    a,
                    axis as int,
                    flat_of(s2, index_of(s, p).remove(axis as int)),
                ).take(index_of(s, p)[axis as int] + 1),
                #[trigger] out.data@[p],
            ) by {
                crate::shape::lemma_flat_of_index_of(s, p);
                let idx = index_of(s, p);
                crate::shape::lemma_valid_index_remove(s, idx, axis as int);
                crate::shape::lemma_flat_bounds(s2, idx.remove(axis as int));
            }
        }
        Ndarr { data: out.data, dim: Dim { shape: self.dim.shape() } }
    }

    /// Cumulative right-to-left scan along `axis`: output slice `l-1` is
    /// input slice `l-1`, and output slice `i` combines input slice `i` with
    /// output slice `i+1` elementwise through `f` (new element first). The
    /// shape is kept. The items of the chain for output slice `i` are the
    /// input slices from the end down to `i`, in that order.
    pub fn scanl<F: Fn(T, T) -> T>(&self, axis: usize, f: F) -> (r: Ndarr<T>)
        requires
            self.wf(),
            axis < self.dim.shape@.len(),
            shape_product(self.dim.shape@) >= 1,
            forall|x: T, y: T| call_requires(f, (x, y)),
        ensures
            r.wf(),
            r.dim.shape@ == self.dim.shape@,
            forall|p: int|
                0 <= p < r.data@.len() ==> scans_to(
                    f,
                    axis_items(
                        self.dim.shape@,
                        self.data@,
                        axis as int,
                        flat_of(
                            self.dim.shape@.remove(axis as int),
                            index_of(self.dim.shape@, p).remove(axis as int),
                        ),
                    ).subrange(
                        index_of(self.dim.shape@, p)[axis as int] as int,
                        self.dim.shape@[axis as int] as int,
                    ).reverse(),
                    #[trigger] r.data@[p],
                ),
    {
        let ghost s = self.dim.shape@;
        let ghost s2 = s.remove(axis as int);
        let ghost a = self.data@;
        let rank = self.dim.shape.len();
        proof {
            lemma_product_pos_extents(s);
            lemma_product_remove(s, axis as int);
            crate::helpers::lemma_product_all_pos(s2);
        }
        let slices = self.slice_at(axis);
        let count = slices.len();
        let n2 = slices[0].data.len();
        // Build the cumulated slices from the right: `rev_cum[t]` is the
        // output slice `count - 1 - t`.
        let mut rev_cum: Vec<Ndarr<T>> = Vec::with_capacity(count);
        rev_cum.push(
            Ndarr {
                data: crate::helpers::vec_from_slice(slices[count - 1].data.as_slice()),
                dim: Dim { shape: slices[0].dim.shape() },
            },
        );
        proof {
            assert forall|j: int| 0 <= j < n2 implies scans_to(
                f,
                axis_items(s, a, axis as int, j).subrange(count - 1, count as int).reverse(),
                #[trigger] rev_cum@[0].data@[j],
            ) by {
                let items = axis_items(s, a, axis as int, j);
                let sub = items.subrange(count - 1, count as int).reverse();
                assert(sub.len() == 1);
                assert(sub[0] == items[count - 1]);
            }
        }
        let mut t: usize = 1;
        while t < count
            invariant
                self.wf(),
                s == self.dim.shape@,
                s2 == s.remove(axis as int),
                a == self.data@,
                axis < s.len(),
                rank == s.len(),
                is_slices_of(slices@, s, a, axis as int),
                count == slices@.len(),
                count == s[axis as int],
                n2 as int == shape_product(s2),
                forall|x: T, y: T| call_requires(f, (x, y)),
                1 <= t <= count,
                rev_cum@.len() == t,
                forall|tt: int|
                    0 <= tt < t ==> {
                        &&& (#[trigger] rev_cum@[tt]).wf()
                        &&& rev_cum@[tt].dim.shape@ == s2
                        &&& rev_cum@[tt].data@.len() == n2
                    },
                forall|tt: int, j: int|
                    0 <= tt < t && 0 <= j < n2 ==> scans_to(
                        f,
                        axis_items(s, a, axis as int, j).subrange(
                            count - 1 - tt,
                            count as int,
                        ).reverse(),
                        #[trigger] rev_cum@[tt].data@[j],
                    ),
            decreases count - t,
        {
            let src = count - 1 - t;
            let mut buf: Vec<T> = Vec::with_capacity(n2);
            let mut j: usize = 0;
            while j < n2
                invariant
                    self.wf(),
                    s == self.dim.shape@,
                    s2 == s.remove(axis as int),
                    a == self.data@,
                    axis < s.len(),
                    is_slices_of(slices@, s, a, axis as int),
                    count == slices@.len(),
                    count == s[axis as int],
                    n2 as int == shape_product(s2),
                    forall|x: T, y: T| call_requires(f, (x, y)),
                    1 <= t < count,
                    src == count - 1 - t,
                    rev_cum@.len() == t,
                    rev_cum@[t - 1].data@.len() == n2,
                    forall|jj: int|
                        0 <= jj < n2 ==> scans_to(
                            f,
                            axis_items(s, a, axis as int, jj).subrange(
                                count - t,
                                count as int,
                            ).reverse(),
                            #[trigger] rev_cum@[t - 1].data@[jj],
                        ),
                    0 <= j <= n2,
                    buf@.len() == j,
                    forall|jj: int|
                        0 <= jj < j ==> scans_to(
                            f,
                            axis_items(s, a, axis as int, jj).subrange(
                                count - 1 - t,
                                count as int,
                            ).reverse(),
                            #[trigger] buf@[jj],
                        ),
                decreases n2 - j,
            {
                let ghost prev = rev_cum@[t - 1].data@[j as int];
                let v = f(slices[src].data[j], rev_cum[t - 1].data[j]);
                proof {
                    let items = axis_items(s, a, axis as int, j as int);
                    let sub = items.subrange(count - 1 - t, count as int).reverse();
                    assert(sub.last() == items[count - 1 - t]);
                    assert(sub.drop_last() =~= items.subrange(count - t, count as int).reverse());
                    assert(slices@[src as int].data@[j as int] == a[crate::slice_src_pos(
                        s,
                        axis as int,
                        src as int,
                        j as int,
                    )]);
                    assert(scans_to(f, sub.drop_last(), prev));
                    assert(call_ensures(f, (sub.last(), prev), v));
                    assert(scans_to(f, sub, v));
                }
                buf.push(v);
                j += 1;
            }
            rev_cum.push(Ndarr { data: buf, dim: Dim { shape: slices[0].dim.shape() } });
            t += 1;
        }
        // Reassemble in slice order.
        let mut cum: Vec<Ndarr<T>> = Vec::with_capacity(count);
        let mut i: usize = 0;
        while i < count
            invariant
                count == rev_cum@.len(),
                n2 >= 0,
                forall|tt: int|
                    0 <= tt < count ==> {
                        &&& (#[trigger] rev_cum@[tt]).wf()
                        &&& rev_cum@[tt].dim.shape@ == s2
                        &&& rev_cum@[tt].data@.len() == n2
                    },
                0 <= i <= count,
                cum@.len() == i,
                forall|ii: int|
                    0 <= ii < i ==> (#[trigger] cum@[ii]).data@ == rev_cum@[count - 1 - ii].data@
                        && cum@[ii].dim.shape@ == rev_cum@[count - 1 - ii].dim.shape@,
            decreases count - i,
        {
            let src = rev_cum.len() - 1 - i;
            cum.push(
                Ndarr {
                    data: crate::helpers::vec_from_slice(rev_cum[src].data.as_slice()),
                    dim: Dim { shape: rev_cum[src].dim.shape() },
                },
            );
            i += 1;
        }
        proof {
            assert(cum@[0].dim.shape@ == s2);
            lemma_remove_insert(s, axis as int);
            assert(s2.insert(axis as int, count as usize) == s);
        }
        let out = de_slice(&cum, axis);
        proof {
            assert forall|p: int| 0 <= p < out.data@.len() implies scans_to(
                f,
                axis_items(
                    s,
                    a,
                    axis as int,
                    flat_of(s2, index_of(s, p).remove(axis as int)),
                ).subrange(index_of(s, p)[axis as int] as int, count as int).reverse(),
                #[trigger] out.data@[p],
            ) by {
                crate::shape::lemma_flat_of_index_of(s, p);
                let idx = index_of(s, p);
                crate::shape::lemma_valid_index_remove(s, idx, axis as int);
                crate::shape::lemma_flat_bounds(s2, idx.remove(axis as int));
                let ii = idx[axis as int] as int;
                assert(cum@[ii].data@ == rev_cum@[count - 1 - ii].data@);
            }
        }
        Ndarr { data: out.data, dim: Dim { shape: self.dim.shape() } }
    }

    /// Combines two arrays of exactly the same shape elementwise: no
    /// broadcasting, elements are paired by identical flat index.
    pub fn bimap<F: Fn(T, T) -> T>(&self, other: &Ndarr<T>, f: F) -> (r: Ndarr<T>)
        requires
            self.wf(),
            other.wf(),
            self.dim.shape@ == other.dim.shape@,
            forall|i: int|
                0 <= i < self.data@.len() ==> call_requires(
                    f,
                    (self.data@[i], other.data@[i]),
                ),
        ensures
            r.wf(),
            r.dim.shape@ == self.dim.shape@,
            r.data@.len() == self.data@.len(),
            forall|i: int|
                0 <= i < self.data@.len() ==> call_ensures(
                    f,
                    (self.data@[i], other.data@[i]),
                    #[trigger] r.data@[i],
                ),
    {
        let n = self.data.len();
        let mut out: Vec<T> = Vec::with_capacity(n);
        let mut i: usize = 0;
        while i < n
            invariant
                n == self.data@.len(),
                other.data@.len() == n,
                forall|k: int|
                    0 <= k < n ==> call_requires(f, (self.data@[k], other.data@[k])),
                0 <= i <= n,
                out@.len() == i,
                forall|k: int|
                    0 <= k < i ==> call_ensures(
                        f,
                        (self.data@[k], other.data@[k]),
                        #[trigger] out@[k],
                    ),
            decreases n - i,
        {
            out.push(f(self.data[i], other.data[i]));
            i += 1;
        }
        Ndarr { data: out, dim: crate::Dim { shape: self.dim.shape() } }
    }

    /// Combines elementwise in place: `self[i]` becomes `f(self[i],
    /// other[i])`.
    pub fn bimap_in_place<F: Fn(T, T) -> T>(&mut self, other: &Ndarr<T>, f: F)
        requires
            old(self).wf(),
            other.wf(),
            old(self).dim.shape@ == other.dim.shape@,
            forall|i: int|
                0 <= i < old(self).data@.len() ==> call_requires(
                    f,
                    (old(self).data@[i], other.data@[i]),
                ),
        ensures
            final(self).wf(),
            final(self).dim == old(self).dim,
            final(self).data@.len() == old(self).data@.len(),
            forall|i: int|
                0 <= i < old(self).data@.len() ==> call_ensures(
                    f,
                    (old(self).data@[i], other.data@[i]),
                    #[trigger] final(self).data@[i],
                ),
    {
        let n = self.data.len();
        let mut i: usize = 0;
        while i < n
            invariant
                n == self.data@.len(),
                other.data@.len() == n,
                self.dim == old(self).dim,
                self.data@.len() == old(self).data@.len(),
                forall|k: int|
                    0 <= k < n ==> call_requires(f, (old(self).data@[k], other.data@[k])),
                0 <= i <= n,
                forall|k: int| i <= k < n ==> self.data@[k] == old(self).data@[k],
                forall|k: int|
                    0 <= k < i ==> call_ensures(
                        f,
                        (old(self).data@[k], other.data@[k]),
                        #[trigger] self.data@[k],
                    ),
            decreases n - i,
        {
            let v = f(self.data[i], other.data[i]);
            self.data.set(i, v);
            i += 1;
        }
    }
}

} // verus!
