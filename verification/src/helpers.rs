use vstd::prelude::*;

verus! {

/// Number of elements an array of shape `s` holds: the product of all
/// extents, with the empty product equal to 1 (a rank-0 array holds one
/// scalar).
pub open spec fn shape_product(s: Seq<usize>) -> int
    decreases s.len(),
{
    if s.len() == 0 {
        1
    } else {
        shape_product(s.drop_last()) * s.last()
    }
}

pub proof fn lemma_product_nonneg(s: Seq<usize>)
    ensures
        shape_product(s) >= 0,
    decreases s.len(),
{
    if s.len() > 0 {
        lemma_product_nonneg(s.drop_last());
    }
}

/// Extending a prefix by one axis multiplies its element count by that extent.
pub proof fn lemma_product_take_step(s: Seq<usize>, k: int)
    requires
        0 <= k < s.len(),
    ensures
        shape_product(s.take(k + 1)) == shape_product(s.take(k)) * s[k],
{
    assert(s.take(k + 1).drop_last() =~= s.take(k));
    assert(s.take(k + 1).last() == s[k]);
}

pub proof fn lemma_product_zero(s: Seq<usize>, k: int)
    requires
        0 <= k < s.len(),
        s[k] == 0,
    ensures
        shape_product(s) == 0,
    decreases s.len(),
{
    if k == s.len() - 1 {
        assert(shape_product(s) == shape_product(s.drop_last()) * 0);
    } else {
        lemma_product_zero(s.drop_last(), k);
    }
}

/// A shape with a positive element count has every extent positive.
pub proof fn lemma_product_pos_extents(s: Seq<usize>)
    requires
        shape_product(s) > 0,
    ensures
        forall|k: int| 0 <= k < s.len() ==> s[k] >= 1,
{
    assert forall|k: int| 0 <= k < s.len() implies s[k] >= 1 by {
        if s[k] == 0 {
            lemma_product_zero(s, k);
        }
    }
}

pub proof fn lemma_product_all_pos(s: Seq<usize>)
    requires
        forall|k: int| 0 <= k < s.len() ==> s[k] >= 1,
    ensures
        shape_product(s) >= 1,
    decreases s.len(),
{
    if s.len() > 0 {
        assert(forall|k: int| 0 <= k < s.drop_last().len() ==> s.drop_last()[k] >= 1);
        lemma_product_all_pos(s.drop_last());
        assert(shape_product(s.drop_last()) * s.last() >= 1)
            by (nonlinear_arith)
            requires shape_product(s.drop_last()) >= 1 && s.last() >= 1;
    }
}

/// With every extent positive, a prefix never counts more elements than the
/// whole shape.
pub proof fn lemma_product_prefix_le(s: Seq<usize>, m: int)
    requires
        forall|k: int| 0 <= k < s.len() ==> s[k] >= 1,
        0 <= m <= s.len(),
    ensures
        shape_product(s.take(m)) <= shape_product(s),
    decreases s.len(),
{
    if m == s.len() {
        assert(s.take(m) =~= s);
    } else {
        let front = s.drop_last();
        assert(forall|k: int| 0 <= k < front.len() ==> front[k] >= 1);
        assert(s.take(m) =~= front.take(m));
        lemma_product_prefix_le(front, m);
        lemma_product_all_pos(front);
        assert(shape_product(front) * s.last() >= shape_product(front) * 1)
            by (nonlinear_arith)
            requires shape_product(front) >= 0 && s.last() >= 1;
    }
}

/// Removing one axis divides the element count by that axis's extent.
pub proof fn lemma_product_remove(s: Seq<usize>, k: int)
    requires
        0 <= k < s.len(),
    ensures
        shape_product(s) == shape_product(s.remove(k)) * s[k],
    decreases s.len(),
{
    if k == s.len() - 1 {
        assert(s.remove(k) =~= s.drop_last());
    } else {
        let front = s.drop_last();
        lemma_product_remove(front, k);
        assert(s.remove(k).drop_last() =~= front.remove(k));
        assert(s.remove(k).last() == s.last());
        assert(shape_product(front.remove(k)) * s[k] * s.last()
            == shape_product(front.remove(k)) * s.last() * s[k]) by (nonlinear_arith);
    }
}

/// Inserting one axis multiplies the element count by the new extent.
pub proof fn lemma_product_insert(s: Seq<usize>, k: int, x: usize)
    requires
        0 <= k <= s.len(),
    ensures
        shape_product(s.insert(k, x)) == shape_product(s) * x,
{
    lemma_product_remove(s.insert(k, x), k);
    assert(s.insert(k, x).remove(k) =~= s);
}

/// A single-axis shape holds exactly its extent's worth of elements.
pub proof fn lemma_product_singleton(x: usize)
    ensures
        shape_product(seq![x]) == x,
{
    let s = seq![x];
    assert(s.drop_last() =~= Seq::<usize>::empty());
    assert(shape_product(Seq::<usize>::empty()) == 1);
    assert(shape_product(s) == shape_product(s.drop_last()) * (s.last() as int));
    assert(s.last() == x);
}

/// Copies a slice into an owned vector.
pub fn vec_from_slice<T: Copy>(list: &[T]) -> (r: Vec<T>)
    ensures
        r@ == list@,
{
    let n = list.len();
    let mut out: Vec<T> = Vec::with_capacity(n);
    let mut i: usize = 0;
    while i < n
        invariant
            n == list@.len(),
            0 <= i <= n,
            out@ =~= list@.take(i as int),
        decreases n - i,
    {
        out.push(list[i]);
        i += 1;
    }
    proof {
        assert(list@.take(n as int) =~= list@);
    }
    out
}

/// Computes the element count of a shape, reporting `None` when the product
/// does not fit in `usize`.
pub fn checked_product(list: &[usize]) -> (r: Option<usize>)
    ensures
        match r {
            Some(p) => p as int == shape_product(list@),
            None => shape_product(list@) > usize::MAX,
        },
{
    let n = list.len();
    let mut i: usize = 0;
    while i < n
        invariant
            n == list@.len(),
            0 <= i <= n,
            forall|k: int| 0 <= k < i ==> list@[k] >= 1,
        decreases n - i,
    {
        if list[i] == 0 {
            proof {
                lemma_product_zero(list@, i as int);
            }
            return Some(0);
        }
        i += 1;
    }
    // Every extent is positive, so partial products grow monotonically and
    // an overflow of a prefix already certifies that the total overflows.
    let mut result: usize = 1;
    let mut j: usize = 0;
    while j < n
        invariant
            n == list@.len(),
            0 <= j <= n,
            forall|k: int| 0 <= k < n ==> list@[k] >= 1,
            result as int == shape_product(list@.take(j as int)),
        decreases n - j,
    {
        proof {
            lemma_product_take_step(list@, j as int);
        }
        match result.checked_mul(list[j]) {
            Some(next) => {
                result = next;
            },
            None => {
                proof {
                    lemma_product_prefix_le(list@, j + 1);
                }
                return None;
            },
        }
        j += 1;
    }
    proof {
        assert(list@.take(n as int) =~= list@);
    }
    Some(result)
}

} // verus!
