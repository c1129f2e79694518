//! Row-major addressing of N-dimensional boxes of cells.
use vstd::arithmetic::div_mod::{
    lemma_breakdown, lemma_div_denominator, lemma_fundamental_div_mod_converse, lemma_mod_pos_bound,
};
use vstd::prelude::*;

verus! {

/// Number of cells in a box of the given extents.
pub open spec fn shape_product(shape: Seq<u32>) -> nat
    decreases shape.len(),
{
    if shape.len() == 0 {
        1
    } else {
        shape_product(shape.drop_last()) * (shape.last() as nat)
    }
}

/// Distance in the linear order between neighbours along axis `i`; the first
/// axis varies fastest.
pub open spec fn stride(shape: Seq<u32>, i: int) -> nat {
    shape_product(shape.take(i))
}

/// Every extent is positive.
pub open spec fn positive_shape(shape: Seq<u32>) -> bool {
    forall|i: int| 0 <= i < shape.len() ==> shape[i] > 0
}

/// `idx` names a cell of the box `shape`.
pub open spec fn within_shape(idx: Seq<u32>, shape: Seq<u32>) -> bool {
    &&& idx.len() == shape.len()
    &&& forall|i: int| 0 <= i < idx.len() ==> idx[i] < shape[i]
}

/// Coordinate `i` of the cell at linear position `index`.
pub open spec fn coord_of(index: nat, shape: Seq<u32>, i: int) -> nat {
    (index / stride(shape, i)) % (shape[i] as nat)
}

/// Linear position of the cell `idx` in the box `shape`.
pub open spec fn linear_of(idx: Seq<u32>, shape: Seq<u32>) -> nat
    decreases idx.len(),
{
    if idx.len() == 0 {
        0
    } else {
        linear_of(idx.drop_last(), shape.drop_last()) + (idx.last() as nat) * shape_product(
            shape.drop_last(),
        )
    }
}

proof fn lemma_stride_step(shape: Seq<u32>, i: int)
    requires
        0 <= i < shape.len(),
    ensures
        stride(shape, i + 1) == stride(shape, i) * (shape[i] as nat),
{
    assert(shape.take(i + 1).drop_last() =~= shape.take(i));
}

pub proof fn lemma_stride_positive(shape: Seq<u32>, i: int)
    requires
        positive_shape(shape),
        0 <= i <= shape.len(),
    ensures
        stride(shape, i) > 0,
    decreases i,
{
    if i > 0 {
        lemma_stride_positive(shape, i - 1);
        lemma_stride_step(shape, i - 1);
        assert(stride(shape, i - 1) * (shape[i - 1] as nat) > 0) by (nonlinear_arith)
            requires
                stride(shape, i - 1) > 0,
                shape[i - 1] > 0,
        ;
    }
}

pub proof fn lemma_stride_monotone(shape: Seq<u32>, i: int, j: int)
    requires
        positive_shape(shape),
        0 <= i <= j <= shape.len(),
    ensures
        stride(shape, i) <= stride(shape, j),
    decreases j - i,
{
    if i < j {
        lemma_stride_monotone(shape, i, j - 1);
        lemma_stride_step(shape, j - 1);
        assert(stride(shape, j - 1) <= stride(shape, j - 1) * (shape[j - 1] as nat))
            by (nonlinear_arith)
            requires
                shape[j - 1] > 0,
        ;
    }
}

proof fn lemma_linear_prefix_bound(idx: Seq<u32>, shape: Seq<u32>, i: int)
    requires
        within_shape(idx, shape),
        0 <= i <= idx.len(),
    ensures
        linear_of(idx.take(i), shape.take(i)) < stride(shape, i),
    decreases i,
{
    if i > 0 {
        lemma_linear_prefix_bound(idx, shape, i - 1);
        lemma_stride_step(shape, i - 1);
        assert(idx.take(i).drop_last() =~= idx.take(i - 1));
        assert(shape.take(i).drop_last() =~= shape.take(i - 1));
        let low = linear_of(idx.take(i - 1), shape.take(i - 1));
        let s = stride(shape, i - 1);
        let d = idx[i - 1] as nat;
        let e = shape[i - 1] as nat;
        assert(low + d * s < s * e) by (nonlinear_arith)
            requires
                low < s,
                d < e,
        ;
    }
}

/// The cell at linear position `index` in the box `shape` (first axis fastest).
pub fn from_linear<const N: usize>(index: usize, shape: [u32; N]) -> (r: [u32; N])
    requires
        positive_shape(shape@),
    ensures
        forall|i: int| 0 <= i < N ==> r[i] as nat == coord_of(index as nat, shape@, i),
{
    let mut res: [u32; N] = [0u32; N];
    let mut rest: usize = index;
    let mut i: usize = 0;
    proof {
        assert(shape@.take(0) =~= Seq::<u32>::empty());
        assert(stride(shape@, 0) == 1);
        assert(index as nat / 1 == index as nat);
    }
    while i < N
        invariant
            i <= N,
            positive_shape(shape@),
            rest as nat == index as nat / stride(shape@, i as int),
            forall|k: int| 0 <= k < i ==> res[k] as nat == coord_of(index as nat, shape@, k),
        decreases N - i,
    {
        let si = shape[i] as usize;
        proof {
            lemma_mod_pos_bound(rest as int, si as int);
            lemma_stride_positive(shape@, i as int);
            lemma_stride_step(shape@, i as int);
            lemma_div_denominator(index as int, stride(shape@, i as int) as int, si as int);
        }
        res[i] = (rest % si) as u32;
        rest = rest / si;
        i += 1;
    }
    res
}

/// Linear position of the cell `index` in the box `shape` (first axis fastest).
pub fn to_linear<const N: usize>(index: [u32; N], shape: [u32; N]) -> (r: usize)
    requires
        within_shape(index@, shape@),
        shape_product(shape@) <= usize::MAX,
    ensures
        r as nat == linear_of(index@, shape@),
        (r as nat) < shape_product(shape@),
{
    let mut step: usize = 1;
    let mut res: usize = 0;
    let mut i: usize = 0;
    proof {
        assert(shape@.take(0) =~= Seq::<u32>::empty());
        assert(index@.take(0) =~= Seq::<u32>::empty());
        assert(positive_shape(shape@));
        assert(shape@.take(N as int) =~= shape@);
        assert(index@.take(N as int) =~= index@);
    }
    while i < N
        invariant
            i <= N,
            within_shape(index@, shape@),
            positive_shape(shape@),
            shape_product(shape@) <= usize::MAX,
            shape@.take(N as int) =~= shape@,
            index@.take(N as int) =~= index@,
            step as nat == stride(shape@, i as int),
            res as nat == linear_of(index@.take(i as int), shape@.take(i as int)),
        decreases N - i,
    {
        let x = index[i] as usize;
        let e = shape[i] as usize;
        proof {
            lemma_stride_step(shape@, i as int);
            lemma_stride_monotone(shape@, i as int + 1, N as int);
            lemma_linear_prefix_bound(index@, shape@, i as int + 1);
            assert(index@.take(i + 1).drop_last() =~= index@.take(i as int));
            assert(shape@.take(i + 1).drop_last() =~= shape@.take(i as int));
            assert(linear_of(index@.take(i + 1), shape@.take(i + 1)) == res as nat + (x as nat) * (
            step as nat));
            assert((step as nat) * (x as nat) == (x as nat) * (step as nat)) by (nonlinear_arith);
            assert(res as nat + (step as nat) * (x as nat) < stride(shape@, N as int));
            assert(stride(shape@, i + 1) == (step as nat) * (e as nat));
            assert(stride(shape@, i + 1) <= stride(shape@, N as int));
        }
        res = res + step * x;
        step = step * e;
        i += 1;
    }
    proof {
        lemma_linear_prefix_bound(index@, shape@, N as int);
    }
    res
}

/// The cell at linear position `index` in the box `shape`, as a sequence.
pub open spec fn cell_of(index: nat, shape: Seq<u32>) -> Seq<u32> {
    Seq::new(shape.len(), |i: int| coord_of(index, shape, i) as u32)
}

/// A box with a positive number of cells has no empty axis.
pub proof fn lemma_product_positive(shape: Seq<u32>)
    requires
        shape_product(shape) > 0,
    ensures
        positive_shape(shape),
    decreases shape.len(),
{
    if shape.len() > 0 {
        let rest = shape.drop_last();
        let e = shape.last() as nat;
        assert(shape_product(rest) > 0 && e > 0) by (nonlinear_arith)
            requires
                shape_product(rest) * e > 0,
        ;
        lemma_product_positive(rest);
        assert forall|i: int| 0 <= i < shape.len() implies shape[i] > 0 by {
            if i < shape.len() - 1 {
                assert(rest[i] == shape[i]);
            }
        }
    }
}

/// The cell at a linear position below the box's size lies in the box.
pub proof fn lemma_cell_of_within(index: nat, shape: Seq<u32>)
    requires
        index < shape_product(shape),
    ensures
        within_shape(cell_of(index, shape), shape),
{
    lemma_product_positive(shape);
    assert forall|i: int| 0 <= i < shape.len() implies #[trigger] cell_of(index, shape)[i]
        < shape[i] by {
        lemma_stride_positive(shape, i);
        lemma_mod_pos_bound((index / stride(shape, i)) as int, shape[i] as int);
    }
}

/// A box with an empty axis has no cells.
pub proof fn lemma_zero_extent(shape: Seq<u32>, j: int)
    requires
        0 <= j < shape.len(),
        shape[j] == 0,
    ensures
        shape_product(shape) == 0,
{
    if shape_product(shape) != 0 {
        lemma_product_positive(shape);
    }
}

proof fn lemma_product_front(s: Seq<u32>)
    requires
        s.len() > 0,
    ensures
        shape_product(s) == (s[0] as nat) * shape_product(s.drop_first()),
    decreases s.len(),
{
    let a = s[0] as nat;
    if s.len() == 1 {
        assert(s.drop_last() =~= Seq::<u32>::empty());
        assert(s.drop_first() =~= Seq::<u32>::empty());
        assert(shape_product(s.drop_last()) == 1);
        assert(shape_product(s.drop_first()) == 1);
        assert(s.last() == s[0]);
        assert(1 * a == a * 1) by (nonlinear_arith);
    } else {
        let t = s.drop_last();
        lemma_product_front(t);
        assert(t.drop_first() =~= s.drop_first().drop_last());
        assert(s.drop_first().last() == s.last());
        let p = shape_product(t.drop_first());
        let e = s.last() as nat;
        assert(shape_product(s.drop_first()) == p * e);
        assert(shape_product(t) == a * p);
        assert(shape_product(s) == shape_product(t) * e);
        assert(a * p * e == a * (p * e)) by (nonlinear_arith);
    }
}

proof fn lemma_stride_front(s: Seq<u32>, i: int)
    requires
        0 <= i < s.len(),
    ensures
        stride(s, i + 1) == (s[0] as nat) * stride(s.drop_first(), i),
{
    lemma_product_front(s.take(i + 1));
    assert(s.take(i + 1).drop_first() =~= s.drop_first().take(i));
}

proof fn lemma_linear_front(u: Seq<u32>, s: Seq<u32>)
    requires
        u.len() == s.len(),
        u.len() > 0,
    ensures
        linear_of(u, s) == (u[0] as nat) + (s[0] as nat) * linear_of(u.drop_first(), s.drop_first()),
    decreases u.len(),
{
    if u.len() == 1 {
        assert(u.drop_last() =~= Seq::<u32>::empty());
        assert(s.drop_last() =~= Seq::<u32>::empty());
        assert(u.drop_first() =~= Seq::<u32>::empty());
        assert(s.drop_first() =~= Seq::<u32>::empty());
        assert(shape_product(s.drop_last()) == 1);
        assert(linear_of(u.drop_last(), s.drop_last()) == 0);
        assert(linear_of(u.drop_first(), s.drop_first()) == 0);
        assert(u.last() == u[0]);
        let a = u[0] as nat;
        let e = s[0] as nat;
        assert(a * 1 == a + e * 0) by (nonlinear_arith);
    } else {
        let u1 = u.drop_last();
        let s1 = s.drop_last();
        lemma_linear_front(u1, s1);
        lemma_product_front(s1);
        assert(u1.drop_first() =~= u.drop_first().drop_last());
        assert(s1.drop_first() =~= s.drop_first().drop_last());
        assert(u.drop_first().last() == u.last());
        let a = u[0] as nat;
        let e = s[0] as nat;
        let l = linear_of(u1.drop_first(), s1.drop_first());
        let x = u.last() as nat;
        let p = shape_product(s1.drop_first());
        assert(linear_of(u.drop_first(), s.drop_first()) == l + x * p);
        assert(linear_of(u1, s1) == a + e * l);
        assert(shape_product(s1) == e * p);
        assert(linear_of(u, s) == linear_of(u1, s1) + x * shape_product(s1));
        assert(a + e * l + x * (e * p) == a + e * (l + x * p)) by (nonlinear_arith);
    }
}

proof fn lemma_cell_of_front(k: nat, s: Seq<u32>)
    requires
        s.len() > 0,
        positive_shape(s),
    ensures
        cell_of(k, s) =~= seq![(k % (s[0] as nat)) as u32] + cell_of(k / (s[0] as nat), s.drop_first()),
{
    let t = s.drop_first();
    let e = s[0] as nat;
    assert(stride(s, 0) == 1) by {
        assert(s.take(0) =~= Seq::<u32>::empty());
    }
    assert(k / 1 == k);
    assert(cell_of(k, s)[0] == (k % e) as u32);
    assert forall|i: int| 0 <= i < t.len() implies cell_of(k, s)[i + 1] == #[trigger] cell_of(k / e, t)[i] by {
        lemma_stride_front(s, i);
        lemma_stride_positive(t, i);
        lemma_div_denominator(k as int, e as int, stride(t, i) as int);
        assert(t[i] == s[i + 1]);
        assert(coord_of(k, s, i + 1) == (k / (e * stride(t, i))) % (t[i] as nat));
        assert(coord_of(k / e, t, i) == ((k / e) / stride(t, i)) % (t[i] as nat));
    }
}

/// Reading the cell at a linear position back gives the position, modulo
/// the number of cells.
pub proof fn lemma_linear_of_cell(k: nat, s: Seq<u32>)
    requires
        positive_shape(s),
    ensures
        linear_of(cell_of(k, s), s) == k % shape_product(s),
    decreases s.len(),
{
    if s.len() == 0 {
        assert(cell_of(k, s) =~= Seq::<u32>::empty());
    } else {
        let t = s.drop_first();
        let e = s[0] as nat;
        lemma_cell_of_front(k, s);
        lemma_linear_of_cell(k / e, t);
        let c = cell_of(k, s);
        assert(c.drop_first() =~= cell_of(k / e, t));
        lemma_linear_front(c, s);
        lemma_product_front(s);
        lemma_stride_positive(t, t.len() as int);
        assert(t.take(t.len() as int) =~= t);
        lemma_mod_pos_bound(k as int, e as int);
        lemma_breakdown(k as int, e as int, shape_product(t) as int);
    }
}

/// The cell at the linear position of a cell of the box is that cell.
pub proof fn lemma_cell_of_linear(u: Seq<u32>, s: Seq<u32>)
    requires
        within_shape(u, s),
    ensures
        cell_of(linear_of(u, s), s) == u,
    decreases s.len(),
{
    if s.len() == 0 {
        assert(cell_of(linear_of(u, s), s) =~= u);
    } else {
        let t = s.drop_first();
        let e = s[0] as nat;
        let l = linear_of(u.drop_first(), t);
        lemma_linear_front(u, s);
        lemma_cell_of_linear(u.drop_first(), t);
        lemma_fundamental_div_mod_converse(linear_of(u, s) as int, e as int, l as int, u[0] as int);
        assert(positive_shape(s));
        lemma_cell_of_front(linear_of(u, s), s);
        assert(cell_of(linear_of(u, s), s) =~= u);
    }
}

/// The linear position of a cell of the box is below the number of cells.
pub proof fn lemma_linear_bound(u: Seq<u32>, s: Seq<u32>)
    requires
        within_shape(u, s),
    ensures
        linear_of(u, s) < shape_product(s),
{
    lemma_linear_prefix_bound(u, s, u.len() as int);
    assert(u.take(u.len() as int) =~= u);
    assert(s.take(s.len() as int) =~= s);
}

} // verus!
