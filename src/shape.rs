//! The geometry that every array shares: a shape is one count per axis, its
//! element count is the product of the counts, and a cell is the block of
//! elements under one index of the leading axis.
use vstd::prelude::*;

verus! {

/// The number of elements that an array of shape `s` holds (1 for rank 0).
pub open spec fn shape_product(s: Seq<usize>) -> nat
    decreases s.len(),
{
    if s.len() == 0 {
        1
    } else {
        (s[0] as nat) * shape_product(s.drop_first())
    }
}

/// The product of the counts from axis `j` onward.
pub open spec fn suffix_product(s: Seq<usize>, j: int) -> nat {
    shape_product(s.subrange(j, s.len() as int))
}

/// Every product of trailing axes fits in a machine word, so that the element
/// count and every stride can be computed without overflow.
pub open spec fn shape_fits(s: Seq<usize>) -> bool {
    forall|j: int| 0 <= j <= s.len() ==> #[trigger] suffix_product(s, j) <= usize::MAX
}

/// Number of cells along the leading axis (1 for rank 0: one degenerate cell).
pub open spec fn cell_count(s: Seq<usize>) -> nat {
    if s.len() == 0 {
        1
    } else {
        s[0] as nat
    }
}

/// Number of elements in one cell: the product of the counts after axis 0.
pub open spec fn cell_size(s: Seq<usize>) -> nat {
    if s.len() == 0 {
        1
    } else {
        shape_product(s.drop_first())
    }
}

pub proof fn lemma_product_splits(s: Seq<usize>)
    ensures
        shape_product(s) == cell_count(s) * cell_size(s),
{
}

pub proof fn lemma_suffix_step(s: Seq<usize>, j: int)
    requires
        0 <= j < s.len(),
    ensures
        suffix_product(s, j) == (s[j] as nat) * suffix_product(s, j + 1),
{
    assert(s.subrange(j, s.len() as int).drop_first() =~= s.subrange(j + 1, s.len() as int));
}

/// A suffix product divides every product that starts at an earlier axis.
pub proof fn lemma_suffix_le(s: Seq<usize>, i: int, j: int)
    requires
        0 <= i <= j <= s.len(),
        forall|k: int| 0 <= k < s.len() ==> s[k] > 0,
    ensures
        suffix_product(s, j) <= suffix_product(s, i),
        suffix_product(s, j) > 0,
    decreases j - i,
{
    if i == j {
        lemma_suffix_positive(s, j);
    } else {
        lemma_suffix_le(s, i + 1, j);
        lemma_suffix_step(s, i);
        let a = s[i] as nat;
        let b = suffix_product(s, i + 1);
        assert(a * b >= b) by (nonlinear_arith)
            requires
                a >= 1,
        ;
    }
}

pub proof fn lemma_suffix_positive(s: Seq<usize>, j: int)
    requires
        0 <= j <= s.len(),
        forall|k: int| 0 <= k < s.len() ==> s[k] > 0,
    ensures
        suffix_product(s, j) > 0,
    decreases s.len() - j,
{
    if j < s.len() {
        lemma_suffix_positive(s, j + 1);
        lemma_suffix_step(s, j);
        let a = s[j] as nat;
        let b = suffix_product(s, j + 1);
        assert(a * b > 0) by (nonlinear_arith)
            requires
                a >= 1,
                b >= 1,
        ;
    }
}

/// A shape with no zero axis fits as soon as its element count does.
pub proof fn lemma_positive_shape_fits(s: Seq<usize>)
    requires
        forall|k: int| 0 <= k < s.len() ==> s[k] > 0,
        shape_product(s) <= usize::MAX,
    ensures
        shape_fits(s),
{
    assert(s.subrange(0, s.len() as int) =~= s);
    assert forall|j: int| 0 <= j <= s.len() implies #[trigger] suffix_product(s, j)
        <= usize::MAX by {
        lemma_suffix_le(s, 0, j);
    }
}

/// The product of the counts from axis `from` onward.
pub fn product_from(shape: &[usize], from: usize) -> (r: usize)
    requires
        shape_fits(shape@),
        from <= shape@.len(),
    ensures
        r == suffix_product(shape@, from as int),
{
    let mut acc: usize = 1;
    let mut i: usize = shape.len();
    assert(shape@.subrange(i as int, i as int) =~= Seq::<usize>::empty());
    while i > from
        invariant
            from <= i <= shape@.len(),
            shape_fits(shape@),
            acc == suffix_product(shape@, i as int),
        decreases i,
    {
        i = i - 1;
        proof {
            lemma_suffix_step(shape@, i as int);
            assert(suffix_product(shape@, i as int) <= usize::MAX);
        }
        acc = shape[i] * acc;
    }
    acc
}

/// The element count of a shape.
pub fn element_count(shape: &[usize]) -> (r: usize)
    requires
        shape_fits(shape@),
    ensures
        r == shape_product(shape@),
{
    proof {
        assert(shape@.subrange(0, shape@.len() as int) =~= shape@);
    }
    product_from(shape, 0)
}

/// The number of elements in one cell of an array of this shape.
pub fn cell_len(shape: &[usize]) -> (r: usize)
    requires
        shape_fits(shape@),
    ensures
        r == cell_size(shape@),
{
    if shape.len() == 0 {
        1
    } else {
        proof {
            assert(shape@.subrange(1, shape@.len() as int) =~= shape@.drop_first());
        }
        product_from(shape, 1)
    }
}

/// Whether every product of trailing axes fits in a machine word.
pub fn fits(shape: &Vec<usize>) -> (r: bool)
    ensures
        r == shape_fits(shape@),
{
    let mut acc: usize = 1;
    let mut i: usize = shape.len();
    assert(shape@.subrange(i as int, i as int) =~= Seq::<usize>::empty());
    while i > 0
        invariant
            i <= shape@.len(),
            acc == suffix_product(shape@, i as int),
            forall|j: int| i <= j <= shape@.len() ==> #[trigger] suffix_product(shape@, j)
                <= usize::MAX,
        decreases i,
    {
        i = i - 1;
        proof {
            lemma_suffix_step(shape@, i as int);
        }
        match shape[i].checked_mul(acc) {
            Some(p) => {
                acc = p;
            },
            None => {
                return false;
            },
        }
    }
    true
}

} // verus!
