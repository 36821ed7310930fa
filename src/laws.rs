//! Laws that relate the algorithms to themselves and to each other.
use vstd::prelude::*;
use crate::algorithm::{cell_at, cell_shape, coordinate, is_reversal, join_fails, join_shape, lemma_cell_bounds};
use crate::order::TotalOrder;
use crate::shape::{
    cell_count, cell_size, lemma_product_splits, lemma_suffix_step, shape_product, suffix_product,
};
use crate::sort::{cells_of, is_sort, lemma_lex_order, lex_less, sorted_cells};

verus! {

/// Two buffers of one shape that agree cell by cell are equal.
pub proof fn lemma_cells_determine<T>(shape: Seq<usize>, x: Seq<T>, y: Seq<T>)
    requires
        shape.len() > 0,
        x.len() == shape_product(shape),
        y.len() == shape_product(shape),
        forall|i: int|
            0 <= i < cell_count(shape) ==> #[trigger] cell_at(x, cell_size(shape), i) == cell_at(
                y,
                cell_size(shape),
                i,
            ),
    ensures
        x == y,
{
    lemma_product_splits(shape);
    let n = cell_count(shape) as int;
    let c = cell_size(shape) as int;
    assert forall|k: int| 0 <= k < x.len() implies x[k] == y[k] by {
        assert(c > 0) by (nonlinear_arith)
            requires
                0 <= k < n * c,
                c >= 0,
        ;
        let i = k / c;
        let e = k % c;
        vstd::arithmetic::div_mod::lemma_fundamental_div_mod(k, c);
        assert(0 <= e < c);
        assert(0 <= i < n) by (nonlinear_arith)
            requires
                k == c * i + e,
                0 <= e < c,
                0 <= k < n * c,
        ;
        lemma_cell_bounds(n, c, i);
        assert(k == i * c + e) by (nonlinear_arith)
            requires
                k == c * i + e,
        ;
        assert(cell_at(x, c as nat, i)[e] == x[k]);
        assert(cell_at(y, c as nat, i)[e] == y[k]);
    }
    assert(x =~= y);
}

/// Reversing the cells of a buffer twice gives the buffer back.
pub proof fn reverse_is_involution<T>(shape: Seq<usize>, a: Seq<T>, b: Seq<T>, c: Seq<T>)
    requires
        a.len() == shape_product(shape),
        is_reversal(shape, a, b),
        is_reversal(shape, b, c),
    ensures
        c == a,
{
    if shape.len() > 0 {
        let n = cell_count(shape) as int;
        assert forall|i: int| 0 <= i < n implies #[trigger] cell_at(c, cell_size(shape), i)
            == cell_at(a, cell_size(shape), i) by {
            assert(cell_at(c, cell_size(shape), i) == cell_at(b, cell_size(shape), n - 1 - i));
            assert(cell_at(b, cell_size(shape), n - 1 - i) == cell_at(
                a,
                cell_size(shape),
                n - 1 - (n - 1 - i),
            ));
        }
        lemma_cells_determine(shape, c, a);
    }
}

/// Reversing a rank-0 array, or one with at most one cell, changes nothing.
pub proof fn reverse_of_single_cell_is_identity<T>(shape: Seq<usize>, a: Seq<T>, b: Seq<T>)
    requires
        a.len() == shape_product(shape),
        cell_count(shape) <= 1,
        is_reversal(shape, a, b),
    ensures
        b == a,
{
    if shape.len() > 0 {
        assert forall|i: int| 0 <= i < cell_count(shape) implies #[trigger] cell_at(
            b,
            cell_size(shape),
            i,
        ) == cell_at(a, cell_size(shape), i) by {
            assert(i == cell_count(shape) - 1 - i);
        }
        lemma_cells_determine(shape, b, a);
    }
}

proof fn lemma_sorted_unique<T: TotalOrder>(s: Seq<Seq<T>>, t: Seq<Seq<T>>, m: nat)
    requires
        forall|i: int| 0 <= i < s.len() ==> (#[trigger] s[i]).len() == m,
        forall|i: int| 0 <= i < t.len() ==> (#[trigger] t[i]).len() == m,
        sorted_cells(s),
        sorted_cells(t),
        s.to_multiset() == t.to_multiset(),
    ensures
        s == t,
    decreases s.len(),
{
    vstd::seq_lib::to_multiset_len(s);
    vstd::seq_lib::to_multiset_len(t);
    if s.len() > 0 {
        let x = s[0];
        let y = t[0];
        vstd::seq_lib::to_multiset_contains(s, y);
        vstd::seq_lib::to_multiset_contains(t, x);
        vstd::seq_lib::to_multiset_contains(s, x);
        vstd::seq_lib::to_multiset_contains(t, y);
        assert(s.contains(x)) by {
            assert(s[0] == x);
        }
        assert(t.contains(y)) by {
            assert(t[0] == y);
        }
        assert(s.contains(y));
        assert(t.contains(x));
        let k = choose|k: int| 0 <= k < s.len() && s[k] == y;
        let j = choose|j: int| 0 <= j < t.len() && t[j] == x;
        if k > 0 {
            assert(!lex_less(s[k], s[0]));
        }
        if j > 0 {
            assert(!lex_less(t[j], t[0]));
        }
        lemma_lex_order(x, y, x);
        assert(x == y);
        vstd::seq_lib::to_multiset_remove(s, 0);
        vstd::seq_lib::to_multiset_remove(t, 0);
        assert(s.remove(0) =~= s.drop_first());
        assert(t.remove(0) =~= t.drop_first());
        assert(sorted_cells(s.drop_first())) by {
            assert forall|a: int, b: int| 0 <= a < b < s.len() - 1 implies !lex_less(
                #[trigger] s.drop_first()[b],
                #[trigger] s.drop_first()[a],
            ) by {
                assert(s.drop_first()[b] == s[b + 1]);
                assert(s.drop_first()[a] == s[a + 1]);
            }
        }
        assert(sorted_cells(t.drop_first())) by {
            assert forall|a: int, b: int| 0 <= a < b < t.len() - 1 implies !lex_less(
                #[trigger] t.drop_first()[b],
                #[trigger] t.drop_first()[a],
            ) by {
                assert(t.drop_first()[b] == t[b + 1]);
                assert(t.drop_first()[a] == t[a + 1]);
            }
        }
        lemma_sorted_unique(s.drop_first(), t.drop_first(), m);
        assert(s =~= t) by {
            assert forall|i: int| 0 <= i < s.len() implies s[i] == t[i] by {
                if i > 0 {
                    assert(s[i] == s.drop_first()[i - 1]);
                    assert(t[i] == t.drop_first()[i - 1]);
                }
            }
        }
    }
}

/// Sorting a buffer that is already sorted gives it back unchanged.
pub proof fn sort_is_idempotent<T: TotalOrder>(shape: Seq<usize>, a: Seq<T>, b: Seq<T>, c: Seq<T>)
    requires
        a.len() == shape_product(shape),
        is_sort(shape, a, b),
        is_sort(shape, b, c),
    ensures
        c == b,
{
    if shape.len() > 0 {
        lemma_product_splits(shape);
        let n = cell_count(shape) as int;
        let m = cell_size(shape);
        assert forall|i: int| 0 <= i < n implies (#[trigger] cells_of(shape, b)[i]).len() == m by {
            lemma_cell_bounds(n, m as int, i);
        }
        assert forall|i: int| 0 <= i < n implies (#[trigger] cells_of(shape, c)[i]).len() == m by {
            lemma_cell_bounds(n, m as int, i);
        }
        lemma_sorted_unique(cells_of(shape, c), cells_of(shape, b), m);
        assert forall|i: int| 0 <= i < n implies #[trigger] cell_at(c, m, i) == cell_at(b, m, i) by {
            assert(cells_of(shape, c)[i] == cells_of(shape, b)[i]);
        }
        lemma_cells_determine(shape, c, b);
    }
}

/// A successful join holds the cells of the first array, in order, followed
/// by the cells of the second, in order.
pub proof fn join_keeps_cells<T>(
    a_shape: Seq<usize>,
    a: Seq<T>,
    b_shape: Seq<usize>,
    b: Seq<T>,
)
    requires
        a.len() == shape_product(a_shape),
        b.len() == shape_product(b_shape),
        !join_fails(a_shape, b_shape),
        cell_count(a_shape) + cell_count(b_shape) <= usize::MAX,
    ensures
        cell_count(join_shape(a_shape, b_shape)) == cell_count(a_shape) + cell_count(b_shape),
        forall|i: int|
            0 <= i < cell_count(a_shape) ==> #[trigger] cells_of(join_shape(a_shape, b_shape), a + b)[i]
                == cells_of(a_shape, a)[i],
        forall|i: int|
            0 <= i < cell_count(b_shape) ==> #[trigger] cells_of(join_shape(a_shape, b_shape), a + b)[
                cell_count(a_shape) + i] == cells_of(b_shape, b)[i],
{
    let j = join_shape(a_shape, b_shape);
    let la = cell_count(a_shape) as int;
    let lb = cell_count(b_shape) as int;
    let src = if la == 0 { b_shape } else { a_shape };
    lemma_product_splits(a_shape);
    lemma_product_splits(b_shape);
    assert(j.drop_first() =~= cell_shape(src));
    if src.len() == 0 {
        assert(cell_shape(src) =~= Seq::<usize>::empty());
    }
    assert(j[0] == la + lb);
    let c = cell_size(j) as int;
    assert(c == cell_size(src));
    assert(la == 0 || cell_size(a_shape) == c);
    assert(lb == 0 || cell_size(b_shape) == c);
    let ab = a + b;
    assert forall|i: int| 0 <= i < la implies #[trigger] cells_of(j, ab)[i] == cells_of(a_shape, a)[i] by {
        lemma_cell_bounds(la, c, i);
        assert(cell_at(ab, c as nat, i) =~= cell_at(a, c as nat, i));
    }
    assert forall|i: int| 0 <= i < lb implies #[trigger] cells_of(j, ab)[la + i] == cells_of(b_shape, b)[i] by {
        lemma_cell_bounds(lb, c, i);
        lemma_cell_bounds(la + lb, c, la + i);
        assert((la + i) * c == la * c + i * c) by (nonlinear_arith);
        assert(a.len() == la * c) by (nonlinear_arith)
            requires
                a.len() == la * cell_size(a_shape),
                la == 0 || cell_size(a_shape) == c,
        ;
        assert(cell_at(ab, c as nat, la + i) =~= cell_at(b, c as nat, i));
    }
}

/// The flat row-major position of the coordinates `t` in an array of shape
/// `s`.
pub open spec fn flat_index(s: Seq<usize>, t: Seq<int>) -> int
    decreases s.len(),
{
    if s.len() == 0 || t.len() == 0 {
        0
    } else {
        t[0] * (shape_product(s.drop_first()) as int) + flat_index(s.drop_first(), t.drop_first())
    }
}

/// All coordinates of flat position `i` in an array of shape `s`.
pub open spec fn coordinates(s: Seq<usize>, i: int) -> Seq<int> {
    Seq::new(s.len(), |j: int| coordinate(s, i, j))
}

/// `t` names a position inside an array of shape `s`.
pub open spec fn in_bounds(s: Seq<usize>, t: Seq<int>) -> bool {
    t.len() == s.len() && forall|j: int| 0 <= j < s.len() ==> 0 <= #[trigger] t[j] < s[j]
}

proof fn lemma_segment(s: Seq<usize>, a: int, b: int)
    requires
        0 <= a <= b <= s.len(),
    ensures
        suffix_product(s, a) == shape_product(s.subrange(a, b)) * suffix_product(s, b),
    decreases b - a,
{
    if a == b {
        assert(s.subrange(a, b) =~= Seq::<usize>::empty());
        assert(shape_product(s.subrange(a, b)) == 1);
    } else {
        lemma_segment(s, a + 1, b);
        lemma_suffix_step(s, a);
        assert(s.subrange(a, b).drop_first() =~= s.subrange(a + 1, b));
        let x = s[a] as int;
        let m = shape_product(s.subrange(a + 1, b)) as int;
        let r = suffix_product(s, b) as int;
        assert(s.subrange(a, b)[0] == s[a]);
        assert(shape_product(s.subrange(a, b)) == x * m);
        assert(suffix_product(s, a) == x * (m * r));
        assert(x * (m * r) == (x * m) * r) by (nonlinear_arith);
    }
}

proof fn lemma_coordinate_step(s: Seq<usize>, i: int, j: int)
    requires
        s.len() > 0,
        0 <= i < shape_product(s),
        0 <= j < s.len() - 1,
    ensures
        coordinate(s, i, j + 1) == coordinate(
            s.drop_first(),
            i % (shape_product(s.drop_first()) as int),
            j,
        ),
{
    let t = s.drop_first();
    assert(t.subrange(j, t.len() as int) =~= s.subrange(j + 1, s.len() as int));
    assert(t.subrange(j + 1, t.len() as int) =~= s.subrange(j + 2, s.len() as int));
    assert(t =~= s.subrange(1, s.len() as int));
    let p1 = suffix_product(s, 1) as int;
    let pj = suffix_product(s, j + 1) as int;
    let seg = shape_product(s.subrange(1, j + 1)) as int;
    lemma_segment(s, 1, j + 1);
    assert(p1 > 0) by (nonlinear_arith)
        requires
            0 <= i < (s[0] as int) * p1,
            p1 >= 0,
    ;
    assert(seg > 0 && pj > 0) by (nonlinear_arith)
        requires
            p1 == seg * pj,
            p1 > 0,
            seg >= 0,
            pj >= 0,
    ;
    assert(p1 == pj * seg) by (nonlinear_arith)
        requires
            p1 == seg * pj,
    ;
    vstd::arithmetic::div_mod::lemma_mod_mod(i, pj, seg);
}

proof fn lemma_coordinates_decode(s: Seq<usize>, i: int)
    requires
        0 <= i < shape_product(s),
    ensures
        in_bounds(s, coordinates(s, i)),
        flat_index(s, coordinates(s, i)) == i,
    decreases s.len(),
{
    if s.len() > 0 {
        let t = s.drop_first();
        let m = shape_product(t) as int;
        let s0 = s[0] as int;
        assert(m > 0) by (nonlinear_arith)
            requires
                0 <= i < s0 * m,
                m >= 0,
        ;
        assert(s.subrange(0, s.len() as int) =~= s);
        assert(s.subrange(1, s.len() as int) =~= t);
        assert(suffix_product(s, 0) == s0 * m);
        vstd::arithmetic::div_mod::lemma_small_mod(i as nat, (s0 * m) as nat);
        let q = i / m;
        let r = i % m;
        vstd::arithmetic::div_mod::lemma_fundamental_div_mod(i, m);
        assert(0 <= q < s0) by (nonlinear_arith)
            requires
                i == m * q + r,
                0 <= r < m,
                0 <= i < s0 * m,
        ;
        assert(coordinate(s, i, 0) == q);
        lemma_coordinates_decode(t, r);
        assert forall|j: int| 0 <= j < t.len() implies coordinates(s, i).drop_first()[j]
            == coordinates(t, r)[j] by {
            lemma_coordinate_step(s, i, j);
        }
        assert(coordinates(s, i).drop_first() =~= coordinates(t, r));
        assert forall|j: int| 0 <= j < s.len() implies 0 <= #[trigger] coordinates(s, i)[j]
            < s[j] by {
            if j > 0 {
                assert(coordinates(s, i)[j] == coordinates(t, r)[j - 1]);
            }
        }
        assert(q * m + r == i) by (nonlinear_arith)
            requires
                i == m * q + r,
        ;
    }
}

/// A range enumerates positions in row-major order: the coordinates that it
/// lists at flat position `i` lie inside the shape and lead back to `i`, so
/// no two positions list the same coordinates.
pub proof fn range_lists_each_position(s: Seq<usize>, i: int)
    requires
        0 <= i < shape_product(s),
    ensures
        in_bounds(s, coordinates(s, i)),
        flat_index(s, coordinates(s, i)) == i,
{
    lemma_coordinates_decode(s, i);
}

/// A range lists every position: each coordinate tuple inside the shape is
/// listed, at its row-major flat position.
pub proof fn range_reaches_every_position(s: Seq<usize>, t: Seq<int>)
    requires
        in_bounds(s, t),
    ensures
        0 <= flat_index(s, t) < shape_product(s),
        coordinates(s, flat_index(s, t)) == t,
    decreases s.len(),
{
    if s.len() > 0 {
        let u = s.drop_first();
        let m = shape_product(u) as int;
        let s0 = s[0] as int;
        assert(in_bounds(u, t.drop_first())) by {
            assert forall|j: int| 0 <= j < u.len() implies 0 <= #[trigger] t.drop_first()[j]
                < u[j] by {
                assert(t.drop_first()[j] == t[j + 1]);
            }
        }
        range_reaches_every_position(u, t.drop_first());
        let f = flat_index(s, t);
        let r = flat_index(u, t.drop_first());
        let q = t[0];
        assert(0 <= q < s0);
        assert(f == q * m + r);
        assert(0 <= f < s0 * m) by (nonlinear_arith)
            requires
                f == q * m + r,
                0 <= r < m,
                0 <= q < s0,
        ;
        vstd::arithmetic::div_mod::lemma_fundamental_div_mod_converse(f, m, q, r);
        assert(s.subrange(0, s.len() as int) =~= s);
        vstd::arithmetic::div_mod::lemma_small_mod(f as nat, (s0 * m) as nat);
        assert(coordinate(s, f, 0) == q);
        assert forall|j: int| 0 <= j < s.len() implies #[trigger] coordinates(s, f)[j] == t[j] by {
            if j > 0 {
                lemma_coordinate_step(s, f, j - 1);
                assert(coordinates(u, r)[j - 1] == t.drop_first()[j - 1]);
            }
        }
        assert(coordinates(s, f) =~= t);
    } else {
        assert(t =~= Seq::<int>::empty());
        assert(coordinates(s, 0) =~= t);
    }
}

/// `a` comes before `b` in lexicographic order on coordinate tuples.
pub open spec fn tuple_less(a: Seq<int>, b: Seq<int>) -> bool
    decreases a.len(),
{
    if a.len() == 0 || b.len() == 0 {
        false
    } else if a[0] < b[0] {
        true
    } else if a[0] == b[0] {
        tuple_less(a.drop_first(), b.drop_first())
    } else {
        false
    }
}

proof fn lemma_in_bounds_tail(s: Seq<usize>, t: Seq<int>)
    requires
        s.len() > 0,
        in_bounds(s, t),
    ensures
        in_bounds(s.drop_first(), t.drop_first()),
{
    assert forall|j: int| 0 <= j < s.len() - 1 implies 0 <= #[trigger] t.drop_first()[j]
        < s.drop_first()[j] by {
        assert(t.drop_first()[j] == t[j + 1]);
    }
}

proof fn lemma_flat_order(s: Seq<usize>, a: Seq<int>, b: Seq<int>)
    requires
        in_bounds(s, a),
        in_bounds(s, b),
        flat_index(s, a) < flat_index(s, b),
    ensures
        tuple_less(a, b),
    decreases s.len(),
{
    if s.len() > 0 {
        let u = s.drop_first();
        let m = shape_product(u) as int;
        lemma_in_bounds_tail(s, a);
        lemma_in_bounds_tail(s, b);
        range_reaches_every_position(u, a.drop_first());
        range_reaches_every_position(u, b.drop_first());
        let ra = flat_index(u, a.drop_first());
        let rb = flat_index(u, b.drop_first());
        let a0 = a[0];
        let b0 = b[0];
        assert(flat_index(s, a) == a0 * m + ra);
        assert(flat_index(s, b) == b0 * m + rb);
        if a0 > b0 {
            assert(a0 * m >= (b0 + 1) * m) by (nonlinear_arith)
                requires
                    a0 >= b0 + 1,
                    m >= 0,
            ;
            assert((b0 + 1) * m == b0 * m + m) by (nonlinear_arith);
            assert(a0 * m + ra >= b0 * m + rb);
        } else if a0 == b0 {
            lemma_flat_order(u, a.drop_first(), b.drop_first());
        }
    }
}

/// A range lists positions in row-major order: the coordinates listed at an
/// earlier flat position come lexicographically before those listed at a
/// later one.
pub proof fn range_lists_positions_in_order(s: Seq<usize>, i: int, k: int)
    requires
        0 <= i < k < shape_product(s),
    ensures
        tuple_less(coordinates(s, i), coordinates(s, k)),
{
    lemma_coordinates_decode(s, i);
    lemma_coordinates_decode(s, k);
    lemma_flat_order(s, coordinates(s, i), coordinates(s, k));
}

} // verus!
