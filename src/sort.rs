//! Sorting the leading-axis cells of a row-major buffer, cells compared
//! lexicographically under the element type's total order.
use vstd::prelude::*;
use std::cmp::Ordering;
use crate::order::TotalOrder;
use vstd::multiset::Multiset;
use crate::algorithm::cell_at;
use crate::shape::{cell_count, cell_len, cell_size, shape_fits, shape_product};

verus! {

/// `x` comes before `y` when, at the first position `e` or later where they
/// differ, `x` holds the lesser element.
pub open spec fn lex_less_from<T: TotalOrder>(x: Seq<T>, y: Seq<T>, e: int) -> bool
    decreases x.len() - e,
{
    if e < 0 || e >= x.len() || e >= y.len() {
        false
    } else if T::less(x[e], y[e]) {
        true
    } else if x[e] == y[e] {
        lex_less_from(x, y, e + 1)
    } else {
        false
    }
}

/// Lexicographic order on cells.
pub open spec fn lex_less<T: TotalOrder>(x: Seq<T>, y: Seq<T>) -> bool {
    lex_less_from(x, y, 0)
}

/// Cells in nondecreasing lexicographic order.
pub open spec fn sorted_cells<T: TotalOrder>(cs: Seq<Seq<T>>) -> bool {
    forall|i: int, j: int| 0 <= i < j < cs.len() ==> !lex_less(#[trigger] cs[j], #[trigger] cs[i])
}

proof fn lemma_lex_irreflexive_from<T: TotalOrder>(x: Seq<T>, e: int)
    ensures
        !lex_less_from(x, x, e),
    decreases x.len() - e,
{
    if 0 <= e < x.len() {
        T::lemma_total_order(x[e], x[e], x[e]);
        lemma_lex_irreflexive_from(x, e + 1);
    }
}

proof fn lemma_lex_transitive_from<T: TotalOrder>(x: Seq<T>, y: Seq<T>, z: Seq<T>, e: int)
    requires
        x.len() == y.len() == z.len(),
        lex_less_from(x, y, e),
        lex_less_from(y, z, e),
    ensures
        lex_less_from(x, z, e),
    decreases x.len() - e,
{
    T::lemma_total_order(x[e], y[e], z[e]);
    if x[e] == y[e] && y[e] == z[e] {
        lemma_lex_transitive_from(x, y, z, e + 1);
    }
}

proof fn lemma_lex_total_from<T: TotalOrder>(x: Seq<T>, y: Seq<T>, e: int)
    requires
        x.len() == y.len(),
        0 <= e <= x.len(),
        x.subrange(e, x.len() as int) != y.subrange(e, y.len() as int),
    ensures
        lex_less_from(x, y, e) || lex_less_from(y, x, e),
    decreases x.len() - e,
{
    if e == x.len() {
        assert(x.subrange(e, x.len() as int) =~= y.subrange(e, y.len() as int));
    } else {
        T::lemma_total_order(x[e], y[e], x[e]);
        if x[e] == y[e] {
            assert(x.subrange(e + 1, x.len() as int) != y.subrange(e + 1, y.len() as int)) by {
                if x.subrange(e + 1, x.len() as int) == y.subrange(e + 1, y.len() as int) {
                    assert(x.subrange(e, x.len() as int) =~= y.subrange(e, y.len() as int)) by {
                        assert forall|k: int| 0 <= k < x.len() - e implies x.subrange(
                            e,
                            x.len() as int,
                        )[k] == y.subrange(e, y.len() as int)[k] by {
                            if k > 0 {
                                assert(x.subrange(e + 1, x.len() as int)[k - 1] == y.subrange(
                                    e + 1,
                                    y.len() as int,
                                )[k - 1]);
                            }
                        }
                    }
                }
            }
            lemma_lex_total_from(x, y, e + 1);
        }
    }
}

/// The lexicographic order on cells of one length is a strict total order.
pub proof fn lemma_lex_order<T: TotalOrder>(x: Seq<T>, y: Seq<T>, z: Seq<T>)
    requires
        x.len() == y.len() == z.len(),
    ensures
        !lex_less(x, x),
        lex_less(x, y) && lex_less(y, z) ==> lex_less(x, z),
        x != y ==> lex_less(x, y) || lex_less(y, x),
{
    lemma_lex_irreflexive_from(x, 0);
    if lex_less(x, y) && lex_less(y, z) {
        lemma_lex_transitive_from(x, y, z, 0);
    }
    if x != y {
        assert(x.subrange(0, x.len() as int) =~= x);
        assert(y.subrange(0, y.len() as int) =~= y);
        lemma_lex_total_from(x, y, 0);
    }
}

/// Compares two cells of one length lexicographically.
pub fn compare_cells<T: TotalOrder>(x: &Vec<T>, y: &Vec<T>) -> (r: Ordering)
    requires
        x@.len() == y@.len(),
    ensures
        (r == Ordering::Less) == lex_less(x@, y@),
        (r == Ordering::Greater) == lex_less(y@, x@),
        (r == Ordering::Equal) == (x@ == y@),
{
    let mut e: usize = 0;
    while e < x.len()
        invariant
            x@.len() == y@.len(),
            e <= x@.len(),
            x@.subrange(0, e as int) == y@.subrange(0, e as int),
            lex_less(x@, y@) == lex_less_from(x@, y@, e as int),
            lex_less(y@, x@) == lex_less_from(y@, x@, e as int),
        decreases x@.len() - e,
    {
        let o = x[e].compare(&y[e]);
        proof {
            T::lemma_total_order(x@[e as int], y@[e as int], x@[e as int]);
        }
        match o {
            Ordering::Equal => {},
            _ => {
                proof {
                    lemma_lex_order(x@, y@, x@);
                    assert(x@ != y@) by {
                        assert(x@[e as int] != y@[e as int]);
                    }
                }
                return o;
            },
        }
        assert(x@.subrange(0, e + 1) =~= x@.subrange(0, e as int).push(x@[e as int]));
        assert(y@.subrange(0, e + 1) =~= y@.subrange(0, e as int).push(y@[e as int]));
        e = e + 1;
    }
    proof {
        assert(x@ =~= x@.subrange(0, e as int));
        assert(y@ =~= y@.subrange(0, e as int));
        lemma_lex_order(x@, y@, x@);
    }
    Ordering::Equal
}

/// The contents of each cell.
pub open spec fn views<T>(cs: Seq<Vec<T>>) -> Seq<Seq<T>> {
    cs.map_values(|v: Vec<T>| v@)
}

/// Every cell holds `c` elements.
pub open spec fn all_len<T>(cs: Seq<Vec<T>>, c: nat) -> bool {
    forall|i: int| 0 <= i < cs.len() ==> (#[trigger] cs[i])@.len() == c
}

proof fn lemma_views_push<T>(cs: Seq<Vec<T>>, x: Vec<T>)
    ensures
        views(cs.push(x)) == views(cs).push(x@),
{
    assert(views(cs.push(x)) =~= views(cs).push(x@));
}

proof fn lemma_views_drop_last<T>(cs: Seq<Vec<T>>)
    requires
        cs.len() > 0,
    ensures
        views(cs) == views(cs.drop_last()).push(cs.last()@),
{
    assert(views(cs) =~= views(cs.drop_last()).push(cs.last()@));
}

/// `a` comes no later than `b`.
pub open spec fn cell_le<T: TotalOrder>(a: Seq<T>, b: Seq<T>) -> bool {
    !lex_less(b, a)
}

proof fn lemma_le_trans<T: TotalOrder>(a: Seq<T>, b: Seq<T>, c: Seq<T>)
    requires
        a.len() == b.len() == c.len(),
        cell_le(a, b),
        cell_le(b, c),
    ensures
        cell_le(a, c),
{
    lemma_lex_order(a, b, c);
    lemma_lex_order(c, b, a);
    lemma_lex_order(c, a, b);
    lemma_lex_order(b, c, a);
    lemma_lex_order(a, c, b);
}

/// Moves every cell of `src` to the end of `dst`, last cell first.
fn drain_reversed<T: TotalOrder>(dst: &mut Vec<Vec<T>>, src: Vec<Vec<T>>, Ghost(c): Ghost<nat>)
    requires
        all_len(old(dst)@, c),
        all_len(src@, c),
        sorted_cells(views(old(dst)@)),
        forall|i: int, j: int|
            0 <= i < old(dst)@.len() && 0 <= j < src@.len() ==> cell_le(
                (#[trigger] old(dst)@[i])@,
                (#[trigger] src@[j])@,
            ),
        forall|i: int, j: int|
            0 <= i < j < src@.len() ==> cell_le((#[trigger] src@[j])@, (#[trigger] src@[i])@),
    ensures
        all_len(final(dst)@, c),
        sorted_cells(views(final(dst)@)),
        views(final(dst)@).to_multiset() == views(old(dst)@).to_multiset().add(
            views(src@).to_multiset(),
        ),
{
    let mut src = src;
    let ghost d0 = dst@;
    let ghost s0 = src@;
    while src.len() > 0
        invariant
            all_len(dst@, c),
            all_len(src@, c),
            sorted_cells(views(dst@)),
            forall|i: int, j: int|
                0 <= i < dst@.len() && 0 <= j < src@.len() ==> cell_le(
                    (#[trigger] dst@[i])@,
                    (#[trigger] src@[j])@,
                ),
            forall|i: int, j: int|
                0 <= i < j < src@.len() ==> cell_le((#[trigger] src@[j])@, (#[trigger] src@[i])@),
            views(dst@).to_multiset().add(views(src@).to_multiset()) == views(d0).to_multiset().add(
                views(s0).to_multiset(),
            ),
        decreases src@.len(),
    {
        let ghost sb = src@;
        let ghost db = dst@;
        let x = src.pop().unwrap();
        proof {
            lemma_views_drop_last(sb);
            lemma_views_push(db, x);
            assert(src@ == sb.drop_last());
            views(sb.drop_last()).to_multiset_ensures();
            views(db).to_multiset_ensures();
            assert(views(sb).to_multiset() == views(src@).to_multiset().insert(x@));
            assert(views(db.push(x)).to_multiset() == views(db).to_multiset().insert(x@));
        }
        dst.push(x);
        proof {
            assert(views(dst@).to_multiset().add(views(src@).to_multiset()) =~= views(
                db,
            ).to_multiset().add(views(sb).to_multiset()));
            assert forall|i: int, j: int| 0 <= i < j < dst@.len() implies !lex_less(
                #[trigger] views(dst@)[j],
                #[trigger] views(dst@)[i],
            ) by {
                if j == dst@.len() - 1 {
                    assert(views(dst@)[j] == x@);
                    assert(views(dst@)[i] == db[i]@);
                } else {
                    assert(views(dst@)[j] == views(db)[j]);
                    assert(views(dst@)[i] == views(db)[i]);
                }
            }
            assert forall|i: int, j: int| 0 <= i < dst@.len() && 0 <= j < src@.len() implies cell_le(
                (#[trigger] dst@[i])@,
                (#[trigger] src@[j])@,
            ) by {
                if i == dst@.len() - 1 {
                    assert(src@[j] == sb[j]);
                    assert(cell_le(sb[sb.len() - 1]@, sb[j]@)) by {
                        assert(cell_le(sb[j]@, sb[j]@)) by {
                            lemma_lex_order(sb[j]@, sb[j]@, sb[j]@);
                        }
                    }
                } else {
                    assert(dst@[i] == db[i]);
                    assert(src@[j] == sb[j]);
                }
            }
        }
    }
    proof {
        assert(views(src@).to_multiset() == Multiset::<Seq<T>>::empty()) by {
            views(src@).to_multiset_ensures();
        }
        assert(views(dst@).to_multiset().add(Multiset::<Seq<T>>::empty()) =~= views(dst@).to_multiset());
    }
}

proof fn lemma_move_last<T>(src: Seq<Vec<T>>, dst: Seq<Vec<T>>)
    requires
        src.len() > 0,
    ensures
        views(src.drop_last()).to_multiset().add(views(dst.push(src.last())).to_multiset())
            == views(src).to_multiset().add(views(dst).to_multiset()),
{
    let x = src.last();
    lemma_views_drop_last(src);
    lemma_views_push(dst, x);
    views(src.drop_last()).to_multiset_ensures();
    views(dst).to_multiset_ensures();
    assert(views(src.drop_last()).to_multiset().add(views(dst.push(x)).to_multiset()) =~= views(
        src,
    ).to_multiset().add(views(dst).to_multiset()));
}

proof fn lemma_sorted_drop_last<T: TotalOrder>(cs: Seq<Vec<T>>)
    requires
        cs.len() > 0,
        sorted_cells(views(cs)),
    ensures
        sorted_cells(views(cs.drop_last())),
{
    assert forall|i: int, j: int| 0 <= i < j < cs.len() - 1 implies !lex_less(
        #[trigger] views(cs.drop_last())[j],
        #[trigger] views(cs.drop_last())[i],
    ) by {
        assert(views(cs.drop_last())[j] == views(cs)[j]);
        assert(views(cs.drop_last())[i] == views(cs)[i]);
    }
}

proof fn lemma_regroup<T>(d1: Multiset<T>, l1: Multiset<T>, d0: Multiset<T>, l0: Multiset<T>, r: Multiset<T>)
    requires
        l1.add(d1) == l0.add(d0),
    ensures
        d1.add(l1).add(r) == d0.add(l0).add(r),
{
    assert(d1.add(l1) =~= l1.add(d1));
    assert(d0.add(l0) =~= l0.add(d0));
}

proof fn lemma_regroup_right<T>(d1: Multiset<T>, r1: Multiset<T>, d0: Multiset<T>, r0: Multiset<T>, l: Multiset<T>)
    requires
        r1.add(d1) == r0.add(d0),
    ensures
        d1.add(l).add(r1) == d0.add(l).add(r0),
{
    assert(d1.add(l).add(r1) =~= r1.add(d1).add(l));
    assert(d0.add(l).add(r0) =~= r0.add(d0).add(l));
}

/// Merges two sorted runs of cells into one sorted run holding the cells of
/// both. Among equal cells those of `left` come first.
fn merge<T: TotalOrder>(left: Vec<Vec<T>>, right: Vec<Vec<T>>, Ghost(c): Ghost<nat>) -> (r: Vec<
    Vec<T>,
>)
    requires
        all_len(left@, c),
        all_len(right@, c),
        sorted_cells(views(left@)),
        sorted_cells(views(right@)),
    ensures
        all_len(r@, c),
        sorted_cells(views(r@)),
        views(r@).to_multiset() == views(left@).to_multiset().add(views(right@).to_multiset()),
{
    let mut left = left;
    let mut right = right;
    let ghost l0 = left@;
    let ghost r0 = right@;
    let mut desc: Vec<Vec<T>> = Vec::new();
    proof {
        assert(views(desc@).to_multiset() =~= Multiset::<Seq<T>>::empty()) by {
            views(desc@).to_multiset_ensures();
        }
    }
    while left.len() > 0 || right.len() > 0
        invariant
            all_len(left@, c),
            all_len(right@, c),
            all_len(desc@, c),
            sorted_cells(views(left@)),
            sorted_cells(views(right@)),
            forall|i: int, j: int|
                0 <= i < j < desc@.len() ==> cell_le((#[trigger] desc@[j])@, (#[trigger] desc@[i])@),
            forall|i: int, k: int|
                0 <= i < desc@.len() && 0 <= k < left@.len() ==> cell_le(
                    (#[trigger] left@[k])@,
                    (#[trigger] desc@[i])@,
                ),
            forall|i: int, k: int|
                0 <= i < desc@.len() && 0 <= k < right@.len() ==> cell_le(
                    (#[trigger] right@[k])@,
                    (#[trigger] desc@[i])@,
                ),
            views(desc@).to_multiset().add(views(left@).to_multiset()).add(
                views(right@).to_multiset(),
            ) == views(l0).to_multiset().add(views(r0).to_multiset()),
        decreases left@.len() + right@.len(),
    {
        let take_left = if left.len() == 0 {
            false
        } else if right.len() == 0 {
            true
        } else {
            match compare_cells(&left[left.len() - 1], &right[right.len() - 1]) {
                Ordering::Greater => true,
                _ => false,
            }
        };
        let ghost lb = left@;
        let ghost rb = right@;
        let ghost db = desc@;
        if take_left {
            let x = left.pop().unwrap();
            proof {
                assert(x == lb.last());
                assert(left@ == lb.drop_last());
                lemma_move_last(lb, db);
                assert forall|k: int| 0 <= k < left@.len() implies cell_le((#[trigger] left@[k])@, x@) by {
                    assert(views(lb)[k] == left@[k]@);
                    assert(views(lb)[lb.len() - 1] == x@);
                }
                assert forall|k: int| 0 <= k < right@.len() implies cell_le((#[trigger] right@[k])@, x@) by {
                    let rl = rb[rb.len() - 1]@;
                    lemma_lex_order(x@, rl, x@);
                    if k < rb.len() - 1 {
                        assert(views(rb)[k] == right@[k]@);
                        assert(views(rb)[rb.len() - 1] == rl);
                        lemma_le_trans(right@[k]@, rl, x@);
                    }
                }
            }
            desc.push(x);
            proof {
                lemma_sorted_drop_last(lb);
                lemma_regroup(
                    views(desc@).to_multiset(),
                    views(left@).to_multiset(),
                    views(db).to_multiset(),
                    views(lb).to_multiset(),
                    views(rb).to_multiset(),
                );
            }
        } else {
            let y = right.pop().unwrap();
            proof {
                assert(y == rb.last());
                assert(right@ == rb.drop_last());
                lemma_move_last(rb, db);
                assert forall|k: int| 0 <= k < right@.len() implies cell_le((#[trigger] right@[k])@, y@) by {
                    assert(views(rb)[k] == right@[k]@);
                    assert(views(rb)[rb.len() - 1] == y@);
                }
                assert forall|k: int| 0 <= k < left@.len() implies cell_le((#[trigger] left@[k])@, y@) by {
                    let ll = lb[lb.len() - 1]@;
                    assert(views(lb)[k] == left@[k]@);
                    assert(views(lb)[lb.len() - 1] == ll);
                    lemma_lex_order(ll, ll, ll);
                    lemma_le_trans(left@[k]@, ll, y@);
                }
            }
            desc.push(y);
            proof {
                lemma_sorted_drop_last(rb);
                lemma_regroup_right(
                    views(desc@).to_multiset(),
                    views(right@).to_multiset(),
                    views(db).to_multiset(),
                    views(rb).to_multiset(),
                    views(lb).to_multiset(),
                );
            }
        }
    }
    let mut out: Vec<Vec<T>> = Vec::new();
    proof {
        assert(views(out@).to_multiset() =~= Multiset::<Seq<T>>::empty()) by {
            views(out@).to_multiset_ensures();
        }
        assert(views(left@).to_multiset() =~= Multiset::<Seq<T>>::empty()) by {
            views(left@).to_multiset_ensures();
        }
        assert(views(right@).to_multiset() =~= Multiset::<Seq<T>>::empty()) by {
            views(right@).to_multiset_ensures();
        }
        assert(views(desc@).to_multiset() =~= views(l0).to_multiset().add(views(r0).to_multiset()));
    }
    drain_reversed(&mut out, desc, Ghost(c));
    proof {
        assert(views(out@).to_multiset() =~= views(l0).to_multiset().add(views(r0).to_multiset()));
    }
    out
}

/// Sorts cells of `chunk_size` elements each by splitting the run in half,
/// sorting each half, and merging the two.
pub fn merge_sort_chunks<T: TotalOrder>(chunk_size: usize, cells: Vec<Vec<T>>) -> (r: Vec<Vec<T>>)
    requires
        all_len(cells@, chunk_size as nat),
    ensures
        all_len(r@, chunk_size as nat),
        sorted_cells(views(r@)),
        views(r@).to_multiset() == views(cells@).to_multiset(),
    decreases cells@.len(),
{
    let mut cells = cells;
    let n = cells.len();
    if n <= 1 {
        return cells;
    }
    let ghost orig = cells@;
    let right = cells.split_off(n / 2);
    proof {
        assert(views(orig) =~= views(cells@) + views(right@));
        vstd::seq_lib::lemma_multiset_commutative(views(cells@), views(right@));
    }
    let left = merge_sort_chunks(chunk_size, cells);
    let right = merge_sort_chunks(chunk_size, right);
    let r = merge(left, right, Ghost(chunk_size as nat));
    r
}

/// The same elements in the opposite order, each moved once.
fn reversed<U>(v: Vec<U>) -> (r: Vec<U>)
    ensures
        r@.len() == v@.len(),
        forall|i: int| 0 <= i < v@.len() ==> #[trigger] r@[i] == v@[v@.len() - 1 - i],
{
    let mut v = v;
    let ghost v0 = v@;
    let mut r: Vec<U> = Vec::new();
    while v.len() > 0
        invariant
            v@ == v0.subrange(0, v0.len() - r@.len()),
            r@.len() <= v0.len(),
            forall|i: int| 0 <= i < r@.len() ==> #[trigger] r@[i] == v0[v0.len() - 1 - i],
        decreases v@.len(),
    {
        let x = v.pop().unwrap();
        r.push(x);
    }
    r
}

/// The cells of a flat buffer, each moved into a vector of its own.
fn to_cells<T>(data: Vec<T>, n: usize, c: usize) -> (r: Vec<Vec<T>>)
    requires
        data@.len() == n * c,
    ensures
        r@.len() == n,
        forall|i: int| 0 <= i < n ==> (#[trigger] r@[i])@ == cell_at(data@, c as nat, i),
        all_len(r@, c as nat),
{
    let mut rest = data;
    let ghost d = rest@;
    let mut rev: Vec<Vec<T>> = Vec::new();
    let mut i: usize = 0;
    while i < n
        invariant
            i <= n,
            d.len() == n * c,
            rest@ == d.subrange(0, (n - i) * c),
            rev@.len() == i,
            forall|j: int| 0 <= j < i ==> (#[trigger] rev@[j])@ == cell_at(d, c as nat, n - 1 - j),
        decreases n - i,
    {
        proof {
            crate::algorithm::lemma_cell_bounds(n as int, c as int, i as int);
            assert((n - i) * c == (n - 1 - i) * c + c) by (nonlinear_arith);
        }
        let at = rest.len() - c;
        let cell = rest.split_off(at);
        rev.push(cell);
        i = i + 1;
    }
    let r = reversed(rev);
    assert forall|j: int| 0 <= j < n implies (#[trigger] r@[j])@.len() == c by {
        crate::algorithm::lemma_cell_bounds(n as int, c as int, j);
        assert(r@[j]@ == cell_at(d, c as nat, j));
    }
    r
}

/// The cells laid end to end in one flat buffer.
fn flatten<T>(cells: Vec<Vec<T>>, Ghost(c): Ghost<nat>) -> (r: Vec<T>)
    requires
        all_len(cells@, c),
    ensures
        r@.len() == cells@.len() * c,
        forall|i: int| 0 <= i < cells@.len() ==> #[trigger] cell_at(r@, c, i) == cells@[i]@,
{
    let n = cells.len();
    let ghost cs = cells@;
    let mut rc = reversed(cells);
    let mut out: Vec<T> = Vec::new();
    let mut k: usize = 0;
    while k < n
        invariant
            k <= n == cs.len(),
            rc@.len() == n - k,
            forall|i: int| 0 <= i < n - k ==> #[trigger] rc@[i] == cs[n - 1 - i],
            all_len(cs, c),
            out@.len() == k * c,
            forall|j: int| 0 <= j < k ==> #[trigger] cell_at(out@, c, j) == cs[j]@,
        decreases n - k,
    {
        let ghost before = out@;
        let mut x = rc.pop().unwrap();
        proof {
            assert(x == cs[k as int]);
            assert((k + 1) * c == k * c + c) by (nonlinear_arith);
        }
        out.append(&mut x);
        proof {
            assert forall|j: int| 0 <= j < k + 1 implies #[trigger] cell_at(out@, c, j) == cs[j]@ by {
                if j < k {
                    crate::algorithm::lemma_cell_bounds(k as int, c as int, j);
                    assert(cell_at(out@, c, j) =~= cell_at(before, c, j));
                } else {
                    assert(cell_at(out@, c, j) =~= cs[j]@);
                }
            }
        }
        k = k + 1;
    }
    out
}

/// The cells of a flat buffer of shape `shape`, in order.
pub open spec fn cells_of<T>(shape: Seq<usize>, d: Seq<T>) -> Seq<Seq<T>> {
    Seq::new(cell_count(shape), |i: int| cell_at(d, cell_size(shape), i))
}

/// `after` holds the cells of `before`, rearranged into nondecreasing
/// lexicographic order; rank 0 leaves the buffer as it is.
pub open spec fn is_sort<T: TotalOrder>(shape: Seq<usize>, before: Seq<T>, after: Seq<T>) -> bool {
    if shape.len() == 0 {
        after == before
    } else {
        &&& after.len() == before.len()
        &&& sorted_cells(cells_of(shape, after))
        &&& cells_of(shape, after).to_multiset() == cells_of(shape, before).to_multiset()
    }
}

/// Sorts the leading-axis cells of a row-major buffer of shape `shape`,
/// comparing cells lexicographically. Ties keep the earlier cell first; as
/// cells compare equal only when they hold the same elements, ties cannot be
/// told apart in the result.
pub fn sort_array<T: TotalOrder>(shape: &[usize], data: &mut Vec<T>)
    requires
        shape_fits(shape@),
        old(data)@.len() == shape_product(shape@),
    ensures
        is_sort(shape@, old(data)@, final(data)@),
{
    if shape.len() == 0 {
        return;
    }
    let n = shape[0];
    let c = cell_len(shape);
    let ghost d0 = data@;
    proof {
        crate::shape::lemma_product_splits(shape@);
    }
    let all = data.split_off(0);
    assert(all@ =~= d0);
    let cells = to_cells(all, n, c);
    proof {
        assert(views(cells@) =~= cells_of(shape@, d0));
    }
    let sorted = merge_sort_chunks(c, cells);
    proof {
        vstd::seq_lib::to_multiset_len(views(sorted@));
        vstd::seq_lib::to_multiset_len(views(cells@));
    }
    let mut flat = flatten(sorted, Ghost(c as nat));
    proof {
        assert(views(sorted@) =~= cells_of(shape@, flat@));
    }
    data.append(&mut flat);
}

} // verus!
