//! Shape-aware algorithms on flat row-major buffers: ranges, reversal of
//! cells, length coercion and cell sorting.
use vstd::prelude::*;
use crate::shape::{
    cell_count, cell_len, cell_size, element_count, lemma_positive_shape_fits, lemma_suffix_step,
    product_from, shape_fits, shape_product, suffix_product,
};
use crate::order::Duplicate;
use crate::value::{Array, ArrayError, Number, Value, UNITS};

verus! {

/// Coordinate `j` of the element at flat position `i` in a row-major array of
/// shape `s`.
pub open spec fn coordinate(s: Seq<usize>, i: int, j: int) -> int {
    (i % (suffix_product(s, j) as int)) / (suffix_product(s, j + 1) as int)
}

/// `v` is what a range over shape `s` holds at flat position `i`: the bare
/// number `i` for rank at most one, else the array of the coordinates of `i`.
pub open spec fn is_range_cell(s: Seq<usize>, i: int, v: Value) -> bool {
    if s.len() <= 1 {
        v == Value::Num(Number::of_int(i))
    } else {
        &&& v is Array
        &&& v->Array_0.shape@ == seq![s.len() as usize]
        &&& v->Array_0.data@.len() == s.len()
        &&& forall|j: int|
            0 <= j < s.len() ==> #[trigger] v->Array_0.data@[j] == Value::Num(
                Number::of_int(coordinate(s, i, j)),
            )
    }
}

/// `data` is the range over shape `s`, position by position.
pub open spec fn is_range(s: Seq<usize>, data: Seq<Value>) -> bool {
    &&& data.len() == shape_product(s)
    &&& forall|i: int| 0 <= i < data.len() ==> is_range_cell(s, i, #[trigger] data[i])
}

proof fn lemma_suffix_zero(s: Seq<usize>, j: int)
    requires
        0 <= j <= s.len(),
        suffix_product(s, j) == 0,
    ensures
        shape_product(s) == 0,
    decreases j,
{
    if j == 0 {
        assert(s.subrange(0, s.len() as int) =~= s);
    } else {
        lemma_suffix_step(s, j - 1);
        let a = s[j - 1] as nat;
        let b = suffix_product(s, j);
        assert(a * b == 0) by (nonlinear_arith)
            requires
                b == 0,
        ;
        lemma_suffix_zero(s, j - 1);
    }
}

/// Every element of a row-major array of shape `shape`, in order: the bare
/// numbers `0..n` for rank at most one, else the coordinate array of each
/// position.
pub fn range(shape: &[usize]) -> (r: Vec<Value>)
    requires
        shape_fits(shape@),
    ensures
        is_range(shape@, r@),
{
    let len = element_count(shape);
    let rank = shape.len();
    let mut products: Vec<usize> = Vec::new();
    let mut moduli: Vec<usize> = Vec::new();
    let mut j: usize = 0;
    while j < rank
        invariant
            j <= rank == shape@.len(),
            shape_fits(shape@),
            products@.len() == j,
            moduli@.len() == j,
            forall|k: int| 0 <= k < j ==> #[trigger] products@[k] == suffix_product(shape@, k),
            forall|k: int| 0 <= k < j ==> #[trigger] moduli@[k] == suffix_product(shape@, k + 1),
        decreases rank - j,
    {
        products.push(product_from(shape, j));
        moduli.push(product_from(shape, j + 1));
        j = j + 1;
    }
    let mut data: Vec<Value> = Vec::new();
    let mut i: usize = 0;
    while i < len
        invariant
            i <= len == shape_product(shape@),
            rank == shape@.len(),
            products@.len() == rank,
            moduli@.len() == rank,
            forall|k: int| 0 <= k < rank ==> #[trigger] products@[k] == suffix_product(shape@, k),
            forall|k: int| 0 <= k < rank ==> #[trigger] moduli@[k] == suffix_product(shape@, k + 1),
            data@.len() == i,
            forall|k: int| 0 <= k < i ==> is_range_cell(shape@, k, #[trigger] data@[k]),
        decreases len - i,
    {
        if rank <= 1 {
            data.push(Value::Num(Number::from_usize(i)));
        } else {
            let mut cell: Vec<Value> = Vec::new();
            let mut j: usize = 0;
            while j < rank
                invariant
                    j <= rank == shape@.len(),
                    i < len == shape_product(shape@),
                    products@.len() == rank,
                    moduli@.len() == rank,
                    forall|k: int| 0 <= k < rank ==> #[trigger] products@[k] == suffix_product(shape@, k),
                    forall|k: int| 0 <= k < rank ==> #[trigger] moduli@[k] == suffix_product(shape@, k + 1),
                    cell@.len() == j,
                    forall|k: int|
                        0 <= k < j ==> #[trigger] cell@[k] == Value::Num(
                            Number::of_int(coordinate(shape@, i as int, k)),
                        ),
                decreases rank - j,
            {
                proof {
                    if products@[j as int] == 0 {
                        lemma_suffix_zero(shape@, j as int);
                    }
                    if moduli@[j as int] == 0 {
                        lemma_suffix_zero(shape@, j + 1);
                    }
                }
                let c = i % products[j] / moduli[j];
                cell.push(Value::Num(Number::from_usize(c)));
                j = j + 1;
            }
            let cell_shape = vec![rank];
            assert(cell_shape@ =~= seq![rank]);
            let v = Value::Array(Array { shape: cell_shape, data: cell });
            assert(is_range_cell(shape@, i as int, v));
            data.push(v);
        }
        assert(is_range_cell(shape@, i as int, data@[i as int]));
        i = i + 1;
    }
    data
}

/// Every element is a number.
pub open spec fn all_numbers(s: Seq<Value>) -> bool {
    forall|k: int| 0 <= k < s.len() ==> #[trigger] s[k] is Num
}

/// Every element is a positive whole number.
pub open spec fn all_natural(s: Seq<Value>) -> bool {
    forall|k: int| 0 <= k < s.len() ==> (#[trigger] s[k] is Num && s[k]->Num_0.is_natural())
}

/// The shape that a descriptor of positive whole numbers asks for.
pub open spec fn descriptor_shape(s: Seq<Value>) -> Seq<usize> {
    Seq::new(s.len(), |k: int| s[k]->Num_0.whole() as usize)
}

/// `out` is the range array over shape `s`.
pub open spec fn is_range_array(s: Seq<usize>, out: Array<Value>) -> bool {
    &&& out.shape@ == s
    &&& out.wf()
    &&& is_range(s, out.data@)
}

impl Value {
    /// A range can be held in memory: what the value asks for, if it asks for
    /// a valid range, counts at most `usize::MAX` elements.
    pub open spec fn range_fits(self) -> bool {
        match self {
            Value::Array(a) => all_natural(a.data@) ==> {
                &&& forall|k: int|
                    0 <= k < a.data@.len() ==> #[trigger] a.data@[k]->Num_0.whole() <= usize::MAX
                &&& shape_product(descriptor_shape(a.data@)) <= usize::MAX
            },
            Value::Num(n) => n.is_natural() ==> n.whole() <= usize::MAX,
            _ => true,
        }
    }

    /// Reads the value as a shape and enumerates every position of an array
    /// of that shape in row-major order. An array of numbers gives the shape
    /// itself; a single number `n` gives the shape `[n]`. Each count must be
    /// a whole number of at least one.
    pub fn range(&self) -> (r: Result<Array<Value>, ArrayError>)
        requires
            self.range_fits(),
        ensures
            match *self {
                Value::Array(a) => if !all_numbers(a.data@) {
                    r matches Err(ArrayError::RangeNotNumbers)
                } else if !all_natural(a.data@) {
                    r matches Err(ArrayError::RangeArrayNotNatural)
                } else {
                    r matches Ok(out) && is_range_array(descriptor_shape(a.data@), out)
                },
                Value::Num(n) => if !n.is_natural() {
                    r matches Err(ArrayError::RangeNumberNotNatural)
                } else {
                    r matches Ok(out) && is_range_array(seq![n.whole() as usize], out)
                },
                Value::Char(_) => r matches Err(ArrayError::RangeNotNumbers),
            },
    {
        match self {
            Value::Array(a) => {
                let mut k: usize = 0;
                while k < a.data.len()
                    invariant
                        k <= a.data@.len(),
                        *self == Value::Array(*a),
                        forall|m: int| 0 <= m < k ==> #[trigger] a.data@[m] is Num,
                    decreases a.data@.len() - k,
                {
                    match &a.data[k] {
                        Value::Num(_) => {},
                        _ => {
                            assert(!(a.data@[k as int] is Num));
                            return Err(ArrayError::RangeNotNumbers);
                        },
                    }
                    k = k + 1;
                }
                let mut k: usize = 0;
                while k < a.data.len()
                    invariant
                        k <= a.data@.len(),
                        all_numbers(a.data@),
                        *self == Value::Array(*a),
                        forall|m: int| 0 <= m < k ==> (#[trigger] a.data@[m])->Num_0.is_natural(),
                    decreases a.data@.len() - k,
                {
                    let n = number_at(&a.data, k);
                    if n.units % UNITS != 0 || n.units <= 0 {
                        assert(!a.data@[k as int]->Num_0.is_natural());
                        return Err(ArrayError::RangeArrayNotNatural);
                    }
                    k = k + 1;
                }
                assert(all_natural(a.data@));
                let mut shape: Vec<usize> = Vec::new();
                let mut k: usize = 0;
                while k < a.data.len()
                    invariant
                        k <= a.data@.len(),
                        all_natural(a.data@),
                        self.range_fits(),
                        *self == Value::Array(*a),
                        shape@.len() == k,
                        forall|m: int| 0 <= m < k ==> #[trigger] shape@[m] == descriptor_shape(a.data@)[m],
                    decreases a.data@.len() - k,
                {
                    shape.push(whole_count(number_at(&a.data, k)));
                    k = k + 1;
                }
                proof {
                    assert(all_natural(a.data@));
                    assert(shape@ =~= descriptor_shape(a.data@));
                    lemma_positive_shape_fits(shape@);
                }
                let data = range(shape.as_slice());
                Ok(Array { shape, data })
            },
            Value::Num(n) => {
                if n.units % UNITS != 0 || n.units <= 0 {
                    return Err(ArrayError::RangeNumberNotNatural);
                }
                let shape = vec![whole_count(*n)];
                proof {
                    assert(shape@ =~= seq![n.whole() as usize]);
                    assert(shape@.drop_first() =~= Seq::<usize>::empty());
                    assert(shape_product(shape@.drop_first()) == 1);
                    assert(shape_product(shape@) == shape@[0] as nat * shape_product(
                        shape@.drop_first(),
                    ));
                    lemma_positive_shape_fits(shape@);
                }
                let data = range(shape.as_slice());
                Ok(Array { shape, data })
            },
            Value::Char(_) => Err(ArrayError::RangeNotNumbers),
        }
    }
}

/// The number at position `k` of a buffer of numbers.
fn number_at(data: &Vec<Value>, k: usize) -> (r: Number)
    requires
        k < data@.len(),
        data@[k as int] is Num,
    ensures
        r == data@[k as int]->Num_0,
{
    match &data[k] {
        Value::Num(n) => *n,
        _ => Number::from_units(0),
    }
}

/// The count that a positive whole number stands for.
fn whole_count(n: Number) -> (r: usize)
    requires
        n.is_natural(),
        n.whole() <= usize::MAX,
    ensures
        r == n.whole(),
        r > 0,
{
    (n.units / UNITS) as usize
}

/// Cell `i` of a flat buffer whose cells hold `c` elements each.
pub open spec fn cell_at<T>(d: Seq<T>, c: nat, i: int) -> Seq<T> {
    d.subrange(i * c, i * c + c)
}

/// `after` is `before` with the order of its leading-axis cells reversed;
/// rank 0 leaves it as it is.
pub open spec fn is_reversal<T>(shape: Seq<usize>, before: Seq<T>, after: Seq<T>) -> bool {
    if shape.len() == 0 {
        after == before
    } else {
        &&& after.len() == before.len()
        &&& forall|i: int|
            0 <= i < cell_count(shape) ==> #[trigger] cell_at(after, cell_size(shape), i)
                == cell_at(before, cell_size(shape), cell_count(shape) - 1 - i)
    }
}

pub proof fn lemma_cell_bounds(n: int, c: int, i: int)
    requires
        0 <= i < n,
        0 <= c,
    ensures
        0 <= i * c,
        i * c + c <= n * c,
        (n - 1 - i) * c + c <= n * c,
        0 <= (n - 1 - i) * c,
{
    assert(0 <= i * c) by (nonlinear_arith)
        requires
            0 <= i,
            0 <= c,
    ;
    assert(i * c + c <= n * c) by (nonlinear_arith)
        requires
            i + 1 <= n,
            0 <= c,
    ;
    assert(0 <= (n - 1 - i) * c) by (nonlinear_arith)
        requires
            0 <= n - 1 - i,
            0 <= c,
    ;
    assert((n - 1 - i) * c + c <= n * c) by (nonlinear_arith)
        requires
            0 <= i,
            0 <= c,
    ;
}

/// Reverses the order of the leading-axis cells of a row-major buffer of
/// shape `shape`, moving each cell as a whole.
pub fn reverse<T>(shape: &[usize], data: &mut Vec<T>)
    requires
        shape_fits(shape@),
        old(data)@.len() == shape_product(shape@),
    ensures
        is_reversal(shape@, old(data)@, final(data)@),
{
    if shape.len() == 0 {
        return;
    }
    let n = shape[0];
    let c = cell_len(shape);
    let ghost orig = data@;
    let ghost nn = n as int;
    let ghost cc = c as int;
    proof {
        crate::shape::lemma_product_splits(shape@);
    }
    let mut rest = data.split_off(0);
    let mut i: usize = 0;
    while i < n
        invariant
            shape@.len() > 0,
            n == cell_count(shape@),
            c == cell_size(shape@),
            orig.len() == nn * cc,
            nn == n,
            cc == c,
            i <= n,
            rest@ == orig.subrange(0, (nn - i) * cc),
            data@.len() == i * cc,
            forall|j: int| 0 <= j < i ==> #[trigger] cell_at(data@, c as nat, j) == cell_at(orig, c as nat, nn - 1 - j),
        decreases n - i,
    {
        proof {
            lemma_cell_bounds(nn, cc, i as int);
            assert((nn - i) * cc == (nn - 1 - i) * cc + cc) by (nonlinear_arith);
            assert((i + 1) * cc == i * cc + cc) by (nonlinear_arith);
        }
        let at = rest.len() - c;
        let mut cell = rest.split_off(at);
        let ghost before = data@;
        data.append(&mut cell);
        proof {
            assert forall|j: int| 0 <= j < i + 1 implies #[trigger] cell_at(data@, c as nat, j)
                == cell_at(orig, c as nat, nn - 1 - j) by {
                lemma_cell_bounds(i as int + 1, cc, j);
                if j < i {
                    lemma_cell_bounds(i as int, cc, j);
                    assert(cell_at(data@, c as nat, j) =~= cell_at(before, c as nat, j));
                } else {
                    assert(cell_at(data@, c as nat, j) =~= cell_at(orig, c as nat, nn - 1 - j));
                }
            }
        }
        i = i + 1;
    }
}

impl<T> Array<T> {
    /// Reverses the order of the cells along the leading axis.
    pub fn reverse(&mut self)
        requires
            old(self).wf(),
        ensures
            final(self).wf(),
            final(self).shape@ == old(self).shape@,
            is_reversal(old(self).shape@, old(self).data@, final(self).data@),
    {
        reverse(self.shape.as_slice(), &mut self.data);
    }
}

impl Value {
    /// Reverses an array along its leading axis; leaves a scalar as it is.
    pub fn reverse(&mut self)
        requires
            old(self).wf(),
        ensures
            final(self).wf(),
            match *old(self) {
                Value::Array(a) => *final(self) is Array && (*final(self))->Array_0.shape@
                    == a.shape@ && is_reversal(a.shape@, a.data@, (*final(self))->Array_0.data@),
                _ => *final(self) == *old(self),
            },
    {
        match self {
            Value::Array(a) => a.reverse(),
            _ => {},
        }
    }
}

/// Brings `data` to `len` elements: longer buffers are truncated, shorter ones
/// grow by appending copies of their own elements from the front, round-robin,
/// so that position `k` holds the original element `k % n`.
pub fn force_length<T: Duplicate>(data: &mut Vec<T>, len: usize)
    requires
        old(data)@.len() > 0 || len == 0,
    ensures
        len <= old(data)@.len() ==> final(data)@ == old(data)@.subrange(0, len as int),
        len > old(data)@.len() ==> {
            &&& final(data)@.len() == len
            &&& forall|k: int|
                0 <= k < len ==> #[trigger] final(data)@[k] == old(data)@[k % (old(data)@.len() as int)]
        },
{
    let n = data.len();
    if n < len {
        let ghost orig = data@;
        assert forall|k: int| 0 <= k < n implies #[trigger] data@[k] == orig[k % (n as int)] by {
            vstd::arithmetic::div_mod::lemma_small_mod(k as nat, n as nat);
        }
        let mut i: usize = 0;
        while data.len() < len
            invariant
                n == orig.len() > 0,
                n <= data@.len() <= len,
                i == data@.len() - n,
                forall|k: int| 0 <= k < data@.len() ==> #[trigger] data@[k] == orig[k % (n as int)],
            decreases len - data@.len(),
        {
            proof {
                assert((i as int) % (n as int) == (i + n) % (n as int)) by {
                    vstd::arithmetic::div_mod::lemma_mod_add_multiples_vanish(i as int, n as int);
                }
            }
            let x = data[i].duplicate();
            data.push(x);
            i = i + 1;
        }
    } else if n > len {
        data.truncate(len);
    } else {
        assert(data@.subrange(0, len as int) =~= data@);
    }
}

/// The shape of a cell: the counts after the leading axis (none for rank 0).
pub open spec fn cell_shape(s: Seq<usize>) -> Seq<usize> {
    if s.len() == 0 {
        Seq::empty()
    } else {
        s.drop_first()
    }
}

/// Joining arrays of these shapes fails: both have cells, of different shapes.
pub open spec fn join_fails(a: Seq<usize>, b: Seq<usize>) -> bool {
    cell_count(a) > 0 && cell_count(b) > 0 && cell_shape(a) != cell_shape(b)
}

/// The shape of a join: the cell counts add up; the cells keep the shape of
/// the side that has any.
pub open spec fn join_shape(a: Seq<usize>, b: Seq<usize>) -> Seq<usize> {
    seq![(cell_count(a) + cell_count(b)) as usize] + if cell_count(a) == 0 {
        cell_shape(b)
    } else {
        cell_shape(a)
    }
}

/// Whether two shapes have cells of the same shape.
fn same_cell_shape(a: &Vec<usize>, b: &Vec<usize>) -> (r: bool)
    ensures
        r == (cell_shape(a@) == cell_shape(b@)),
{
    let la: usize = if a.len() == 0 { 0 } else { a.len() - 1 };
    let lb: usize = if b.len() == 0 { 0 } else { b.len() - 1 };
    if la != lb {
        assert(cell_shape(a@).len() != cell_shape(b@).len());
        return false;
    }
    let mut k: usize = 0;
    while k < la
        invariant
            la == lb == cell_shape(a@).len() == cell_shape(b@).len(),
            k <= la,
            forall|m: int| 0 <= m < k ==> cell_shape(a@)[m] == cell_shape(b@)[m],
        decreases la - k,
    {
        if a[k + 1] != b[k + 1] {
            assert(cell_shape(a@)[k as int] != cell_shape(b@)[k as int]);
            return false;
        }
        k = k + 1;
    }
    assert(cell_shape(a@) =~= cell_shape(b@));
    true
}

proof fn lemma_join_shape_fits(a: Seq<usize>, b: Seq<usize>, total: nat)
    requires
        shape_fits(a),
        shape_fits(b),
        cell_count(a) == 0 || cell_count(b) == 0 || cell_shape(a) == cell_shape(b),
        shape_product(a) + shape_product(b) == total,
        total <= usize::MAX,
        cell_count(a) + cell_count(b) <= usize::MAX,
    ensures
        shape_fits(join_shape(a, b)),
        shape_product(join_shape(a, b)) == total,
{
    let j = join_shape(a, b);
    let src = if cell_count(a) == 0 { b } else { a };
    crate::shape::lemma_product_splits(a);
    crate::shape::lemma_product_splits(b);
    assert(j.drop_first() =~= cell_shape(src));
    let cs = cell_size(src);
    assert(cell_size(a) == cs || cell_count(a) == 0);
    assert(cell_size(b) == cs || cell_count(b) == 0);
    assert(j[0] == cell_count(a) + cell_count(b));
    if src.len() == 0 {
        assert(cell_shape(src) =~= Seq::<usize>::empty());
    }
    assert(shape_product(j.drop_first()) == cs);
    assert(shape_product(j) == (cell_count(a) + cell_count(b)) * cs);
    assert(shape_product(j) == total) by (nonlinear_arith)
        requires
            shape_product(j) == (cell_count(a) + cell_count(b)) * cs,
            shape_product(a) == cell_count(a) * cell_size(a),
            shape_product(b) == cell_count(b) * cell_size(b),
            cell_size(a) == cs || cell_count(a) == 0,
            cell_size(b) == cs || cell_count(b) == 0,
            shape_product(a) + shape_product(b) == total,
    ;
    assert forall|k: int| 0 <= k <= j.len() implies #[trigger] suffix_product(j, k)
        <= usize::MAX by {
        if k == 0 {
            assert(j.subrange(0, j.len() as int) =~= j);
        } else if src.len() == 0 {
            assert(j.subrange(k, j.len() as int) =~= Seq::<usize>::empty());
        } else {
            assert(j.subrange(k, j.len() as int) =~= src.subrange(k, src.len() as int));
            assert(suffix_product(src, k) <= usize::MAX);
        }
    }
}

impl<T> Array<T> {
    /// Appends the cells of `other` after those of `self`. The cell shapes
    /// must agree, unless one side has no cells; a rank-0 array counts as one
    /// cell. On failure `self` is left as it was.
    pub fn join(&mut self, other: Array<T>) -> (r: Result<(), ArrayError>)
        requires
            old(self).wf(),
            other.wf(),
            old(self).data@.len() + other.data@.len() <= usize::MAX,
            old(self).spec_len() + other.spec_len() <= usize::MAX,
        ensures
            join_fails(old(self).shape@, other.shape@) ==> {
                &&& *final(self) == *old(self)
                &&& r matches Err(ArrayError::ShapeMismatch { left, right })
                &&& left@ == old(self).shape@
                &&& right@ == other.shape@
            },
            !join_fails(old(self).shape@, other.shape@) ==> {
                &&& r is Ok
                &&& final(self).wf()
                &&& final(self).shape@ == join_shape(old(self).shape@, other.shape@)
                &&& final(self).data@ == old(self).data@ + other.data@
            },
    {
        let la = self.len();
        let lb = other.len();
        if la > 0 && lb > 0 && !same_cell_shape(&self.shape, &other.shape) {
            return Err(
                ArrayError::ShapeMismatch {
                    left: crate::value::copy_shape(&self.shape),
                    right: crate::value::copy_shape(&other.shape),
                },
            );
        }
        let ghost a = self.shape@;
        let ghost b = other.shape@;
        assert(la + lb <= usize::MAX);
        let mut shape: Vec<usize> = Vec::new();
        shape.push(la + lb);
        let src = if la == 0 { &other.shape } else { &self.shape };
        let mut k: usize = 1;
        while k < src.len()
            invariant
                1 <= k,
                src@.len() == 0 ==> k == 1,
                src@.len() == 0 || k <= src@.len(),
                la == cell_count(a),
                lb == cell_count(b),
                la + lb <= usize::MAX,
                src@ == (if la == 0 { b } else { a }),
                shape@ == seq![(la + lb) as usize] + cell_shape(src@).subrange(0, k - 1),
            decreases src@.len() - k,
        {
            shape.push(src[k]);
            k = k + 1;
        }
        proof {
            assert(cell_shape(src@).subrange(0, k - 1) =~= cell_shape(src@));
            assert(shape@ =~= join_shape(a, b));
            lemma_join_shape_fits(a, b, (self.data@.len() + other.data@.len()) as nat);
        }
        let mut more = other.data;
        self.data.append(&mut more);
        self.shape = shape;
        Ok(())
    }
}

impl Value {
    /// The elements that the value contributes to an array: an array's own
    /// buffer, or the scalar itself.
    pub open spec fn elements(self) -> Seq<Value> {
        match self {
            Value::Array(a) => a.data@,
            _ => seq![self],
        }
    }

    /// The value as an array: a scalar becomes a rank-0 array holding it.
    pub fn into_array(self) -> (r: Array<Value>)
        ensures
            r.shape@ == self.spec_shape(),
            r.data@ == self.elements(),
            self.wf() ==> r.wf(),
    {
        match self {
            Value::Array(a) => a,
            _ => Array::scalar(self),
        }
    }

    /// Joins `other` after `self`, promoting scalars to arrays of one cell.
    /// On failure `self` is left as it was.
    pub fn join(&mut self, other: Value) -> (r: Result<(), ArrayError>)
        requires
            old(self).wf(),
            other.wf(),
            old(self).elements().len() + other.elements().len() <= usize::MAX,
            old(self).spec_len() + other.spec_len() <= usize::MAX,
        ensures
            join_fails(old(self).spec_shape(), other.spec_shape()) ==> {
                &&& *final(self) == *old(self)
                &&& r matches Err(ArrayError::ShapeMismatch { left, right })
                &&& left@ == old(self).spec_shape()
                &&& right@ == other.spec_shape()
            },
            !join_fails(old(self).spec_shape(), other.spec_shape()) ==> {
                &&& r is Ok
                &&& *final(self) is Array
                &&& final(self).wf()
                &&& final(self).spec_shape() == join_shape(old(self).spec_shape(), other.spec_shape())
                &&& (*final(self))->Array_0.data@ == old(self).elements() + other.elements()
            },
    {
        let la = self.len();
        let lb = other.len();
        if la > 0 && lb > 0 {
            let sa = self.shape();
            let sb = other.shape();
            if !same_cell_shape(&sa, &sb) {
                return Err(ArrayError::ShapeMismatch { left: sa, right: sb });
            }
        }
        let mut taken = Value::Num(Number::from_units(0));
        std::mem::swap(self, &mut taken);
        let mut arr = taken.into_array();
        match arr.join(other.into_array()) {
            Ok(()) => {
                *self = Value::Array(arr);
                Ok(())
            },
            Err(e) => {
                proof {
                    assert(false);
                }
                Err(e)
            },
        }
    }
}

} // verus!
