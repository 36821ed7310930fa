//! Runtime values: bare scalars, or arrays that own a shape and a flat buffer.
use vstd::prelude::*;
use std::cmp::Ordering;
use vstd::string::StringExecFns;
use crate::order::{Duplicate, TotalOrder};
use crate::shape::{cell_count, element_count, fits, shape_fits, shape_product, suffix_product};

verus! {

/// Fractional units in one whole: a number is held as an exact count of
/// millionths.
pub const UNITS: i128 = 1_000_000;

/// A scalar number, held exactly in fixed point as `units / UNITS`, so that
/// whole and fractional values are told apart without rounding error.
#[derive(Clone, Copy, Debug, PartialEq, Eq, Structural)]
pub struct Number {
    pub units: i128,
}

impl Number {
    /// The number holds a whole value that is at least one.
    pub open spec fn is_natural(self) -> bool {
        self.units % UNITS == 0 && self.units > 0
    }

    /// The whole part (exact when the number is whole).
    pub open spec fn whole(self) -> int {
        self.units / UNITS
    }

    /// The number equal to the integer `n`.
    pub open spec fn of_int(n: int) -> Number {
        Number { units: (n * UNITS) as i128 }
    }

    /// The number equal to the count `n`.
    pub fn from_usize(n: usize) -> (r: Number)
        ensures
            r == Number::of_int(n as int),
    {
        assert(n as int * UNITS <= i128::MAX) by (nonlinear_arith)
            requires
                n <= usize::MAX,
        ;
        Number { units: n as i128 * UNITS }
    }

    /// The number `units / UNITS`.
    pub fn from_units(units: i128) -> (r: Number)
        ensures
            r.units == units,
    {
        Number { units }
    }
}

impl Duplicate for Number {
    fn duplicate(&self) -> (r: Self) {
        *self
    }
}

impl TotalOrder for Number {
    open spec fn less(a: Self, b: Self) -> bool {
        a.units < b.units
    }

    proof fn lemma_total_order(a: Self, b: Self, c: Self) {
    }

    fn compare(&self, other: &Self) -> (r: Ordering) {
        if self.units < other.units {
            Ordering::Less
        } else if self.units > other.units {
            Ordering::Greater
        } else {
            Ordering::Equal
        }
    }
}

/// A runtime value: a bare scalar, or an owned array of values.
#[derive(Debug, PartialEq)]
pub enum Value {
    Num(Number),
    Char(char),
    Array(Array<Value>),
}

/// A shape and a row-major buffer of elements.
#[derive(Debug, PartialEq)]
pub struct Array<T> {
    pub shape: Vec<usize>,
    pub data: Vec<T>,
}

/// Why an operation on arrays failed.
#[derive(Debug, PartialEq)]
pub enum ArrayError {
    /// A range was asked of an array holding a number that is not a positive
    /// whole number.
    RangeArrayNotNatural,
    /// A range was asked of a number that is not a positive whole number.
    RangeNumberNotNatural,
    /// A range was asked of a value that is neither a number nor an array of
    /// numbers.
    RangeNotNumbers,
    /// Two arrays to be joined disagree on the shape of their cells.
    ShapeMismatch { left: Vec<usize>, right: Vec<usize> },
}

/// The decimal digits of `n`.
pub open spec fn decimal(n: nat) -> Seq<char>
    decreases n,
{
    if n < 10 {
        seq![digit_char(n)]
    } else {
        decimal(n / 10) + seq![digit_char(n % 10)]
    }
}

/// The character of a decimal digit.
pub open spec fn digit_char(d: nat) -> char {
    if d == 0 { '0' }
    else if d == 1 { '1' }
    else if d == 2 { '2' }
    else if d == 3 { '3' }
    else if d == 4 { '4' }
    else if d == 5 { '5' }
    else if d == 6 { '6' }
    else if d == 7 { '7' }
    else if d == 8 { '8' }
    else { '9' }
}

/// The counts of a shape in decimal, separated by ", ".
pub open spec fn counts_text(s: Seq<usize>) -> Seq<char>
    decreases s.len(),
{
    if s.len() == 0 {
        Seq::empty()
    } else if s.len() == 1 {
        decimal(s[0] as nat)
    } else {
        counts_text(s.drop_last()) + ", "@ + decimal(s.last() as nat)
    }
}

/// A shape written as a bracketed list, such as `[2, 3]`.
pub open spec fn shape_text(s: Seq<usize>) -> Seq<char> {
    "["@ + counts_text(s) + "]"@
}

/// The message of a failed join of arrays of shapes `left` and `right`.
pub open spec fn mismatch_text(left: Seq<usize>, right: Seq<usize>) -> Seq<char> {
    "Cannot join arrays of shapes "@ + shape_text(left) + " and "@ + shape_text(right)
        + ": their cells differ in shape"@
}

fn digit_str(d: usize) -> (r: &'static str)
    requires
        d < 10,
    ensures
        r@ == seq![digit_char(d as nat)],
{
    proof {
        reveal_strlit("0");
        reveal_strlit("1");
        reveal_strlit("2");
        reveal_strlit("3");
        reveal_strlit("4");
        reveal_strlit("5");
        reveal_strlit("6");
        reveal_strlit("7");
        reveal_strlit("8");
        reveal_strlit("9");
    }
    if d == 0 { "0" }
    else if d == 1 { "1" }
    else if d == 2 { "2" }
    else if d == 3 { "3" }
    else if d == 4 { "4" }
    else if d == 5 { "5" }
    else if d == 6 { "6" }
    else if d == 7 { "7" }
    else if d == 8 { "8" }
    else { "9" }
}

/// Writes `n` in decimal at the end of `out`.
fn push_decimal(out: &mut String, n: usize)
    ensures
        final(out)@ == old(out)@ + decimal(n as nat),
    decreases n,
{
    if n >= 10 {
        push_decimal(out, n / 10);
    }
    out.append(digit_str(n % 10));
}

/// Writes a shape as a bracketed list at the end of `out`.
fn push_shape(out: &mut String, s: &Vec<usize>)
    ensures
        final(out)@ == old(out)@ + shape_text(s@),
{
    let ghost start = out@;
    proof {
        reveal_strlit("[");
        reveal_strlit("]");
        reveal_strlit(", ");
    }
    out.append("[");
    let mut k: usize = 0;
    while k < s.len()
        invariant
            k <= s@.len(),
            out@ == start + "["@ + counts_text(s@.subrange(0, k as int)),
        decreases s@.len() - k,
    {
        let ghost before = out@;
        if k > 0 {
            out.append(", ");
        }
        push_decimal(out, s[k]);
        proof {
            let t = s@.subrange(0, k + 1);
            assert(t.drop_last() =~= s@.subrange(0, k as int));
            if k == 0 {
                assert(s@.subrange(0, 0) =~= Seq::<usize>::empty());
                assert(counts_text(t) == decimal(s@[0] as nat));
            }
            assert(out@ =~= start + "["@ + counts_text(t));
        }
        k = k + 1;
    }
    assert(s@.subrange(0, s@.len() as int) =~= s@);
    out.append("]");
    assert(out@ =~= start + shape_text(s@));
}

impl ArrayError {
    /// A human-readable account of the failure. Range failures name the
    /// requirement of natural numbers and whether an array or a single number
    /// was given; a failed join names both shapes.
    pub fn message(&self) -> (r: String)
        ensures
            *self is RangeArrayNotNatural ==> r@
                == "Tried to make a range of an array with decimal or nonpositive numbers, but only natural numbers are allowed"@,
            *self is RangeNumberNotNatural ==> r@
                == "Tried to make a range of decimal or nonpositive number, but only natural numbers are allowed"@,
            *self is RangeNotNumbers ==> r@
                == "Ranges can only be created from natural numbers"@,
            *self matches ArrayError::ShapeMismatch { left, right } ==> r@ == mismatch_text(
                left@,
                right@,
            ),
    {
        match self {
            ArrayError::RangeArrayNotNatural => String::from_str(
                "Tried to make a range of an array with decimal or nonpositive numbers, but only natural numbers are allowed",
            ),
            ArrayError::RangeNumberNotNatural => String::from_str(
                "Tried to make a range of decimal or nonpositive number, but only natural numbers are allowed",
            ),
            ArrayError::RangeNotNumbers => String::from_str(
                "Ranges can only be created from natural numbers",
            ),
            ArrayError::ShapeMismatch { left, right } => {
                let mut out = String::new();
                proof {
                    reveal_strlit("Cannot join arrays of shapes ");
                    reveal_strlit(" and ");
                    reveal_strlit(": their cells differ in shape");
                }
                out.append("Cannot join arrays of shapes ");
                push_shape(&mut out, left);
                out.append(" and ");
                push_shape(&mut out, right);
                out.append(": their cells differ in shape");
                assert(out@ =~= mismatch_text(left@, right@));
                out
            },
        }
    }
}

/// A copy of a shape.
pub fn copy_shape(s: &Vec<usize>) -> (r: Vec<usize>)
    ensures
        r@ == s@,
{
    let mut r: Vec<usize> = Vec::new();
    let mut i: usize = 0;
    while i < s.len()
        invariant
            i <= s@.len(),
            r@ == s@.subrange(0, i as int),
        decreases s@.len() - i,
    {
        r.push(s[i]);
        i = i + 1;
    }
    assert(r@ =~= s@);
    r
}

impl<T> Array<T> {
    /// The buffer holds exactly as many elements as the shape counts.
    pub open spec fn wf(self) -> bool {
        shape_fits(self.shape@) && shape_product(self.shape@) == self.data@.len()
    }

    /// Number of cells along the leading axis.
    pub open spec fn spec_len(self) -> nat {
        cell_count(self.shape@)
    }

    /// An array from a shape and a buffer, if the buffer holds exactly as
    /// many elements as the shape counts.
    pub fn new(shape: Vec<usize>, data: Vec<T>) -> (r: Option<Array<T>>)
        ensures
            r is Some <==> shape_fits(shape@) && shape_product(shape@) == data@.len(),
            r matches Some(a) ==> a.shape@ == shape@ && a.data@ == data@,
    {
        if !fits(&shape) {
            return None;
        }
        let n = element_count(shape.as_slice());
        if n == data.len() {
            Some(Array { shape, data })
        } else {
            None
        }
    }

    /// The rank-0 array holding one element.
    pub fn scalar(x: T) -> (r: Array<T>)
        ensures
            r.shape@ == Seq::<usize>::empty(),
            r.data@ == seq![x],
            r.wf(),
    {
        let shape: Vec<usize> = Vec::new();
        let mut data: Vec<T> = Vec::new();
        data.push(x);
        proof {
            assert(suffix_product(shape@, 0) == 1) by {
                assert(shape@.subrange(0, 0) =~= shape@);
            }
        }
        Array { shape, data }
    }

    /// Number of cells along the leading axis (1 for rank 0).
    pub fn len(&self) -> (r: usize)
        ensures
            r == self.spec_len(),
    {
        if self.shape.len() == 0 {
            1
        } else {
            self.shape[0]
        }
    }

    /// Number of axes.
    pub fn rank(&self) -> (r: usize)
        ensures
            r == self.shape@.len(),
    {
        self.shape.len()
    }
}

impl Value {
    /// Number of cells along the leading axis: 1 for a scalar.
    pub open spec fn spec_len(self) -> nat {
        match self {
            Value::Array(a) => a.spec_len(),
            _ => 1,
        }
    }

    /// The shape: empty for a scalar.
    pub open spec fn spec_shape(self) -> Seq<usize> {
        match self {
            Value::Array(a) => a.shape@,
            _ => Seq::empty(),
        }
    }

    /// A scalar is always well formed; an array must be.
    pub open spec fn wf(self) -> bool {
        match self {
            Value::Array(a) => a.wf(),
            _ => true,
        }
    }

    pub fn is_array(&self) -> (r: bool)
        ensures
            r == (*self is Array),
    {
        match self {
            Value::Array(_) => true,
            _ => false,
        }
    }

    pub fn len(&self) -> (r: usize)
        ensures
            r == self.spec_len(),
    {
        match self {
            Value::Array(a) => a.len(),
            _ => 1,
        }
    }

    pub fn rank(&self) -> (r: usize)
        ensures
            r == self.spec_shape().len(),
    {
        match self {
            Value::Array(a) => a.rank(),
            _ => 0,
        }
    }

    pub fn shape(&self) -> (r: Vec<usize>)
        ensures
            r@ == self.spec_shape(),
    {
        match self {
            Value::Array(a) => copy_shape(&a.shape),
            _ => Vec::new(),
        }
    }
}

} // verus!
