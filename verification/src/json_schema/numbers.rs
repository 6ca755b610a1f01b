//! JSON numbers, read one byte at a time.

use vstd::prelude::*;

use crate::json_schema::ascii;
use crate::json_schema::ascii::{DIGIT_0, DIGIT_1, DIGIT_9, DOT, LOWER_E, MINUS, PLUS, UPPER_E};
use crate::json_schema::double;
use crate::json_schema::double::Double;
use crate::json_schema::schema::{Schema, SchemaView, Ty};

verus! {

/// Position in the grammar of JSON numbers.
#[derive(Clone, Copy, PartialEq, Eq, Structural, Debug, Hash)]
pub enum NumState {
    /// Read `-`; a digit must follow.
    NegStart,
    Zero,
    Int,
    FracDot,
    Frac,
    ExpChar,
    ExpSign,
    Exp,
}

impl NumState {
    /// A number may end here.
    pub open spec fn may_end(self) -> bool {
        self is Zero || self is Int || self is Frac || self is Exp
    }

    pub fn terminal(self) -> (r: bool)
        ensures
            r == self.may_end(),
    {
        matches!(self, NumState::Zero | NumState::Int | NumState::Frac | NumState::Exp)
    }
}

/// State after the first byte of a number.
pub open spec fn num_first(b: u8) -> Option<NumState> {
    if b == MINUS {
        Some(NumState::NegStart)
    } else if b == DIGIT_0 {
        Some(NumState::Zero)
    } else if DIGIT_1 <= b <= DIGIT_9 {
        Some(NumState::Int)
    } else {
        None
    }
}

pub open spec fn exp_char(b: u8) -> bool {
    b == LOWER_E || b == UPPER_E
}

/// State after one more byte; `None` where the number cannot go on with `b`.
pub open spec fn num_next(st: NumState, b: u8) -> Option<NumState> {
    match st {
        NumState::NegStart => if b == DIGIT_0 {
            Some(NumState::Zero)
        } else if DIGIT_1 <= b <= DIGIT_9 {
            Some(NumState::Int)
        } else {
            None
        },
        NumState::Zero => if b == DOT {
            Some(NumState::FracDot)
        } else if exp_char(b) {
            Some(NumState::ExpChar)
        } else {
            None
        },
        NumState::Int => if ascii::digit(b) {
            Some(NumState::Int)
        } else if b == DOT {
            Some(NumState::FracDot)
        } else if exp_char(b) {
            Some(NumState::ExpChar)
        } else {
            None
        },
        NumState::FracDot => if ascii::digit(b) {
            Some(NumState::Frac)
        } else {
            None
        },
        NumState::Frac => if ascii::digit(b) {
            Some(NumState::Frac)
        } else if exp_char(b) {
            Some(NumState::ExpChar)
        } else {
            None
        },
        NumState::ExpChar => if ascii::digit(b) {
            Some(NumState::Exp)
        } else if b == PLUS || b == MINUS {
            Some(NumState::ExpSign)
        } else {
            None
        },
        NumState::ExpSign => if ascii::digit(b) {
            Some(NumState::Exp)
        } else {
            None
        },
        NumState::Exp => if ascii::digit(b) {
            Some(NumState::Exp)
        } else {
            None
        },
    }
}

/// State after all of `text`; `None` where it does not start a number.
pub open spec fn num_run(text: Seq<u8>) -> Option<NumState>
    decreases text.len(),
{
    if text.len() == 0 {
        None
    } else if text.len() == 1 {
        num_first(text[0])
    } else {
        match num_run(text.drop_last()) {
            Some(st) => num_next(st, text.last()),
            None => None,
        }
    }
}

/// `text` is a JSON number.
pub open spec fn number_text(text: Seq<u8>) -> bool {
    num_run(text) matches Some(st) && st.may_end()
}

/// One or more digits.
pub open spec fn digits(w: Seq<u8>) -> bool {
    w.len() > 0 && forall|i: int| 0 <= i < w.len() ==> ascii::digit(#[trigger] w[i])
}

/// Digits without a leading zero: `0`, or a digit other than `0` and further digits.
pub open spec fn natural_text(w: Seq<u8>) -> bool {
    digits(w) && (w[0] == DIGIT_0 ==> w.len() == 1)
}

/// `-?(0|[1-9][0-9]*)`.
pub open spec fn integer_text(w: Seq<u8>) -> bool {
    natural_text(w) || (w.len() > 0 && w[0] == MINUS && natural_text(w.drop_first()))
}

/// `([.][0-9]+)?`.
pub open spec fn fraction_text(w: Seq<u8>) -> bool {
    w.len() == 0 || (w[0] == DOT && digits(w.drop_first()))
}

/// `[eE][+-]?[0-9]+`, or nothing.
pub open spec fn exponent_text(w: Seq<u8>) -> bool {
    w.len() == 0 || (exp_char(w[0]) && (digits(w.skip(1)) || (w.len() > 1 && (w[1] == PLUS || w[1]
        == MINUS) && digits(w.skip(2)))))
}

/// A JSON number: an integer, and then, where they are there, a fraction and an exponent.
pub open spec fn json_number(w: Seq<u8>) -> bool {
    exists|i: int, j: int|
        0 <= i <= j <= w.len() && integer_text(#[trigger] w.take(i)) && fraction_text(
            w.subrange(i, j),
        ) && exponent_text(#[trigger] w.skip(j))
}

/// Value of decimal digits.
pub open spec fn natural_value(w: Seq<u8>) -> int
    decreases w.len(),
{
    if w.len() == 0 {
        0
    } else {
        10 * natural_value(w.drop_last()) + (w.last() - DIGIT_0)
    }
}

/// Value of an integer in decimal notation.
pub open spec fn integer_value(w: Seq<u8>) -> int {
    if w.len() > 0 && w[0] == MINUS {
        -natural_value(w.drop_first())
    } else {
        natural_value(w)
    }
}

/// One of the listed integers is the number `text`: exactly where it is written as an integer, by
/// its double where it is written otherwise.
pub open spec fn number_listed(list: Seq<i64>, text: Seq<u8>) -> bool {
    if integer_text(text) {
        exists|i: int| 0 <= i < list.len() && (#[trigger] list[i]) == integer_value(text)
    } else {
        double::decimal_value(text) matches Some(v) && int_listed(list, v)
    }
}

/// One of the listed integers is `v`.
pub open spec fn int_listed(list: Seq<i64>, v: Double) -> bool {
    exists|i: int|
        0 <= i < list.len() && (double::int_value(#[trigger] list[i]) matches Some(e) && e.same(v))
}

/// `v` is within the bounds of `s`.
pub open spec fn in_bounds(s: SchemaView, v: Double) -> bool {
    &&& (s.minimum matches Some(m) ==> !v.lt(m))
    &&& (s.excl_min matches Some(m) ==> !v.le(m))
    &&& (s.maximum matches Some(m) ==> !m.lt(v))
    &&& (s.excl_max matches Some(m) ==> !m.le(v))
}

/// The number `text`, which ended in state `st`, meets the schema.
pub open spec fn number_ok(s: SchemaView, text: Seq<u8>, st: NumState) -> bool {
    &&& st.may_end()
    &&& double::decimal_value(text) is Some
    &&& (s.ty is Integer ==> st is Zero || st is Int)
    &&& (s.has_enum ==> number_listed(s.enum_int, text))
    &&& in_bounds(s, double::decimal_value(text)->0)
}

/// State and text after the first byte of a number.
pub fn num_start(b: u8) -> (r: Option<(NumState, Vec<u8>)>)
    ensures
        num_first(b) is None ==> r is None,
        num_first(b) matches Some(st) ==> r is Some && (r->0).0 == st && (r->0).1@ == seq![b],
{
    if b == MINUS {
        Some((NumState::NegStart, vec![b]))
    } else if b == DIGIT_0 {
        Some((NumState::Zero, vec![b]))
    } else if DIGIT_1 <= b && b <= DIGIT_9 {
        Some((NumState::Int, vec![b]))
    } else {
        None
    }
}

fn is_exp(b: u8) -> (r: bool)
    ensures
        r == exp_char(b),
{
    b == LOWER_E || b == UPPER_E
}

/// State after one more byte of a number.
pub fn num_advance(st: NumState, b: u8) -> (r: Option<NumState>)
    ensures
        r == num_next(st, b),
{
    let digit = ascii::is_digit(b);
    let exp = is_exp(b);
    match st {
        NumState::NegStart => if b == DIGIT_0 {
            Some(NumState::Zero)
        } else if digit {
            Some(NumState::Int)
        } else {
            None
        },
        NumState::Zero => if b == DOT {
            Some(NumState::FracDot)
        } else if exp {
            Some(NumState::ExpChar)
        } else {
            None
        },
        NumState::Int => if digit {
            Some(NumState::Int)
        } else if b == DOT {
            Some(NumState::FracDot)
        } else if exp {
            Some(NumState::ExpChar)
        } else {
            None
        },
        NumState::FracDot => if digit {
            Some(NumState::Frac)
        } else {
            None
        },
        NumState::Frac => if digit {
            Some(NumState::Frac)
        } else if exp {
            Some(NumState::ExpChar)
        } else {
            None
        },
        NumState::ExpChar => if digit {
            Some(NumState::Exp)
        } else if b == PLUS || b == MINUS {
            Some(NumState::ExpSign)
        } else {
            None
        },
        NumState::ExpSign | NumState::Exp => if digit {
            Some(NumState::Exp)
        } else {
            None
        },
    }
}

fn listed(list: &Vec<i64>, v: Double) -> (r: bool)
    ensures
        r == int_listed(list@, v),
{
    let mut i: usize = 0;
    while i < list.len()
        invariant
            i <= list.len(),
            forall|k: int|
                0 <= k < i ==> !(double::int_value(#[trigger] list@[k]) matches Some(e) && e.same(
                    v,
                )),
        decreases list.len() - i,
    {
        if let Some(e) = double::int_double(list[i]) {
            if e.equals(v) {
                return true;
            }
        }
        i += 1;
    }
    false
}

fn is_natural(w: &Vec<u8>, from: usize) -> (r: bool)
    requires
        from <= w@.len(),
    ensures
        r == natural_text(w@.skip(from as int)),
{
    let ghost part = w@.skip(from as int);
    if from == w.len() {
        return false;
    }
    let mut i: usize = from;
    while i < w.len()
        invariant
            from <= i <= w@.len(),
            part == w@.skip(from as int),
            forall|k: int| 0 <= k < i - from ==> ascii::digit(#[trigger] part[k]),
        decreases w@.len() - i,
    {
        assert(part[i - from] == w@[i as int]);
        if !ascii::is_digit(w[i]) {
            return false;
        }
        i += 1;
    }
    assert(part[0] == w@[from as int]);
    w[from] != DIGIT_0 || w.len() - from == 1
}

fn is_integer(w: &Vec<u8>) -> (r: bool)
    ensures
        r == integer_text(w@),
{
    assert(w@.skip(0) =~= w@);
    if w.len() == 0 {
        return false;
    }
    assert(w@.skip(1) =~= w@.drop_first());
    is_natural(w, 0) || (w[0] == MINUS && is_natural(w, 1))
}

/// Largest magnitude of a listed integer.
const MAGNITUDE: u64 = 0x8000_0000_0000_0000;

/// The value of the digits from `from` on, as far as it is at most `MAGNITUDE`.
fn read_natural(w: &Vec<u8>, from: usize) -> (r: Option<u64>)
    requires
        from <= w@.len(),
        digits(w@.skip(from as int)),
    ensures
        match r {
            Some(v) => v == natural_value(w@.skip(from as int)) && v <= MAGNITUDE,
            None => natural_value(w@.skip(from as int)) > MAGNITUDE,
        },
{
    let ghost part = w@.skip(from as int);
    let mut v: u64 = 0;
    let mut over = false;
    let mut i: usize = from;
    assert(part.take(0).len() == 0);
    while i < w.len()
        invariant
            from <= i <= w@.len(),
            part == w@.skip(from as int),
            digits(part),
            v <= MAGNITUDE,
            over ==> natural_value(part.take(i - from)) > MAGNITUDE,
            !over ==> natural_value(part.take(i - from)) == v,
        decreases w@.len() - i,
    {
        let ghost next = part.take(i - from + 1);
        assert(next.drop_last() =~= part.take(i - from));
        assert(next.last() == part[i - from]);
        assert(part[i - from] == w@[i as int]);
        let d: u64 = (w[i] - DIGIT_0) as u64;
        if !over {
            if v > (MAGNITUDE - d) / 10 {
                over = true;
                assert(10 * v + d > MAGNITUDE);
            } else {
                v = 10 * v + d;
            }
        }
        i += 1;
    }
    assert(part.take(w@.len() - from) =~= part);
    if over {
        None
    } else {
        Some(v)
    }
}

/// The value of an integer in decimal notation, where it is one that can be listed.
fn read_integer(w: &Vec<u8>) -> (r: Option<i64>)
    requires
        integer_text(w@),
    ensures
        match r {
            Some(v) => v == integer_value(w@),
            None => integer_value(w@) > i64::MAX || integer_value(w@) < i64::MIN,
        },
{
    assert(w@.skip(0) =~= w@);
    assert(w@.skip(1) =~= w@.drop_first());
    if w[0] == MINUS {
        match read_natural(w, 1) {
            None => None,
            Some(v) => if v == MAGNITUDE {
                Some(i64::MIN)
            } else {
                Some(-(v as i64))
            },
        }
    } else {
        match read_natural(w, 0) {
            None => None,
            Some(v) => if v == MAGNITUDE {
                None
            } else {
                Some(v as i64)
            },
        }
    }
}

fn holds_integer(list: &Vec<i64>, v: i64) -> (r: bool)
    ensures
        r == exists|i: int| 0 <= i < list@.len() && (#[trigger] list@[i]) == v,
{
    let mut i: usize = 0;
    while i < list.len()
        invariant
            i <= list@.len(),
            forall|k: int| 0 <= k < i ==> (#[trigger] list@[k]) != v,
        decreases list@.len() - i,
    {
        if list[i] == v {
            return true;
        }
        i += 1;
    }
    false
}

/// True when the number `buf`, whose double is `v`, is one of the listed integers.
fn is_listed(list: &Vec<i64>, buf: &Vec<u8>, v: Double) -> (r: bool)
    requires
        double::decimal_value(buf@) == Some(v),
    ensures
        r == number_listed(list@, buf@),
{
    if is_integer(buf) {
        match read_integer(buf) {
            Some(n) => holds_integer(list, n),
            None => false,
        }
    } else {
        listed(list, v)
    }
}

/// True when the number `buf`, which ended in state `st`, meets the schema `s`.
pub fn num_ok(s: &Schema, buf: &Vec<u8>, st: NumState) -> (r: bool)
    ensures
        r == number_ok(s@, buf@, st),
{
    if !st.terminal() {
        return false;
    }
    let v = match double::parse_decimal(buf) {
        Some(v) => v,
        None => return false,
    };
    if s.ty == Ty::Integer && !matches!(st, NumState::Zero | NumState::Int) {
        return false;
    }
    if s.has_enum && !is_listed(&s.enum_int, buf, v) {
        return false;
    }
    if let Some(m) = s.minimum {
        if v.less(m) {
            return false;
        }
    }
    if let Some(m) = s.excl_min {
        if v.at_most(m) {
            return false;
        }
    }
    if let Some(m) = s.maximum {
        if m.less(v) {
            return false;
        }
    }
    if let Some(m) = s.excl_max {
        if m.at_most(v) {
            return false;
        }
    }
    true
}

} // verus!
