//! The texts that the reader of numbers takes are those of the JSON number grammar.

use vstd::prelude::*;

use crate::json_schema::ascii;
use crate::json_schema::ascii::{DIGIT_0, DOT, MINUS, PLUS};
use crate::json_schema::numbers;
use crate::json_schema::numbers::NumState;
use crate::text;

verus! {

/// A number without an exponent.
pub open spec fn mantissa(w: Seq<u8>) -> bool {
    exists|i: int|
        0 <= i <= w.len() && numbers::integer_text(#[trigger] w.take(i)) && numbers::fraction_text(
            w.skip(i),
        )
}

/// `0` or `-0`.
spec fn zero_text(w: Seq<u8>) -> bool {
    w.len() > 0 && w.last() == DIGIT_0 && (w.len() == 1 || (w.len() == 2 && w[0] == MINUS))
}

spec fn fraction_from(w: Seq<u8>, i: int) -> bool {
    0 <= i < w.len() && numbers::integer_text(w.take(i)) && numbers::fraction_text(w.skip(i))
}

spec fn exponent_from(w: Seq<u8>, j: int) -> bool {
    0 <= j < w.len() && mantissa(w.take(j)) && numbers::exponent_text(w.skip(j))
}

/// The texts that lead to a state.
spec fn leads(w: Seq<u8>, st: NumState) -> bool {
    w.len() > 0 && match st {
        NumState::NegStart => w.len() == 1 && w[0] == MINUS,
        NumState::Zero => numbers::integer_text(w) && zero_text(w),
        NumState::Int => numbers::integer_text(w) && !zero_text(w),
        NumState::FracDot => w.last() == DOT && numbers::integer_text(w.drop_last()),
        NumState::Frac => exists|i: int| fraction_from(w, i),
        NumState::ExpChar => numbers::exp_char(w.last()) && mantissa(w.drop_last()),
        NumState::ExpSign => w.len() > 1 && (w.last() == PLUS || w.last() == MINUS)
            && numbers::exp_char(w[w.len() - 2]) && mantissa(w.drop_last().drop_last()),
        NumState::Exp => exists|j: int| exponent_from(w, j),
    }
}

/// Digits go on with a digit.
proof fn lemma_more_digits(w: Seq<u8>, b: u8)
    requires
        w.len() == 0 || numbers::digits(w),
        ascii::digit(b),
    ensures
        numbers::digits(w.push(b)),
{
}

/// An integer goes on with a digit, unless it is zero.
proof fn lemma_more_integer(w: Seq<u8>, b: u8)
    requires
        numbers::integer_text(w),
        !zero_text(w),
        ascii::digit(b),
    ensures
        numbers::integer_text(w.push(b)),
        !zero_text(w.push(b)),
{
    let v = w.push(b);
    if numbers::natural_text(w) {
        lemma_more_digits(w, b);
        assert(v[0] == w[0]);
        assert(numbers::natural_text(v));
    } else {
        lemma_more_digits(w.drop_first(), b);
        assert(v.drop_first() =~= w.drop_first().push(b));
        assert(v.drop_first()[0] == w[1]);
        assert(numbers::natural_text(v.drop_first()));
    }
}

proof fn lemma_integer_is_mantissa(w: Seq<u8>)
    requires
        numbers::integer_text(w),
    ensures
        mantissa(w),
{
    assert(w.take(w.len() as int) =~= w);
    assert(w.skip(w.len() as int).len() == 0);
}

/// What was read leads to the state that it was read to.
proof fn lemma_read(w: Seq<u8>, st: NumState)
    requires
        numbers::num_run(w) == Some(st),
    ensures
        leads(w, st),
    decreases w.len(),
{
    if w.len() == 1 {
        assert(numbers::natural_text(w) || w[0] == MINUS);
    } else {
        let v = w.drop_last();
        let b = w.last();
        let from = numbers::num_run(v)->0;
        lemma_read(v, from);
        assert(w =~= v.push(b));
        match from {
            NumState::NegStart => {
                assert(w.drop_first() =~= seq![b]);
                assert(numbers::natural_text(w.drop_first()));
                assert(w[0] == MINUS);
            },
            NumState::Zero => {
                lemma_integer_is_mantissa(v);
            },
            NumState::Int => {
                lemma_integer_is_mantissa(v);
                if ascii::digit(b) {
                    lemma_more_integer(v, b);
                }
            },
            NumState::FracDot => {
                let i = v.len() - 1;
                assert(w.take(i) =~= v.drop_last());
                assert(w.skip(i) =~= seq![DOT, b]);
                assert(w.skip(i).drop_first() =~= seq![b]);
                assert(fraction_from(w, i));
            },
            NumState::Frac => {
                let i = choose|i: int| fraction_from(v, i);
                if ascii::digit(b) {
                    assert(w.take(i) =~= v.take(i));
                    assert(w.skip(i) =~= v.skip(i).push(b));
                    assert(w.skip(i).drop_first() =~= v.skip(i).drop_first().push(b));
                    lemma_more_digits(v.skip(i).drop_first(), b);
                    assert(fraction_from(w, i));
                } else {
                    assert(numbers::integer_text(v.take(i)));
                    assert(mantissa(v));
                }
            },
            NumState::ExpChar => {
                if ascii::digit(b) {
                    let j = v.len() - 1;
                    assert(w.take(j) =~= v.drop_last());
                    assert(w.skip(j) =~= seq![v.last(), b]);
                    assert(w.skip(j).skip(1) =~= seq![b]);
                    assert(exponent_from(w, j));
                } else {
                    assert(w[w.len() - 2] == v.last());
                }
            },
            NumState::ExpSign => {
                let j = v.len() - 2;
                assert(w.take(j) =~= v.drop_last().drop_last());
                assert(w.skip(j) =~= seq![v[v.len() - 2], v.last(), b]);
                assert(w.skip(j).skip(2) =~= seq![b]);
                assert(exponent_from(w, j));
            },
            NumState::Exp => {
                let j = choose|j: int| exponent_from(v, j);
                let e = v.skip(j);
                assert(w.take(j) =~= v.take(j));
                assert(w.skip(j) =~= e.push(b));
                if numbers::digits(e.skip(1)) {
                    assert(e.push(b).skip(1) =~= e.skip(1).push(b));
                    lemma_more_digits(e.skip(1), b);
                } else {
                    assert(e.push(b).skip(2) =~= e.skip(2).push(b));
                    lemma_more_digits(e.skip(2), b);
                    assert(e.push(b)[1] == e[1]);
                }
                assert(exponent_from(w, j));
            },
        }
    }
}

/// An integer is read to its end.
proof fn lemma_reads_integer(w: Seq<u8>)
    requires
        numbers::integer_text(w),
    ensures
        numbers::num_run(w) == Some(
            if zero_text(w) {
                NumState::Zero
            } else {
                NumState::Int
            },
        ),
    decreases w.len(),
{
    reveal_with_fuel(numbers::num_run, 3);
    if w.len() == 1 {
        if w[0] == MINUS {
            assert(w.drop_first().len() == 0);
        }
        assert(ascii::digit(w[0]));
    } else if w[0] == MINUS && w.len() == 2 {
        assert(w.drop_first()[0] == w[1]);
        assert(ascii::digit(w.drop_first()[0]));
        assert(w.drop_last()[0] == MINUS);
    } else {
        let v = w.drop_last();
        if w[0] == MINUS {
            let d = w.drop_first();
            assert(numbers::natural_text(d)) by {
                assert(!ascii::digit(MINUS));
                if numbers::natural_text(w) {
                    assert(ascii::digit(w[0]));
                }
            }
            assert(v.drop_first() =~= d.drop_last());
            assert forall|i: int| 0 <= i < d.drop_last().len() implies ascii::digit(
                #[trigger] d.drop_last()[i],
            ) by {
                assert(d.drop_last()[i] == d[i]);
            }
            assert(d.drop_last()[0] == d[0]);
            assert(numbers::natural_text(v.drop_first()));
            assert(d[d.len() - 1] == w.last());
            assert(d[0] == w[1]);
            assert(v[0] == MINUS);
            assert(v.last() == w[w.len() - 2]);
            if v.len() == 2 {
                assert(v.last() == d[0]);
            }
        } else {
            assert(numbers::natural_text(w));
            assert forall|i: int| 0 <= i < v.len() implies ascii::digit(#[trigger] v[i]) by {
                assert(v[i] == w[i]);
            }
            assert(v[0] == w[0]);
            assert(numbers::natural_text(v));
            assert(ascii::digit(w[w.len() - 1]));
        }
        assert(ascii::digit(w.last()));
        assert(!zero_text(v));
        assert(!zero_text(w));
        lemma_reads_integer(v);
    }
}

/// Digits that go on from a state that digits stay in.
proof fn lemma_reads_digits(a: Seq<u8>, d: Seq<u8>, from: NumState, to: NumState)
    requires
        numbers::num_run(a) == Some(from),
        numbers::digits(d),
        (to is Frac && from is FracDot) || (to is Exp && (from is ExpChar || from is ExpSign)),
    ensures
        numbers::num_run(a + d) == Some(to),
    decreases d.len(),
{
    let w = a + d;
    assert(a.len() > 0);
    assert(w.drop_last() =~= a + d.drop_last());
    assert(w.last() == d.last());
    assert(ascii::digit(d[d.len() - 1]));
    if d.len() == 1 {
        assert(a + d.drop_last() =~= a);
    } else {
        assert forall|i: int| 0 <= i < d.drop_last().len() implies ascii::digit(
            #[trigger] d.drop_last()[i],
        ) by {
            assert(d.drop_last()[i] == d[i]);
        }
        lemma_reads_digits(a, d.drop_last(), from, to);
    }
}

/// One more byte.
proof fn lemma_reads_byte(a: Seq<u8>, b: u8, st: NumState)
    requires
        numbers::num_run(a) == Some(st),
    ensures
        numbers::num_run(a.push(b)) == numbers::num_next(st, b),
{
    assert(a.len() > 0);
    assert(a.push(b).drop_last() =~= a);
}

proof fn lemma_reads_mantissa(w: Seq<u8>)
    requires
        mantissa(w),
    ensures
        numbers::num_run(w) matches Some(st) && (st is Zero || st is Int || st is Frac),
{
    let i = choose|i: int|
        0 <= i <= w.len() && numbers::integer_text(#[trigger] w.take(i)) && numbers::fraction_text(
            w.skip(i),
        );
    let a = w.take(i);
    let f = w.skip(i);
    lemma_reads_integer(a);
    if f.len() == 0 {
        assert(a =~= w);
    } else {
        lemma_reads_byte(a, DOT, numbers::num_run(a)->0);
        lemma_reads_digits(a.push(DOT), f.drop_first(), NumState::FracDot, NumState::Frac);
        assert(a.push(DOT) + f.drop_first() =~= w) by {
            assert(w =~= a + f);
            assert(f =~= seq![f[0]] + f.drop_first());
        }
    }
}

/// A JSON number is a mantissa and an exponent.
proof fn lemma_two_parts(w: Seq<u8>, j: int)
    requires
        0 <= j <= w.len(),
        mantissa(w.take(j)),
        numbers::exponent_text(w.skip(j)),
    ensures
        numbers::json_number(w),
{
    let m = w.take(j);
    let i = choose|i: int|
        0 <= i <= m.len() && numbers::integer_text(#[trigger] m.take(i)) && numbers::fraction_text(
            m.skip(i),
        );
    assert(m.take(i) =~= w.take(i));
    assert(m.skip(i) =~= w.subrange(i, j));
    assert(numbers::integer_text(w.take(i)) && numbers::exponent_text(w.skip(j)));
}

/// The reader takes a text and may end behind it exactly where the text is a JSON number:
/// `-?(0|[1-9][0-9]*)([.][0-9]+)?([eE][+-]?[0-9]+)?`.
pub proof fn law_the_reader_takes_exactly_the_numbers(w: Seq<u8>)
    ensures
        numbers::number_text(w) == numbers::json_number(w),
{
    if numbers::number_text(w) {
        let st = numbers::num_run(w)->0;
        lemma_read(w, st);
        match st {
            NumState::Exp => {
                let j = choose|j: int| exponent_from(w, j);
                lemma_two_parts(w, j);
            },
            _ => {
                if st is Frac {
                    let i = choose|i: int| fraction_from(w, i);
                    assert(numbers::integer_text(w.take(i)));
                    assert(mantissa(w));
                } else {
                    lemma_integer_is_mantissa(w);
                }
                assert(w.take(w.len() as int) =~= w);
                lemma_two_parts(w, w.len() as int);
            },
        }
    }
    if numbers::json_number(w) {
        let (i, j) = choose|i: int, j: int|
            0 <= i <= j <= w.len() && numbers::integer_text(#[trigger] w.take(i))
                && numbers::fraction_text(w.subrange(i, j)) && numbers::exponent_text(
                #[trigger] w.skip(j),
            );
        let m = w.take(j);
        let e = w.skip(j);
        assert(m.take(i) =~= w.take(i));
        assert(m.skip(i) =~= w.subrange(i, j));
        assert(numbers::integer_text(m.take(i)));
        assert(mantissa(m));
        lemma_reads_mantissa(m);
        if e.len() == 0 {
            assert(m =~= w);
        } else {
            lemma_reads_byte(m, e[0], numbers::num_run(m)->0);
            let a = m.push(e[0]);
            assert(w =~= m + e);
            if numbers::digits(e.skip(1)) {
                lemma_reads_digits(a, e.skip(1), NumState::ExpChar, NumState::Exp);
                assert(a + e.skip(1) =~= w);
            } else {
                lemma_reads_byte(a, e[1], NumState::ExpChar);
                let c = a.push(e[1]);
                lemma_reads_digits(c, e.skip(2), NumState::ExpSign, NumState::Exp);
                assert(c + e.skip(2) =~= w);
            }
        }
    }
}

/// The reader ends in the states of an integer exactly behind an integer.
pub proof fn law_integers_end_in_their_states(w: Seq<u8>)
    ensures
        numbers::integer_text(w) == (numbers::num_run(w) matches Some(st) && (st is Zero
            || st is Int)),
{
    if numbers::integer_text(w) {
        lemma_reads_integer(w);
    }
    match numbers::num_run(w) {
        Some(st) => {
            lemma_read(w, st);
        },
        None => {},
    }
}


/// Digits as characters.
pub open spec fn as_chars(w: Seq<u8>) -> Seq<char> {
    w.map_values(|b: u8| b as char)
}

/// A number in decimal notation has the value of its digits, and its negative where a minus stands
/// before them.
pub proof fn law_integers_have_the_values_of_their_digits(w: Seq<u8>)
    requires
        numbers::digits(w),
    ensures
        numbers::integer_value(w) == text::number_of(as_chars(w)),
        numbers::integer_value(seq![0x2Du8] + w) == -text::number_of(as_chars(w)),
{
    lemma_natural_value(w);
    assert(ascii::digit(w[0]));
    assert((seq![0x2Du8] + w).drop_first() =~= w);
}

proof fn lemma_natural_value(w: Seq<u8>)
    requires
        forall|i: int| 0 <= i < w.len() ==> ascii::digit(#[trigger] w[i]),
    ensures
        numbers::natural_value(w) == text::number_of(as_chars(w)),
    decreases w.len(),
{
    if w.len() > 0 {
        let rest = w.drop_last();
        assert forall|i: int| 0 <= i < rest.len() implies ascii::digit(#[trigger] rest[i]) by {
            assert(rest[i] == w[i]);
        }
        lemma_natural_value(rest);
        assert(as_chars(w).drop_last() =~= as_chars(rest));
        assert(ascii::digit(w[w.len() - 1]));
    }
}

} // verus!
