//! The texts that the reader of strings takes, by the characters that they spell.

use vstd::prelude::*;
use vstd::utf8::*;

use crate::json_schema::ascii::{BACKSLASH, LOWER_U, QUOTE};
use crate::json_schema::strings;
use crate::json_schema::strings::{Esc, StrStep, StrView};
use crate::json_schema::utf8;
use crate::json_schema::utf8::Utf8;

verus! {

/// State after the string content `body`; `None` where it is not content.
pub open spec fn str_run(st: StrView, body: Seq<u8>, keep: bool) -> Option<StrView>
    decreases body.len(),
{
    if body.len() == 0 {
        Some(st)
    } else {
        match strings::str_step(st, body[0], keep) {
            StrStep::Open(next) => str_run(next, body.drop_first(), keep),
            _ => None,
        }
    }
}

/// The code unit of `\uXXXX`.
pub open spec fn code_unit(u: Seq<u8>) -> Option<u32> {
    if u.len() == 6 && u[0] == BACKSLASH && u[1] == LOWER_U {
        match (
            strings::hex_digit(u[2]),
            strings::hex_digit(u[3]),
            strings::hex_digit(u[4]),
            strings::hex_digit(u[5]),
        ) {
            (Some(a), Some(b), Some(c), Some(d)) => Some(
                (((a * 16 + b) * 16 + c) * 16 + d) as u32,
            ),
            _ => None,
        }
    } else {
        None
    }
}

/// A character as it is: neither a quote, a backslash nor a control character.
pub open spec fn plain_char(c: char) -> bool {
    c as u32 >= 0x20 && c as u32 != QUOTE && c as u32 != BACKSLASH
}

/// `u` spells the character `c`: as it is, by a letter behind a backslash, by its code unit, or by
/// its two surrogates.
pub open spec fn spells_char(u: Seq<u8>, c: char) -> bool {
    ||| plain_char(c) && u == encode_scalar(c as u32)
    ||| u.len() == 2 && u[0] == BACKSLASH && strings::short_escape(u[1]) == Some(c as u32)
    ||| code_unit(u) == Some(c as u32)
    ||| u.len() == 12 && (code_unit(u.take(6)) matches Some(hi) && strings::high_surrogate(hi) && (
    code_unit(u.skip(6)) matches Some(lo) && strings::low_surrogate(lo) && c as u32
        == strings::surrogate_pair(hi, lo)))
}

/// `body` spells the characters `cs`, one behind the other.
pub open spec fn spells(body: Seq<u8>, cs: Seq<char>) -> bool
    decreases cs.len(),
{
    if cs.len() == 0 {
        body.len() == 0
    } else {
        exists|k: int|
            #![trigger body.take(k)]
            0 <= k <= body.len() && spells_char(body.take(k), cs[0]) && spells(
                body.skip(k),
                cs.drop_first(),
            )
    }
}

/// Between two characters, behind `n` more of them whose encoding is `enc`.
pub open spec fn grown(st: StrView, n: int, enc: Seq<u8>, keep: bool) -> StrView {
    StrView {
        esc: Esc::Plain,
        dec: if keep {
            st.dec + enc
        } else {
            st.dec
        },
        cp: (st.cp + n) as u32,
        pend: Seq::empty(),
    }
}

/// The next byte of a run.
proof fn lemma_step(st: StrView, body: Seq<u8>, keep: bool)
    requires
        body.len() > 0,
    ensures
        str_run(st, body, keep) == match strings::str_step(st, body[0], keep) {
            StrStep::Open(next) => str_run(next, body.drop_first(), keep),
            _ => None,
        },
{
}

proof fn lemma_run_append(st: StrView, a: Seq<u8>, b: Seq<u8>, keep: bool)
    ensures
        str_run(st, a + b, keep) == match str_run(st, a, keep) {
            Some(next) => str_run(next, b, keep),
            None => None,
        },
    decreases a.len(),
{
    if a.len() == 0 {
        assert(a + b =~= b);
    } else {
        assert((a + b)[0] == a[0]);
        assert((a + b).drop_first() =~= a.drop_first() + b);
        match strings::str_step(st, a[0], keep) {
            StrStep::Open(next) => {
                lemma_run_append(next, a.drop_first(), b, keep);
            },
            _ => {},
        }
    }
}

/// A character as it is, from its byte `n` on.
proof fn lemma_reads_plain(st: StrView, c: char, n: int, keep: bool)
    requires
        plain_char(c),
        st.esc == Esc::Plain,
        0 <= n < encode_scalar(c as u32).len(),
        st.pend == encode_scalar(c as u32).take(n),
    ensures
        str_run(st, encode_scalar(c as u32).skip(n), keep) == if st.cp == u32::MAX {
            None
        } else {
            Some(grown(st, 1, encode_scalar(c as u32), keep))
        },
    decreases encode_scalar(c as u32).len() - n,
{
    char_is_scalar(c);
    let e = encode_scalar(c as u32);
    let body = e.skip(n);
    let b = body[0];
    utf8::lemma_encoding_states(c as u32, n + 1);
    assert(b == e[n]);
    assert(st.pend.push(b) =~= e.take(n + 1));
    assert(b != QUOTE && b != BACKSLASH && b >= 0x20);
    lemma_step(st, body, keep);
    if n + 1 == e.len() {
        assert(e.take(n + 1) =~= e);
        assert(body.drop_first().len() == 0);
        if st.cp < u32::MAX {
            let next = strings::str_step(st, b, keep)->Open_0;
            assert(next =~= grown(st, 1, e, keep));
        }
    } else {
        let next = StrView { pend: e.take(n + 1), ..st };
        assert(strings::str_step(st, b, keep) == StrStep::Open(next));
        assert(body.drop_first() =~= e.skip(n + 1));
        lemma_reads_plain(next, c, n + 1, keep);
        assert(grown(next, 1, e, keep) =~= grown(st, 1, e, keep));
    }
}

/// Four hex digits behind `\u`.
proof fn lemma_reads_unit(st: StrView, u: Seq<u8>, keep: bool)
    requires
        st.esc == Esc::Plain,
        st.pend.len() == 0,
        code_unit(u) is Some,
    ensures
        !strings::high_surrogate(code_unit(u)->0) ==> str_run(st, u, keep) == match strings::escaped(
            st,
            code_unit(u)->0,
            keep,
        ) {
            StrStep::Open(next) => Some(next),
            _ => None,
        },
        strings::high_surrogate(code_unit(u)->0) ==> str_run(st, u, keep) == Some(
            StrView { esc: Esc::WantLowBslash { hi: code_unit(u)->0 }, ..st },
        ),
{
    let d1 = u.drop_first();
    let d2 = d1.drop_first();
    let d3 = d2.drop_first();
    let d4 = d3.drop_first();
    let d5 = d4.drop_first();
    assert(d1[0] == u[1] && d2[0] == u[2] && d3[0] == u[3] && d4[0] == u[4] && d5[0] == u[5]);
    assert(d5.drop_first().len() == 0);
    let h1 = strings::hex_digit(u[2])->0 as u32;
    let h2 = (h1 * 16 + strings::hex_digit(u[3])->0) as u32;
    let h3 = (h2 * 16 + strings::hex_digit(u[4])->0) as u32;
    let h4 = (h3 * 16 + strings::hex_digit(u[5])->0) as u32;
    assert(h4 == code_unit(u)->0);
    let s1 = StrView { esc: Esc::Bslash, ..st };
    let s2 = StrView { esc: Esc::Hex { n: 0, acc: 0 }, ..st };
    let s3 = StrView { esc: Esc::Hex { n: 1, acc: h1 }, ..st };
    let s4 = StrView { esc: Esc::Hex { n: 2, acc: h2 }, ..st };
    let s5 = StrView { esc: Esc::Hex { n: 3, acc: h3 }, ..st };
    assert(strings::str_step(st, u[0], keep) == StrStep::Open(s1));
    assert(strings::str_step(s1, u[1], keep) == StrStep::Open(s2));
    assert(strings::str_step(s2, u[2], keep) == StrStep::Open(s3));
    assert(strings::str_step(s3, u[3], keep) == StrStep::Open(s4));
    assert(strings::str_step(s4, u[4], keep) == StrStep::Open(s5));
    lemma_step(st, u, keep);
    lemma_step(s1, d1, keep);
    lemma_step(s2, d2, keep);
    lemma_step(s3, d3, keep);
    lemma_step(s4, d4, keep);
    lemma_step(s5, d5, keep);
    let last = strings::str_step(s5, u[5], keep);
    if strings::high_surrogate(h4) {
        assert(last == StrStep::Open(StrView { esc: Esc::WantLowBslash { hi: h4 }, ..st }));
    } else {
        assert(strings::escaped(s5, h4, keep) == strings::escaped(st, h4, keep));
    }
    match last {
        StrStep::Open(next) => {
            assert(str_run(next, d5.drop_first(), keep) == Some(next));
        },
        _ => {},
    }
}

/// The low half of a pair.
proof fn lemma_reads_low(st: StrView, hi: u32, u: Seq<u8>, keep: bool)
    requires
        st.esc == (Esc::WantLowBslash { hi }),
        st.pend.len() == 0,
        code_unit(u) is Some,
    ensures
        str_run(st, u, keep) == if strings::low_surrogate(code_unit(u)->0) {
            match strings::escaped(st, strings::surrogate_pair(hi, code_unit(u)->0), keep) {
                StrStep::Open(next) => Some(next),
                _ => None,
            }
        } else {
            None
        },
{
    let d1 = u.drop_first();
    let d2 = d1.drop_first();
    let d3 = d2.drop_first();
    let d4 = d3.drop_first();
    let d5 = d4.drop_first();
    assert(d1[0] == u[1] && d2[0] == u[2] && d3[0] == u[3] && d4[0] == u[4] && d5[0] == u[5]);
    assert(d5.drop_first().len() == 0);
    let h1 = strings::hex_digit(u[2])->0 as u32;
    let h2 = (h1 * 16 + strings::hex_digit(u[3])->0) as u32;
    let h3 = (h2 * 16 + strings::hex_digit(u[4])->0) as u32;
    let h4 = (h3 * 16 + strings::hex_digit(u[5])->0) as u32;
    let s1 = StrView { esc: Esc::WantLowU { hi }, ..st };
    let s2 = StrView { esc: Esc::LowHex { n: 0, acc: 0, hi }, ..st };
    let s3 = StrView { esc: Esc::LowHex { n: 1, acc: h1, hi }, ..st };
    let s4 = StrView { esc: Esc::LowHex { n: 2, acc: h2, hi }, ..st };
    let s5 = StrView { esc: Esc::LowHex { n: 3, acc: h3, hi }, ..st };
    assert(strings::str_step(st, u[0], keep) == StrStep::Open(s1));
    assert(strings::str_step(s1, u[1], keep) == StrStep::Open(s2));
    assert(strings::str_step(s2, u[2], keep) == StrStep::Open(s3));
    assert(strings::str_step(s3, u[3], keep) == StrStep::Open(s4));
    assert(strings::str_step(s4, u[4], keep) == StrStep::Open(s5));
    lemma_step(st, u, keep);
    lemma_step(s1, d1, keep);
    lemma_step(s2, d2, keep);
    lemma_step(s3, d3, keep);
    lemma_step(s4, d4, keep);
    lemma_step(s5, d5, keep);
    let last = strings::str_step(s5, u[5], keep);
    if strings::low_surrogate(h4) {
        let c = strings::surrogate_pair(hi, h4);
        assert(strings::escaped(s5, c, keep) == strings::escaped(st, c, keep));
    }
    match last {
        StrStep::Open(next) => {
            assert(str_run(next, d5.drop_first(), keep) == Some(next));
        },
        _ => {},
    }
}

/// One character is read to its end.
proof fn lemma_reads_char(st: StrView, u: Seq<u8>, c: char, keep: bool)
    requires
        st.closed_interior(),
        spells_char(u, c),
    ensures
        u.len() > 0,
        str_run(st, u, keep) == if st.cp == u32::MAX {
            None
        } else {
            Some(grown(st, 1, encode_scalar(c as u32), keep))
        },
{
    char_is_scalar(c);
    let e = encode_scalar(c as u32);
    utf8::lemma_encoding_states(c as u32, 1);
    if plain_char(c) && u == e {
        assert(st.pend =~= e.take(0));
        assert(e.skip(0) =~= e);
        lemma_reads_plain(st, c, 0, keep);
    } else {
        match strings::escaped(st, c as u32, keep) {
            StrStep::Open(next) => {
                assert(next =~= grown(st, 1, e, keep));
            },
            _ => {},
        }
        if u.len() == 2 && u[0] == BACKSLASH && strings::short_escape(u[1]) == Some(c as u32) {
            let s1 = StrView { esc: Esc::Bslash, ..st };
            lemma_step(st, u, keep);
            lemma_step(s1, u.drop_first(), keep);
            assert(strings::str_step(st, u[0], keep) == StrStep::Open(s1));
            assert(u.drop_first()[0] == u[1]);
            assert(u.drop_first().drop_first().len() == 0);
            assert(strings::escaped(s1, c as u32, keep) == strings::escaped(st, c as u32, keep));
            match strings::str_step(s1, u[1], keep) {
                StrStep::Open(next) => {
                    assert(str_run(next, u.drop_first().drop_first(), keep) == Some(next));
                },
                _ => {},
            }
        } else if code_unit(u) == Some(c as u32) {
            lemma_reads_unit(st, u, keep);
        } else {
            let hi = code_unit(u.take(6))->0;
            lemma_reads_unit(st, u.take(6), keep);
            let mid = StrView { esc: Esc::WantLowBslash { hi }, ..st };
            lemma_reads_low(mid, hi, u.skip(6), keep);
            lemma_run_append(st, u.take(6), u.skip(6), keep);
            assert(u.take(6) + u.skip(6) =~= u);
            assert(strings::escaped(mid, c as u32, keep) == strings::escaped(st, c as u32, keep));
        }
    }
}

/// One character and then more of them are all of them.
proof fn lemma_grown_twice(st: StrView, cs: Seq<char>, keep: bool)
    requires
        cs.len() > 0,
        st.cp + cs.len() <= u32::MAX,
    ensures
        grown(
            grown(st, 1, encode_scalar(cs[0] as u32), keep),
            cs.len() - 1,
            encode_utf8(cs.drop_first()),
            keep,
        ) == grown(st, cs.len() as int, encode_utf8(cs), keep),
{
    let e = encode_scalar(cs[0] as u32);
    let rest = encode_utf8(cs.drop_first());
    assert(st.dec + e + rest =~= st.dec + (e + rest));
}

/// What spells characters is read to its end, as far as they can be counted.
#[verifier::spinoff_prover]
#[verifier::rlimit(40)]
proof fn lemma_reads_spelled(st: StrView, body: Seq<u8>, cs: Seq<char>, keep: bool)
    requires
        st.closed_interior(),
        spells(body, cs),
    ensures
        str_run(st, body, keep) == if st.cp + cs.len() > u32::MAX {
            None
        } else {
            Some(grown(st, cs.len() as int, encode_utf8(cs), keep))
        },
    decreases cs.len(),
{
    if cs.len() == 0 {
        assert(encode_utf8(cs) =~= Seq::empty());
        assert(st =~= grown(st, 0, encode_utf8(cs), keep));
    } else {
        let k = choose|k: int|
            #![trigger body.take(k)]
            0 <= k <= body.len() && spells_char(body.take(k), cs[0]) && spells(
                body.skip(k),
                cs.drop_first(),
            );
        let e = encode_scalar(cs[0] as u32);
        lemma_reads_char(st, body.take(k), cs[0], keep);
        lemma_run_append(st, body.take(k), body.skip(k), keep);
        assert(body.take(k) + body.skip(k) =~= body);
        if st.cp < u32::MAX {
            let next = grown(st, 1, e, keep);
            lemma_reads_spelled(next, body.skip(k), cs.drop_first(), keep);
            if st.cp + cs.len() <= u32::MAX {
                lemma_grown_twice(st, cs, keep);
            }
        }
    }
}

/// The rest of a character as it is, whose first bytes are pending.
proof fn lemma_plain_ends(st: StrView, body: Seq<u8>, keep: bool) -> (r: (int, char))
    requires
        st.esc == Esc::Plain,
        st.pend.len() > 0,
        st.pend[0] >= 0x80,
        str_run(st, body, keep) matches Some(end) && end.closed_interior(),
    ensures
        0 < r.0 <= body.len(),
        st.pend + body.take(r.0) == encode_scalar(r.1 as u32),
        r.1 as u32 >= 0x80,
        st.cp < u32::MAX,
        str_run(st, body, keep) == str_run(
            grown(st, 1, encode_scalar(r.1 as u32), keep),
            body.skip(r.0),
            keep,
        ),
    decreases body.len(),
{
    if body.len() == 0 {
        (0int, 'a')
    } else {
        let b = body[0];
        let rest = body.drop_first();
        let p = st.pend.push(b);
        assert(p[0] == st.pend[0]);
        match utf8::utf8_state(p) {
            Utf8::Complete => {
                let v = choose|v: u32| #[trigger] is_scalar(v) && p == encode_scalar(v);
                let c = v as char;
                assert(c as u32 == v);
                utf8::lemma_encoding_states(v, 1);
                assert(st.pend + body.take(1) =~= p);
                assert(body.skip(1) =~= rest);
                assert(strings::str_step(st, b, keep)->Open_0 =~= grown(st, 1, p, keep));
                (1int, c)
            },
            Utf8::Partial => {
                let next = StrView { pend: p, ..st };
                assert(strings::str_step(st, b, keep) == StrStep::Open(next));
                let r = lemma_plain_ends(next, rest, keep);
                assert(p + rest.take(r.0) =~= st.pend + body.take(r.0 + 1));
                assert(body.skip(r.0 + 1) =~= rest.skip(r.0));
                assert(grown(next, 1, encode_scalar(r.1 as u32), keep) =~= grown(
                    st,
                    1,
                    encode_scalar(r.1 as u32),
                    keep,
                ));
                (r.0 + 1, r.1)
            },
            Utf8::Invalid => (0int, 'a'),
        }
    }
}

/// A run that ends between two characters does not end inside an escape.
proof fn lemma_hex_goes_on(st: StrView, body: Seq<u8>, keep: bool)
    requires
        st.esc == Esc::Plain,
        st.pend.len() == 0,
        body.len() > 1,
        body[0] == BACKSLASH,
        body[1] == LOWER_U,
        str_run(st, body, keep) matches Some(end) && end.esc == Esc::Plain,
    ensures
        body.len() >= 6,
        code_unit(body.take(6)) is Some,
{
    let d1 = body.drop_first();
    let d2 = d1.drop_first();
    assert(d1[0] == body[1]);
    let s1 = StrView { esc: Esc::Bslash, ..st };
    let s2 = StrView { esc: Esc::Hex { n: 0, acc: 0 }, ..st };
    lemma_step(st, body, keep);
    assert(strings::str_step(st, body[0], keep) == StrStep::Open(s1));
    lemma_step(s1, d1, keep);
    assert(strings::str_step(s1, body[1], keep) == StrStep::Open(s2));
    assert(d2.len() > 0);
    lemma_step(s2, d2, keep);
    assert(d2[0] == body[2]);
    let h1 = strings::hex_digit(body[2])->0 as u32;
    let s3 = StrView { esc: Esc::Hex { n: 1, acc: h1 }, ..st };
    assert(strings::str_step(s2, body[2], keep) == StrStep::Open(s3));
    let d3 = d2.drop_first();
    assert(d3.len() > 0);
    lemma_step(s3, d3, keep);
    assert(d3[0] == body[3]);
    let h2 = (h1 * 16 + strings::hex_digit(body[3])->0) as u32;
    let s4 = StrView { esc: Esc::Hex { n: 2, acc: h2 }, ..st };
    assert(strings::str_step(s3, body[3], keep) == StrStep::Open(s4));
    let d4 = d3.drop_first();
    assert(d4.len() > 0);
    lemma_step(s4, d4, keep);
    assert(d4[0] == body[4]);
    let h3 = (h2 * 16 + strings::hex_digit(body[4])->0) as u32;
    let s5 = StrView { esc: Esc::Hex { n: 3, acc: h3 }, ..st };
    assert(strings::str_step(s4, body[4], keep) == StrStep::Open(s5));
    let d5 = d4.drop_first();
    assert(d5.len() > 0);
    lemma_step(s5, d5, keep);
    assert(d5[0] == body[5]);
    let u = body.take(6);
    assert(u[0] == body[0] && u[1] == body[1] && u[2] == body[2] && u[3] == body[3] && u[4]
        == body[4] && u[5] == body[5]);
}

/// The same behind the high half of a pair.
proof fn lemma_low_goes_on(st: StrView, hi: u32, body: Seq<u8>, keep: bool)
    requires
        st.esc == (Esc::WantLowBslash { hi }),
        st.pend.len() == 0,
        str_run(st, body, keep) matches Some(end) && end.esc == Esc::Plain,
    ensures
        body.len() >= 6,
        code_unit(body.take(6)) is Some,
{
    assert(body.len() > 0);
    let d1 = body.drop_first();
    let s1 = StrView { esc: Esc::WantLowU { hi }, ..st };
    lemma_step(st, body, keep);
    assert(strings::str_step(st, body[0], keep) == StrStep::Open(s1));
    assert(d1.len() > 0);
    lemma_step(s1, d1, keep);
    assert(d1[0] == body[1]);
    let d2 = d1.drop_first();
    let s2 = StrView { esc: Esc::LowHex { n: 0, acc: 0, hi }, ..st };
    assert(strings::str_step(s1, body[1], keep) == StrStep::Open(s2));
    assert(d2.len() > 0);
    lemma_step(s2, d2, keep);
    assert(d2[0] == body[2]);
    let h1 = strings::hex_digit(body[2])->0 as u32;
    let s3 = StrView { esc: Esc::LowHex { n: 1, acc: h1, hi }, ..st };
    assert(strings::str_step(s2, body[2], keep) == StrStep::Open(s3));
    let d3 = d2.drop_first();
    assert(d3.len() > 0);
    lemma_step(s3, d3, keep);
    assert(d3[0] == body[3]);
    let h2 = (h1 * 16 + strings::hex_digit(body[3])->0) as u32;
    let s4 = StrView { esc: Esc::LowHex { n: 2, acc: h2, hi }, ..st };
    assert(strings::str_step(s3, body[3], keep) == StrStep::Open(s4));
    let d4 = d3.drop_first();
    assert(d4.len() > 0);
    lemma_step(s4, d4, keep);
    assert(d4[0] == body[4]);
    let h3 = (h2 * 16 + strings::hex_digit(body[4])->0) as u32;
    let s5 = StrView { esc: Esc::LowHex { n: 3, acc: h3, hi }, ..st };
    assert(strings::str_step(s4, body[4], keep) == StrStep::Open(s5));
    let d5 = d4.drop_first();
    assert(d5.len() > 0);
    lemma_step(s5, d5, keep);
    assert(d5[0] == body[5]);
    let u = body.take(6);
    assert(u[0] == body[0] && u[1] == body[1] && u[2] == body[2] && u[3] == body[3] && u[4]
        == body[4] && u[5] == body[5]);
}

/// A first character by its code unit, or by its two surrogates.
proof fn lemma_first_unit(st: StrView, body: Seq<u8>, keep: bool) -> (r: (int, char))
    requires
        st.closed_interior(),
        body.len() > 1,
        body[0] == BACKSLASH,
        body[1] == LOWER_U,
        str_run(st, body, keep) matches Some(end) && end.closed_interior(),
    ensures
        0 < r.0 <= body.len(),
        spells_char(body.take(r.0), r.1),
{
    lemma_hex_goes_on(st, body, keep);
    let u = body.take(6);
    let v = code_unit(u)->0;
    lemma_reads_unit(st, u, keep);
    lemma_run_append(st, u, body.skip(6), keep);
    assert(u + body.skip(6) =~= body);
    if strings::high_surrogate(v) {
        let mid = StrView { esc: Esc::WantLowBslash { hi: v }, ..st };
        let tail = body.skip(6);
        lemma_low_goes_on(mid, v, tail, keep);
        let w = tail.take(6);
        lemma_reads_low(mid, v, w, keep);
        lemma_run_append(mid, w, tail.skip(6), keep);
        assert(w + tail.skip(6) =~= tail);
        let lo = code_unit(w)->0;
        assert(strings::low_surrogate(lo));
        let p = strings::surrogate_pair(v, lo);
        assert(is_scalar(p));
        let c = p as char;
        assert(c as u32 == p);
        let all = body.take(12);
        assert(all.take(6) =~= u);
        assert(all.skip(6) =~= w);
        (12int, c)
    } else {
        assert(is_scalar(v));
        let c = v as char;
        assert(c as u32 == v);
        (6int, c)
    }
}

/// A first character by a letter behind a backslash.
proof fn lemma_first_short(st: StrView, body: Seq<u8>, keep: bool) -> (c: char)
    requires
        st.closed_interior(),
        body.len() > 0,
        body[0] == BACKSLASH,
        body.len() > 1 ==> body[1] != LOWER_U,
        str_run(st, body, keep) matches Some(end) && end.closed_interior(),
    ensures
        body.len() >= 2,
        spells_char(body.take(2), c),
{
    let rest = body.drop_first();
    let s1 = StrView { esc: Esc::Bslash, ..st };
    lemma_step(st, body, keep);
    assert(strings::str_step(st, body[0], keep) == StrStep::Open(s1));
    assert(rest.len() > 0);
    assert(rest[0] == body[1]);
    lemma_step(s1, rest, keep);
    let v = strings::short_escape(body[1])->0;
    let c = v as char;
    assert(c as u32 == v);
    let u = body.take(2);
    assert(u[0] == body[0] && u[1] == body[1]);
    c
}

/// A first character as it is.
proof fn lemma_first_plain(st: StrView, body: Seq<u8>, keep: bool) -> (r: (int, char))
    requires
        st.closed_interior(),
        body.len() > 0,
        body[0] != BACKSLASH,
        str_run(st, body, keep) matches Some(end) && end.closed_interior(),
    ensures
        0 < r.0 <= body.len(),
        spells_char(body.take(r.0), r.1),
{
    let b = body[0];
    let rest = body.drop_first();
    let p = st.pend.push(b);
    assert(p =~= seq![b]);
    lemma_step(st, body, keep);
    match utf8::utf8_state(p) {
        Utf8::Complete => {
            let v = choose|v: u32| #[trigger] is_scalar(v) && p == encode_scalar(v);
            utf8::lemma_encoding_states(v, 1);
            let c = v as char;
            assert(c as u32 == v);
            assert(body.take(1) =~= p);
            assert(p[0] == b);
            (1int, c)
        },
        Utf8::Partial => {
            let next = StrView { pend: p, ..st };
            assert(strings::str_step(st, b, keep) == StrStep::Open(next));
            utf8::lemma_lead(b);
            let q = lemma_plain_ends(next, rest, keep);
            assert(body.take(q.0 + 1) =~= p + rest.take(q.0));
            (q.0 + 1, q.1)
        },
        Utf8::Invalid => (0int, 'a'),
    }
}

/// The first character of what was read.
proof fn lemma_first_char(st: StrView, body: Seq<u8>, keep: bool) -> (r: (int, char))
    requires
        st.closed_interior(),
        body.len() > 0,
        str_run(st, body, keep) matches Some(end) && end.closed_interior(),
    ensures
        0 < r.0 <= body.len(),
        spells_char(body.take(r.0), r.1),
        st.cp < u32::MAX,
        str_run(st, body, keep) == str_run(
            grown(st, 1, encode_scalar(r.1 as u32), keep),
            body.skip(r.0),
            keep,
        ),
{
    let r: (int, char) = if body[0] != BACKSLASH {
        lemma_first_plain(st, body, keep)
    } else if body.len() > 1 && body[1] == LOWER_U {
        lemma_first_unit(st, body, keep)
    } else {
        let c = lemma_first_short(st, body, keep);
        (2int, c)
    };
    lemma_reads_char(st, body.take(r.0), r.1, keep);
    lemma_run_append(st, body.take(r.0), body.skip(r.0), keep);
    assert(body.take(r.0) + body.skip(r.0) =~= body);
    r
}

/// What was read up to a place between two characters spells characters.
proof fn lemma_read_is_spelled(st: StrView, body: Seq<u8>, keep: bool) -> (cs: Seq<char>)
    requires
        st.closed_interior(),
        str_run(st, body, keep) matches Some(end) && end.closed_interior(),
    ensures
        spells(body, cs),
        st.cp + cs.len() <= u32::MAX,
    decreases body.len(),
{
    if body.len() == 0 {
        Seq::empty()
    } else {
        let (k, c) = lemma_first_char(st, body, keep);
        let next = grown(st, 1, encode_scalar(c as u32), keep);
        let more = lemma_read_is_spelled(next, body.skip(k), keep);
        let cs = seq![c] + more;
        assert(cs.drop_first() =~= more);
        assert(spells_char(body.take(k), cs[0]));
        cs
    }
}

/// The reader takes a text and stands between two characters behind it exactly where the text
/// spells characters that can be counted. It has then counted them, and holds their encoding where
/// it keeps what it reads.
pub proof fn law_the_reader_takes_exactly_the_spellings(body: Seq<u8>, keep: bool)
    ensures
        (str_run(StrView::start(), body, keep) matches Some(end) && end.closed_interior()) == (
        exists|cs: Seq<char>| #[trigger] spells(body, cs) && cs.len() <= u32::MAX),
        forall|cs: Seq<char>| #[trigger]
            spells(body, cs) && cs.len() <= u32::MAX ==> str_run(StrView::start(), body, keep)
                == Some(grown(StrView::start(), cs.len() as int, encode_utf8(cs), keep)),
{
    let st = StrView::start();
    assert forall|cs: Seq<char>| #[trigger] spells(body, cs) && cs.len() <= u32::MAX implies str_run(
        st,
        body,
        keep,
    ) == Some(grown(st, cs.len() as int, encode_utf8(cs), keep)) by {
        lemma_reads_spelled(st, body, cs, keep);
    }
    match str_run(st, body, keep) {
        Some(end) => {
            if end.closed_interior() {
                let cs = lemma_read_is_spelled(st, body, keep);
                assert(spells(body, cs));
            }
        },
        None => {},
    }
}

/// A text of plain characters spells them.
proof fn lemma_plain_text(cs: Seq<char>)
    requires
        forall|i: int| 0 <= i < cs.len() ==> plain_char(#[trigger] cs[i]),
    ensures
        spells(encode_utf8(cs), cs),
    decreases cs.len(),
{
    if cs.len() > 0 {
        let body = encode_utf8(cs);
        let e = encode_scalar(cs[0] as u32);
        let rest = cs.drop_first();
        assert forall|i: int| 0 <= i < rest.len() implies plain_char(#[trigger] rest[i]) by {
            assert(rest[i] == cs[i + 1]);
        }
        lemma_plain_text(rest);
        assert(body.take(e.len() as int) =~= e);
        assert(body.skip(e.len() as int) =~= encode_utf8(rest));
        assert(plain_char(cs[0]));
    }
}

/// A text without quotes, backslashes and control characters is read as it is: behind it the
/// reader holds its bytes and the number of its characters, a quote then closes the string, and
/// none of its first bytes is refused.
pub proof fn law_plain_text_is_read_as_it_is(cs: Seq<char>, n: int)
    requires
        forall|i: int| 0 <= i < cs.len() ==> plain_char(#[trigger] cs[i]),
        cs.len() <= u32::MAX,
        0 <= n <= encode_utf8(cs).len(),
    ensures
        str_run(StrView::start(), encode_utf8(cs), true) == Some(
            StrView {
                esc: Esc::Plain,
                dec: encode_utf8(cs),
                cp: cs.len() as u32,
                pend: Seq::empty(),
            },
        ),
        strings::str_step(
            str_run(StrView::start(), encode_utf8(cs), true)->0,
            QUOTE,
            true,
        ) is Closed,
        str_run(StrView::start(), encode_utf8(cs).take(n), true) is Some,
{
    let body = encode_utf8(cs);
    lemma_plain_text(cs);
    law_the_reader_takes_exactly_the_spellings(body, true);
    let end = grown(StrView::start(), cs.len() as int, body, true);
    assert(end.dec =~= body);
    lemma_run_append(StrView::start(), body.take(n), body.skip(n), true);
    assert(body.take(n) + body.skip(n) =~= body);
}


/// The letters behind a backslash and the characters that they spell.
pub proof fn law_letters_behind_a_backslash(b: u8)
    ensures
        strings::short_escape(b) == match b {
            0x22 => Some(0x22u32),
            0x5C => Some(0x5C),
            0x2F => Some(0x2F),
            0x62 => Some(0x08),
            0x66 => Some(0x0C),
            0x6E => Some(0x0A),
            0x72 => Some(0x0D),
            0x74 => Some(0x09),
            _ => None::<u32>,
        },
{
}

/// Two surrogates spell the characters beyond the first plane, each in one way and all of them.
pub proof fn law_surrogates_spell_the_further_planes(hi: u32, lo: u32, c: u32)
    requires
        strings::high_surrogate(hi),
        strings::low_surrogate(lo),
        0x10000 <= c <= 0x10FFFF,
    ensures
        0x10000 <= strings::surrogate_pair(hi, lo) <= 0x10FFFF,
        (strings::surrogate_pair(hi, lo) == c) == (hi == 0xD800 + (c - 0x10000) / 0x400 && lo
            == 0xDC00 + (c - 0x10000) % 0x400),
{
}

/// Hexadecimal digits have the values 0 to 15, letters in either case.
pub proof fn law_hex_digits(b: u8)
    ensures
        strings::hex_digit(b) matches Some(v) ==> v < 16 && (if v < 10 {
            b == 0x30 + v
        } else {
            b == 0x41 + (v - 10) || b == 0x61 + (v - 10)
        }),
        strings::hex_digit(b) is None ==> !(0x30 <= b <= 0x39) && !(0x41 <= b <= 0x46) && !(0x61
            <= b <= 0x66),
{
}

} // verus!
