//! UTF-8 of one code point, read and written byte by byte.
//!
//! A tokenizer may split a code point over two tokens, so the reader has to tell a code point
//! that is still incomplete from bytes that no code point starts with.

use vstd::prelude::*;
use vstd::utf8::*;

verus! {

/// What the bytes read so far are.
#[derive(Clone, Copy, PartialEq, Eq, Structural, Debug)]
pub enum Utf8 {
    /// Exactly the encoding of one code point.
    Complete,
    /// A proper prefix of the encoding of some code point.
    Partial,
    /// No encoding of a code point starts with these bytes.
    Invalid,
}

/// The bytes are the encoding of one code point.
pub open spec fn one_scalar(p: Seq<u8>) -> bool {
    exists|c: u32| #[trigger] is_scalar(c) && p == encode_scalar(c)
}

/// The bytes are a proper prefix of the encoding of some code point.
pub open spec fn starts_scalar(p: Seq<u8>) -> bool {
    exists|c: u32| #[trigger] is_scalar(c) && p.len() < encode_scalar(c).len() && p
        == encode_scalar(c).subrange(0, p.len() as int)
}

pub open spec fn utf8_state(p: Seq<u8>) -> Utf8 {
    if one_scalar(p) {
        Utf8::Complete
    } else if starts_scalar(p) {
        Utf8::Partial
    } else {
        Utf8::Invalid
    }
}

/// Number of bytes that the lead byte `b` announces; 0 when `b` leads nothing.
spec fn width(b: u8) -> int {
    if b < 0x80 {
        1
    } else if 0xC2 <= b <= 0xDF {
        2
    } else if 0xE0 <= b <= 0xEF {
        3
    } else if 0xF0 <= b <= 0xF4 {
        4
    } else {
        0
    }
}

spec fn cont(b: u8) -> bool {
    0x80 <= b <= 0xBF
}

/// The second byte after lead `b`: continuation bytes without the overlong forms, the surrogates
/// and what lies past the last code point.
spec fn second(b: u8, c: u8) -> bool {
    &&& cont(c)
    &&& (b == 0xE0 ==> c >= 0xA0)
    &&& (b == 0xED ==> c <= 0x9F)
    &&& (b == 0xF0 ==> c >= 0x90)
    &&& (b == 0xF4 ==> c <= 0x8F)
}

/// The first bytes of `p`, up to the announced width, are in the table of well-formed bytes.
spec fn tabled(p: Seq<u8>) -> bool {
    &&& p.len() >= 1
    &&& p.len() <= width(p[0])
    &&& (p.len() >= 2 ==> second(p[0], p[1]))
    &&& (p.len() >= 3 ==> cont(p[2]))
    &&& (p.len() >= 4 ==> cont(p[3]))
}

proof fn lemma_bytes_2(c: u32)
    by (bit_vector)
    requires
        has_width_2_encoding(c),
    ensures
        0xC2 <= leading_byte_width_2(c) <= 0xDF,
        0x80 <= last_continuation_byte(c) <= 0xBF,
{
}

proof fn lemma_bytes_3(c: u32)
    by (bit_vector)
    requires
        has_width_3_encoding(c),
    ensures
        0xE0 <= leading_byte_width_3(c) <= 0xEF,
        0x80 <= second_last_continuation_byte(c) <= 0xBF,
        0x80 <= last_continuation_byte(c) <= 0xBF,
        leading_byte_width_3(c) == 0xE0 ==> second_last_continuation_byte(c) >= 0xA0,
        leading_byte_width_3(c) == 0xED ==> second_last_continuation_byte(c) <= 0x9F,
{
}

proof fn lemma_bytes_4(c: u32)
    by (bit_vector)
    requires
        has_width_4_encoding(c),
    ensures
        0xF0 <= leading_byte_width_4(c) <= 0xF4,
        0x80 <= third_last_continuation_byte(c) <= 0xBF,
        0x80 <= second_last_continuation_byte(c) <= 0xBF,
        0x80 <= last_continuation_byte(c) <= 0xBF,
        leading_byte_width_4(c) == 0xF0 ==> third_last_continuation_byte(c) >= 0x90,
        leading_byte_width_4(c) == 0xF4 ==> third_last_continuation_byte(c) <= 0x8F,
{
}

proof fn lemma_bytes_1(c: u32)
    by (bit_vector)
    requires
        has_width_1_encoding(c),
    ensures
        leading_byte_width_1(c) < 0x80,
        leading_byte_width_1(c) == c,
{
}

/// Every encoding is in the table, and its length is what its lead byte announces.
proof fn lemma_encoding_tabled(c: u32)
    requires
        is_scalar(c),
    ensures
        tabled(encode_scalar(c)),
        encode_scalar(c).len() == width(encode_scalar(c)[0]),
{
    if has_width_1_encoding(c) {
        lemma_bytes_1(c);
    } else if has_width_2_encoding(c) {
        lemma_bytes_2(c);
    } else if has_width_3_encoding(c) {
        lemma_bytes_3(c);
    } else {
        lemma_bytes_4(c);
    }
}

proof fn lemma_pair_decodes(a: u8, b: u8) -> (c: u32)
    requires
        0xC2 <= a <= 0xDF,
        cont(b),
    ensures
        has_width_2_encoding(c),
        leading_byte_width_2(c) == a,
        last_continuation_byte(c) == b,
{
    let c: u32 = (((a & 0x1F) as u32) << 6u32) | ((b & 0x3F) as u32);
    assert(has_width_2_encoding(c) && leading_byte_width_2(c) == a && last_continuation_byte(c)
        == b) by (bit_vector)
        requires
            0xC2 <= a <= 0xDF,
            0x80 <= b <= 0xBF,
            c == (((a & 0x1F) as u32) << 6u32) | ((b & 0x3F) as u32),
    ;
    c
}

proof fn lemma_triple_decodes(a: u8, b: u8, d: u8) -> (c: u32)
    requires
        0xE0 <= a <= 0xEF,
        second(a, b),
        cont(d),
    ensures
        has_width_3_encoding(c),
        leading_byte_width_3(c) == a,
        second_last_continuation_byte(c) == b,
        last_continuation_byte(c) == d,
{
    let c: u32 = (((a & 0x0F) as u32) << 12u32) | (((b & 0x3F) as u32) << 6u32) | ((d & 0x3F) as u32);
    assert(has_width_3_encoding(c) && leading_byte_width_3(c) == a && second_last_continuation_byte(
        c,
    ) == b && last_continuation_byte(c) == d) by (bit_vector)
        requires
            0xE0 <= a <= 0xEF,
            0x80 <= b <= 0xBF,
            a == 0xE0 ==> b >= 0xA0,
            a == 0xED ==> b <= 0x9F,
            0x80 <= d <= 0xBF,
            c == (((a & 0x0F) as u32) << 12u32) | (((b & 0x3F) as u32) << 6u32) | ((d
                & 0x3F) as u32),
    ;
    c
}

proof fn lemma_quad_decodes(a: u8, b: u8, d: u8, e: u8) -> (c: u32)
    requires
        0xF0 <= a <= 0xF4,
        second(a, b),
        cont(d),
        cont(e),
    ensures
        has_width_4_encoding(c),
        leading_byte_width_4(c) == a,
        third_last_continuation_byte(c) == b,
        second_last_continuation_byte(c) == d,
        last_continuation_byte(c) == e,
{
    let c: u32 = (((a & 0x07) as u32) << 18u32) | (((b & 0x3F) as u32) << 12u32) | (((d
        & 0x3F) as u32) << 6u32) | ((e & 0x3F) as u32);
    assert(has_width_4_encoding(c) && leading_byte_width_4(c) == a && third_last_continuation_byte(
        c,
    ) == b && second_last_continuation_byte(c) == d && last_continuation_byte(c) == e)
        by (bit_vector)
        requires
            0xF0 <= a <= 0xF4,
            0x80 <= b <= 0xBF,
            a == 0xF0 ==> b >= 0x90,
            a == 0xF4 ==> b <= 0x8F,
            0x80 <= d <= 0xBF,
            0x80 <= e <= 0xBF,
            c == (((a & 0x07) as u32) << 18u32) | (((b & 0x3F) as u32) << 12u32) | (((d
                & 0x3F) as u32) << 6u32) | ((e & 0x3F) as u32),
    ;
    c
}

/// Bytes of the table that fill the announced width are the encoding of a code point.
proof fn lemma_full_is_scalar(p: Seq<u8>)
    requires
        tabled(p),
        p.len() == width(p[0]),
    ensures
        one_scalar(p),
{
    if p.len() == 1 {
        let c = p[0] as u32;
        lemma_bytes_1(c);
        assert(is_scalar(c) && p =~= encode_scalar(c));
    } else if p.len() == 2 {
        let c = lemma_pair_decodes(p[0], p[1]);
        assert(is_scalar(c) && p =~= encode_scalar(c));
    } else if p.len() == 3 {
        let c = lemma_triple_decodes(p[0], p[1], p[2]);
        assert(is_scalar(c) && p =~= encode_scalar(c));
    } else {
        let c = lemma_quad_decodes(p[0], p[1], p[2], p[3]);
        assert(is_scalar(c) && p =~= encode_scalar(c));
    }
}

/// A second byte that fits lead `b`.
spec fn some_second(b: u8) -> u8 {
    if b == 0xE0 {
        0xA0
    } else if b == 0xF0 {
        0x90
    } else {
        0x80
    }
}

/// Bytes of the table that do not fill the announced width start an encoding.
proof fn lemma_short_starts_scalar(p: Seq<u8>)
    requires
        tabled(p),
        p.len() < width(p[0]),
    ensures
        starts_scalar(p),
{
    let w = width(p[0]);
    let full = Seq::new(
        w as nat,
        |i: int|
            if i < p.len() {
                p[i]
            } else if i == 1 {
                some_second(p[0])
            } else {
                0x80u8
            },
    );
    assert(tabled(full));
    lemma_full_is_scalar(full);
    let c = choose|c: u32| #[trigger] is_scalar(c) && full == encode_scalar(c);
    assert(p =~= encode_scalar(c).subrange(0, p.len() as int));
}

/// Two encodings that start with the same lead byte have the same length, so bytes that are an
/// encoding are never a proper prefix of another.
proof fn lemma_state(p: Seq<u8>)
    ensures
        one_scalar(p) <==> tabled(p) && p.len() == width(p[0]),
        starts_scalar(p) <==> p.len() == 0 || (tabled(p) && p.len() < width(p[0])),
{
    if one_scalar(p) {
        let c = choose|c: u32| #[trigger] is_scalar(c) && p == encode_scalar(c);
        lemma_encoding_tabled(c);
    }
    if tabled(p) && p.len() == width(p[0]) {
        lemma_full_is_scalar(p);
    }
    if starts_scalar(p) && p.len() > 0 {
        let c = choose|c: u32| #[trigger]
            is_scalar(c) && p.len() < encode_scalar(c).len() && p == encode_scalar(c).subrange(
                0,
                p.len() as int,
            );
        let e = encode_scalar(c);
        lemma_encoding_tabled(c);
        assert(p[0] == e[0]);
        assert(p.len() >= 2 ==> p[1] == e[1]);
        assert(p.len() >= 3 ==> p[2] == e[2]);
    }
    if p.len() == 0 {
        let c = 0u32;
        assert(is_scalar(c));
        assert(p =~= encode_scalar(c).subrange(0, 0));
    } else if tabled(p) && p.len() < width(p[0]) {
        lemma_short_starts_scalar(p);
    }
}

/// An encoding is complete, and its first bytes are not.
pub proof fn lemma_encoding_states(c: u32, n: int)
    requires
        is_scalar(c),
        0 < n <= encode_scalar(c).len(),
    ensures
        encode_scalar(c).len() <= 4,
        utf8_state(encode_scalar(c).take(n)) == if n == encode_scalar(c).len() {
            Utf8::Complete
        } else {
            Utf8::Partial
        },
        encode_scalar(c).len() == 1 <==> encode_scalar(c)[0] < 0x80,
        encode_scalar(c).len() == 1 ==> encode_scalar(c)[0] == c,
        forall|i: int|
            0 <= i < encode_scalar(c).len() && encode_scalar(c).len() > 1 ==> (
            #[trigger] encode_scalar(c)[i]) >= 0x80,
        encode_scalar(c).len() > 1 ==> c >= 0x80,
{
    let e = encode_scalar(c);
    lemma_encoding_tabled(c);
    lemma_state(e.take(n));
    if has_width_1_encoding(c) {
        lemma_bytes_1(c);
    } else if has_width_2_encoding(c) {
        lemma_bytes_2(c);
    } else if has_width_3_encoding(c) {
        lemma_bytes_3(c);
    } else {
        lemma_bytes_4(c);
    }
    if n == e.len() {
        assert(e.take(n) =~= e);
    } else {
        assert(e.take(n)[0] == e[0]);
        assert(n >= 2 ==> e.take(n)[1] == e[1]);
        assert(n >= 3 ==> e.take(n)[2] == e[2]);
        assert(tabled(e.take(n)));
    }
}

/// A byte that only starts an encoding is no ASCII character.
pub proof fn lemma_lead(b: u8)
    ensures
        utf8_state(seq![b]) is Partial ==> b >= 0x80,
{
    lemma_state(seq![b]);
}

fn lead_width(b: u8) -> (w: usize)
    ensures
        w == width(b),
{
    if b < 0x80 {
        1
    } else if 0xC2 <= b && b <= 0xDF {
        2
    } else if 0xE0 <= b && b <= 0xEF {
        3
    } else if 0xF0 <= b && b <= 0xF4 {
        4
    } else {
        0
    }
}

fn is_cont(b: u8) -> (r: bool)
    ensures
        r == cont(b),
{
    0x80 <= b && b <= 0xBF
}

fn is_second(b: u8, c: u8) -> (r: bool)
    ensures
        r == second(b, c),
{
    is_cont(c) && (b != 0xE0 || c >= 0xA0) && (b != 0xED || c <= 0x9F) && (b != 0xF0 || c >= 0x90)
        && (b != 0xF4 || c <= 0x8F)
}

/// Classifies the bytes of one code point read so far.
pub fn classify(p: &Vec<u8>) -> (r: Utf8)
    ensures
        r == utf8_state(p@),
{
    proof {
        lemma_state(p@);
    }
    if p.len() == 0 {
        return Utf8::Partial;
    }
    let w: usize = lead_width(p[0]);
    if p.len() > w || (p.len() >= 2 && !is_second(p[0], p[1])) || (p.len() >= 3 && !is_cont(p[2]))
        || (p.len() >= 4 && !is_cont(p[3])) {
        Utf8::Invalid
    } else if p.len() == w {
        Utf8::Complete
    } else {
        Utf8::Partial
    }
}

/// Appends the UTF-8 encoding of `cp`.
pub fn push_scalar(out: &mut Vec<u8>, cp: u32)
    requires
        is_scalar(cp),
    ensures
        final(out)@ == old(out)@ + encode_scalar(cp),
{
    if cp < 0x80 {
        out.push((cp & 0x7F) as u8);
    } else if cp < 0x800 {
        out.push(0xC0 | ((cp >> 6) & 0x1F) as u8);
        out.push(0x80 | (cp & 0x3F) as u8);
    } else if cp < 0x10000 {
        out.push(0xE0 | ((cp >> 12) & 0x0F) as u8);
        out.push(0x80 | ((cp >> 6) & 0x3F) as u8);
        out.push(0x80 | (cp & 0x3F) as u8);
    } else {
        out.push(0xF0 | ((cp >> 18) & 0x07) as u8);
        out.push(0x80 | ((cp >> 12) & 0x3F) as u8);
        out.push(0x80 | ((cp >> 6) & 0x3F) as u8);
        out.push(0x80 | (cp & 0x3F) as u8);
    }
    assert(out@ =~= old(out)@ + encode_scalar(cp));
}

} // verus!
