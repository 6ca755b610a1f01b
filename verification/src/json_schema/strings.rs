//! JSON strings, read one byte at a time.
//!
//! The reader counts code points and, where a constraint on the content needs it, keeps the
//! decoded bytes. Escapes decode to the code point they stand for, and raw bytes must be UTF-8.

use vstd::prelude::*;
use vstd::utf8::*;

use crate::json_schema::ascii::{
    BACKSLASH, DIGIT_0, DIGIT_9, LOWER_A, LOWER_B, LOWER_F, LOWER_N, LOWER_R, LOWER_T, LOWER_U,
    QUOTE, SLASH, UPPER_A, UPPER_F,
};
use crate::json_schema::utf8;
use crate::json_schema::utf8::Utf8;

verus! {

/// Position inside an escape sequence of a JSON string.
#[derive(Clone, Copy, PartialEq, Eq, Structural, Debug, Hash)]
pub enum Esc {
    /// Outside any escape.
    Plain,
    /// Just consumed a backslash.
    Bslash,
    /// Inside a four-digit escape: `n` digits collected in `acc`.
    Hex { n: u8, acc: u32 },
    /// A high surrogate was read; a backslash must follow.
    WantLowBslash { hi: u32 },
    /// A high surrogate and a backslash were read; `u` must follow.
    WantLowU { hi: u32 },
    /// Inside the low half of a surrogate pair.
    LowHex { n: u8, acc: u32, hi: u32 },
}

/// Largest value of `n` hex digits, plus one.
pub open spec fn hex_bound(n: u8) -> int {
    if n == 0 {
        1
    } else if n == 1 {
        0x10
    } else if n == 2 {
        0x100
    } else {
        0x1000
    }
}

pub open spec fn high_surrogate(v: u32) -> bool {
    0xD800 <= v <= 0xDBFF
}

pub open spec fn low_surrogate(v: u32) -> bool {
    0xDC00 <= v <= 0xDFFF
}

impl Esc {
    pub open spec fn wf(self) -> bool {
        match self {
            Esc::Plain => true,
            Esc::Bslash => true,
            Esc::Hex { n, acc } => n < 4 && acc < hex_bound(n),
            Esc::WantLowBslash { hi } => high_surrogate(hi),
            Esc::WantLowU { hi } => high_surrogate(hi),
            Esc::LowHex { n, acc, hi } => n < 4 && acc < hex_bound(n) && high_surrogate(hi),
        }
    }
}

/// Reader state inside a JSON string. `dec` holds the decoded bytes and is kept only where a
/// constraint on the content needs it.
#[derive(Debug)]
pub struct StrState {
    pub esc: Esc,
    pub dec: Vec<u8>,
    /// Code points read so far.
    pub cp: u32,
    /// Bytes of a code point that is not complete yet.
    pub pend: Vec<u8>,
}

/// What a [`StrState`] stands for.
#[verifier::ext_equal]
pub ghost struct StrView {
    pub esc: Esc,
    pub dec: Seq<u8>,
    pub cp: u32,
    pub pend: Seq<u8>,
}

impl View for StrState {
    type V = StrView;

    open spec fn view(&self) -> StrView {
        StrView { esc: self.esc, dec: self.dec@, cp: self.cp, pend: self.pend@ }
    }
}

impl StrView {
    /// State just behind the opening quote.
    pub open spec fn start() -> StrView {
        StrView { esc: Esc::Plain, dec: Seq::empty(), cp: 0, pend: Seq::empty() }
    }

    /// Neither an escape nor a code point is left open.
    pub open spec fn closed_interior(self) -> bool {
        self.esc == Esc::Plain && self.pend.len() == 0
    }
}

/// What one more byte does to a string.
pub ghost enum StrStep {
    /// The string goes on, in this state.
    Open(StrView),
    /// The closing quote was read.
    Closed,
    /// The byte cannot stand here.
    Bad,
}

/// Outcome of [`str_advance`].
#[derive(Clone, Copy, PartialEq, Eq, Structural, Debug)]
pub enum Step {
    Open,
    Closed,
    Bad,
}

pub open spec fn hex_digit(b: u8) -> Option<u8> {
    if DIGIT_0 <= b <= DIGIT_9 {
        Some((b - DIGIT_0) as u8)
    } else if LOWER_A <= b <= LOWER_F {
        Some((b - LOWER_A + 10) as u8)
    } else if UPPER_A <= b <= UPPER_F {
        Some((b - UPPER_A + 10) as u8)
    } else {
        None
    }
}

/// Code point of a one-letter escape.
pub open spec fn short_escape(b: u8) -> Option<u32> {
    if b == QUOTE || b == BACKSLASH || b == SLASH {
        Some(b as u32)
    } else if b == LOWER_B {
        Some(0x08)
    } else if b == LOWER_F {
        Some(0x0C)
    } else if b == LOWER_N {
        Some(0x0A)
    } else if b == LOWER_R {
        Some(0x0D)
    } else if b == LOWER_T {
        Some(0x09)
    } else {
        None
    }
}

/// The string with one more code point, whose encoding is `enc`. The counter holds at most
/// `u32::MAX` code points: a longer string is refused.
pub open spec fn with_scalar(st: StrView, enc: Seq<u8>, keep: bool) -> StrStep {
    if st.cp == u32::MAX {
        StrStep::Bad
    } else {
        StrStep::Open(
            StrView {
                esc: Esc::Plain,
                dec: if keep {
                    st.dec + enc
                } else {
                    st.dec
                },
                cp: (st.cp + 1) as u32,
                pend: Seq::empty(),
            },
        )
    }
}

/// One escaped code point.
pub open spec fn escaped(st: StrView, c: u32, keep: bool) -> StrStep {
    if is_scalar(c) {
        with_scalar(st, encode_scalar(c), keep)
    } else {
        StrStep::Bad
    }
}

/// One raw content byte.
pub open spec fn raw_byte(st: StrView, b: u8, keep: bool) -> StrStep {
    let p = st.pend.push(b);
    match utf8::utf8_state(p) {
        Utf8::Complete => with_scalar(st, p, keep),
        Utf8::Partial => StrStep::Open(StrView { pend: p, ..st }),
        Utf8::Invalid => StrStep::Bad,
    }
}

/// The code point of a surrogate pair.
pub open spec fn surrogate_pair(hi: u32, lo: u32) -> u32 {
    (0x10000 + (hi - 0xD800) * 0x400 + (lo - 0xDC00)) as u32
}

/// Effect of byte `b` inside a string.
pub open spec fn str_step(st: StrView, b: u8, keep: bool) -> StrStep {
    match st.esc {
        Esc::Plain => if b == QUOTE {
            StrStep::Closed
        } else if b == BACKSLASH {
            if st.pend.len() == 0 {
                StrStep::Open(StrView { esc: Esc::Bslash, ..st })
            } else {
                StrStep::Bad
            }
        } else if b < 0x20 {
            StrStep::Bad
        } else {
            raw_byte(st, b, keep)
        },
        Esc::Bslash => if b == LOWER_U {
            StrStep::Open(StrView { esc: Esc::Hex { n: 0, acc: 0 }, ..st })
        } else {
            match short_escape(b) {
                Some(c) => escaped(st, c, keep),
                None => StrStep::Bad,
            }
        },
        Esc::Hex { n, acc } => match hex_digit(b) {
            None => StrStep::Bad,
            Some(d) => {
                let v = (acc * 16 + d) as u32;
                if n < 3 {
                    StrStep::Open(StrView { esc: Esc::Hex { n: (n + 1) as u8, acc: v }, ..st })
                } else if high_surrogate(v) {
                    StrStep::Open(StrView { esc: Esc::WantLowBslash { hi: v }, ..st })
                } else {
                    escaped(st, v, keep)
                }
            },
        },
        Esc::WantLowBslash { hi } => if b == BACKSLASH {
            StrStep::Open(StrView { esc: Esc::WantLowU { hi }, ..st })
        } else {
            StrStep::Bad
        },
        Esc::WantLowU { hi } => if b == LOWER_U {
            StrStep::Open(StrView { esc: Esc::LowHex { n: 0, acc: 0, hi }, ..st })
        } else {
            StrStep::Bad
        },
        Esc::LowHex { n, acc, hi } => match hex_digit(b) {
            None => StrStep::Bad,
            Some(d) => {
                let v = (acc * 16 + d) as u32;
                if n < 3 {
                    StrStep::Open(
                        StrView { esc: Esc::LowHex { n: (n + 1) as u8, acc: v, hi }, ..st },
                    )
                } else if low_surrogate(v) {
                    escaped(st, surrogate_pair(hi, v), keep)
                } else {
                    StrStep::Bad
                }
            },
        },
    }
}

/// The outcome `r` with state `after` is what `want` says.
pub open spec fn step_is(want: StrStep, r: Step, after: StrView) -> bool {
    match want {
        StrStep::Open(s) => r == Step::Open && after == s,
        StrStep::Closed => r == Step::Closed,
        StrStep::Bad => r == Step::Bad,
    }
}

impl StrState {
    pub fn new() -> (s: StrState)
        ensures
            s@ == StrView::start(),
            s.esc.wf(),
    {
        let s = StrState { esc: Esc::Plain, dec: Vec::new(), cp: 0, pend: Vec::new() };
        assert(s@ =~= StrView::start());
        s
    }

    /// True when neither an escape nor a code point is left open.
    pub fn is_closed_interior(&self) -> (r: bool)
        ensures
            r == self@.closed_interior(),
    {
        self.esc == Esc::Plain && self.pend.len() == 0
    }

    /// A copy in the same state.
    pub fn duplicate(&self) -> (s: StrState)
        ensures
            s@ == self@,
            s.esc == self.esc,
    {
        StrState { esc: self.esc, dec: self.dec.clone(), cp: self.cp, pend: self.pend.clone() }
    }
}

/// Value of a hex digit.
pub fn hex_val(b: u8) -> (r: Option<u8>)
    ensures
        r == hex_digit(b),
{
    if DIGIT_0 <= b && b <= DIGIT_9 {
        Some(b - DIGIT_0)
    } else if LOWER_A <= b && b <= LOWER_F {
        Some(b - LOWER_A + 10)
    } else if UPPER_A <= b && b <= UPPER_F {
        Some(b - UPPER_A + 10)
    } else {
        None
    }
}

/// Appends one escaped code point; false when `cp` is not a Unicode scalar value or the counter
/// is full.
pub fn push_cp(st: &mut StrState, cp: u32, keep: bool) -> (ok: bool)
    requires
        old(st).pend@.len() == 0,
        old(st).esc == Esc::Plain,
    ensures
        ok == (escaped(old(st)@, cp, keep) is Open),
        ok ==> escaped(old(st)@, cp, keep) == StrStep::Open(final(st)@),
        ok ==> final(st).esc == Esc::Plain,
{
    if cp > 0x10FFFF || (0xD800 <= cp && cp <= 0xDFFF) || st.cp == u32::MAX {
        return false;
    }
    st.cp = st.cp + 1;
    if keep {
        utf8::push_scalar(&mut st.dec, cp);
    }
    assert(escaped(old(st)@, cp, keep)->Open_0 =~= st@);
    true
}

/// Appends one raw content byte, validating UTF-8 across token boundaries.
pub fn push_raw(st: &mut StrState, b: u8, keep: bool) -> (ok: bool)
    requires
        old(st).esc == Esc::Plain,
    ensures
        ok == (raw_byte(old(st)@, b, keep) is Open),
        ok ==> raw_byte(old(st)@, b, keep) == StrStep::Open(final(st)@),
        ok ==> final(st).esc == Esc::Plain,
{
    st.pend.push(b);
    match utf8::classify(&st.pend) {
        Utf8::Complete => {
            if st.cp == u32::MAX {
                return false;
            }
            st.cp = st.cp + 1;
            if keep {
                st.dec.append(&mut st.pend);
            } else {
                st.pend.clear();
            }
            assert(raw_byte(old(st)@, b, keep)->Open_0 =~= st@);
            true
        },
        Utf8::Partial => {
            assert(raw_byte(old(st)@, b, keep)->Open_0 =~= st@);
            true
        },
        Utf8::Invalid => false,
    }
}

fn opened(ok: bool) -> (s: Step)
    ensures
        s == if ok {
            Step::Open
        } else {
            Step::Bad
        },
{
    if ok {
        Step::Open
    } else {
        Step::Bad
    }
}

/// An escape never opens inside an unfinished code point.
pub open spec fn str_wf(st: StrView) -> bool {
    st.esc.wf() && (st.esc != Esc::Plain ==> st.pend.len() == 0)
}

/// Advances one byte inside a string. `keep` says whether the decoded bytes are kept.
pub fn str_advance(st: &mut StrState, b: u8, keep: bool) -> (r: Step)
    requires
        str_wf(old(st)@),
    ensures
        step_is(str_step(old(st)@, b, keep), r, final(st)@),
        r == Step::Open ==> str_wf(final(st)@),
        r == Step::Closed ==> final(st)@ == old(st)@,
{
    match st.esc {
        Esc::Plain => if b == QUOTE {
            Step::Closed
        } else if b == BACKSLASH {
            if st.pend.len() != 0 {
                return Step::Bad;
            }
            st.esc = Esc::Bslash;
            Step::Open
        } else if b < 0x20 {
            Step::Bad
        } else {
            opened(push_raw(st, b, keep))
        },
        Esc::Bslash => {
            let cp: u32 = if b == QUOTE || b == BACKSLASH || b == SLASH {
                b as u32
            } else if b == LOWER_B {
                0x08
            } else if b == LOWER_F {
                0x0C
            } else if b == LOWER_N {
                0x0A
            } else if b == LOWER_R {
                0x0D
            } else if b == LOWER_T {
                0x09
            } else if b == LOWER_U {
                st.esc = Esc::Hex { n: 0, acc: 0 };
                return Step::Open;
            } else {
                return Step::Bad;
            };
            st.esc = Esc::Plain;
            opened(push_cp(st, cp, keep))
        },
        Esc::Hex { n, acc } => {
            let d: u8 = match hex_val(b) {
                Some(d) => d,
                None => return Step::Bad,
            };
            let acc: u32 = acc * 16 + d as u32;
            if n + 1 < 4 {
                st.esc = Esc::Hex { n: n + 1, acc };
                return Step::Open;
            }
            if 0xD800 <= acc && acc <= 0xDBFF {
                st.esc = Esc::WantLowBslash { hi: acc };
                return Step::Open;
            }
            st.esc = Esc::Plain;
            opened(push_cp(st, acc, keep))
        },
        Esc::WantLowBslash { hi } => {
            if b != BACKSLASH {
                return Step::Bad;
            }
            st.esc = Esc::WantLowU { hi };
            Step::Open
        },
        Esc::WantLowU { hi } => {
            if b != LOWER_U {
                return Step::Bad;
            }
            st.esc = Esc::LowHex { n: 0, acc: 0, hi };
            Step::Open
        },
        Esc::LowHex { n, acc, hi } => {
            let d: u8 = match hex_val(b) {
                Some(d) => d,
                None => return Step::Bad,
            };
            let acc: u32 = acc * 16 + d as u32;
            if n + 1 < 4 {
                st.esc = Esc::LowHex { n: n + 1, acc, hi };
                return Step::Open;
            }
            if !(0xDC00 <= acc && acc <= 0xDFFF) {
                return Step::Bad;
            }
            st.esc = Esc::Plain;
            let cp: u32 = 0x10000 + (hi - 0xD800) * 0x400 + (acc - 0xDC00);
            opened(push_cp(st, cp, keep))
        },
    }
}

} // verus!
