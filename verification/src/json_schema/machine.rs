//! The byte machine: a stack of continuation frames that reads a JSON document against a schema.
//!
//! A document is optional whitespace, one JSON value that meets the schema, and optional
//! whitespace. Each byte is handled by the top frame, which stays, is replaced, opens a frame
//! above itself, closes, or hands the byte to the frame below.

use vstd::prelude::*;

use crate::json_schema::ascii;
use crate::json_schema::ascii::{
    CLOSE_BRACE, CLOSE_BRACKET, COLON, COMMA, LOWER_A, LOWER_E, LOWER_F, LOWER_L, LOWER_N, LOWER_R,
    LOWER_S, LOWER_T, LOWER_U, OPEN_BRACE, OPEN_BRACKET, QUOTE,
};
use crate::json_schema::numbers;
use crate::json_schema::numbers::NumState;
use crate::json_schema::schema;
use crate::json_schema::schema::{SchemaView, Ty};
use crate::json_schema::strings;
use crate::json_schema::strings::{StrState, StrStep, StrView};

verus! {

/// Position inside an object.
#[derive(Debug)]
pub enum ObjPhase {
    /// Whitespace, then `}` or the opening quote of a key.
    KeyOrEnd,
    /// Directly behind a comma: a key must follow.
    KeyReq,
    /// Inside a key.
    Key(StrState),
    /// The key is closed; a colon must follow. `child` is the schema of the member's value.
    Colon { child: u32 },
    /// The member's value has been read.
    AfterValue,
}

/// Position inside an array.
#[derive(Clone, Copy, PartialEq, Eq, Structural, Debug)]
pub enum ArrPhase {
    /// Whitespace, then `]` or the start of an item.
    ItemOrEnd,
    /// Directly behind a comma: an item must follow.
    ItemReq,
    /// An item has been read.
    AfterItem,
}

/// One continuation.
#[allow(inconsistent_fields)]
#[derive(Debug)]
pub enum Frame {
    /// Below the document: only whitespace may follow the value.
    DocEnd,
    /// The bytes left the schema or the JSON grammar.
    Dead,
    /// A value of schema `si` must start here.
    Value { si: u32 },
    Obj { si: u32, phase: ObjPhase, seen: Vec<u32>, extra: Vec<Vec<u8>> },
    Arr { si: u32, n: u64, phase: ArrPhase },
    Str { si: u32, st: StrState },
    /// Bytes still to come of `true`, `false` or `null`.
    Lit { rest: Vec<u8> },
    Num { si: u32, buf: Vec<u8>, st: NumState },
}

#[verifier::ext_equal]
pub ghost enum PhaseView {
    KeyOrEnd,
    KeyReq,
    Key(StrView),
    Colon { child: u32 },
    AfterValue,
}

/// What a [`Frame`] stands for.
#[allow(inconsistent_fields)]
#[verifier::ext_equal]
pub ghost enum FrameView {
    DocEnd,
    Dead,
    Value { si: u32 },
    Obj { si: u32, phase: PhaseView, seen: Seq<u32>, extra: Seq<Seq<u8>> },
    Arr { si: u32, n: u64, phase: ArrPhase },
    Str { si: u32, st: StrView },
    Lit { rest: Seq<u8> },
    Num { si: u32, buf: Seq<u8>, st: NumState },
}

impl View for ObjPhase {
    type V = PhaseView;

    open spec fn view(&self) -> PhaseView {
        match self {
            ObjPhase::KeyOrEnd => PhaseView::KeyOrEnd,
            ObjPhase::KeyReq => PhaseView::KeyReq,
            ObjPhase::Key(st) => PhaseView::Key(st@),
            ObjPhase::Colon { child } => PhaseView::Colon { child: *child },
            ObjPhase::AfterValue => PhaseView::AfterValue,
        }
    }
}

impl View for Frame {
    type V = FrameView;

    open spec fn view(&self) -> FrameView {
        match self {
            Frame::DocEnd => FrameView::DocEnd,
            Frame::Dead => FrameView::Dead,
            Frame::Value { si } => FrameView::Value { si: *si },
            Frame::Obj { si, phase, seen, extra } => FrameView::Obj {
                si: *si,
                phase: phase@,
                seen: seen@,
                extra: schema::byte_lists(extra@),
            },
            Frame::Arr { si, n, phase } => FrameView::Arr { si: *si, n: *n, phase: *phase },
            Frame::Str { si, st } => FrameView::Str { si: *si, st: st@ },
            Frame::Lit { rest } => FrameView::Lit { rest: rest@ },
            Frame::Num { si, buf, st } => FrameView::Num { si: *si, buf: buf@, st: *st },
        }
    }
}

/// Contents of a stack of frames.
pub open spec fn stack_view(s: Seq<Frame>) -> Seq<FrameView> {
    Seq::new(s.len(), |i: int| s[i]@)
}

/// The indices of a schema table are in range.
pub open spec fn table_wf(t: Seq<SchemaView>) -> bool {
    &&& 0 < t.len() <= u32::MAX
    &&& forall|i: int| 0 <= i < t.len() ==> schema_wf(#[trigger] t[i], t.len())
}

pub open spec fn schema_wf(s: SchemaView, n: nat) -> bool {
    &&& s.props.len() <= u32::MAX
    &&& forall|k: int| 0 <= k < s.props.len() ==> (#[trigger] s.props[k]).1 < n
    &&& (s.items matches Some(c) ==> c < n)
}

/// The indices of a frame are in range and its sub-states are reachable ones.
pub open spec fn frame_wf(f: FrameView, n: nat) -> bool {
    match f {
        FrameView::DocEnd => true,
        FrameView::Dead => true,
        FrameView::Value { si } => si < n,
        FrameView::Obj { si, phase, .. } => si < n && match phase {
            PhaseView::Key(st) => strings::str_wf(st),
            PhaseView::Colon { child } => child < n,
            _ => true,
        },
        FrameView::Arr { si, .. } => si < n,
        FrameView::Str { si, st } => si < n && strings::str_wf(st),
        FrameView::Lit { .. } => true,
        FrameView::Num { si, buf, st } => si < n && numbers::num_run(buf) == Some(st),
    }
}

pub open spec fn stack_wf(s: Seq<FrameView>, n: nat) -> bool {
    forall|i: int| 0 <= i < s.len() ==> frame_wf(#[trigger] s[i], n)
}

/// What the top frame does with a byte.
#[verifier::ext_equal]
pub ghost enum React {
    /// The frame is replaced.
    Keep(FrameView),
    /// The frame is replaced by the first frame, with the second above it.
    Open(FrameView, FrameView),
    /// The frame is done, and the byte with it.
    Close,
    /// The frame is done; the frame below handles the byte.
    Again,
    /// As `Open`, and the upper frame handles the byte.
    AgainWith(FrameView, FrameView),
    /// The byte is refused.
    Fail,
}

/// Outcome of the top frame on a byte.
pub enum Reaction {
    Keep(Frame),
    Open(Frame, Frame),
    Close,
    Again,
    AgainWith(Frame, Frame),
    Fail,
}

impl View for Reaction {
    type V = React;

    open spec fn view(&self) -> React {
        match self {
            Reaction::Keep(f) => React::Keep(f@),
            Reaction::Open(f, g) => React::Open(f@, g@),
            Reaction::Close => React::Close,
            Reaction::Again => React::Again,
            Reaction::AgainWith(f, g) => React::AgainWith(f@, g@),
            Reaction::Fail => React::Fail,
        }
    }
}

pub open spec fn rest_of_true() -> Seq<u8> {
    seq![LOWER_R, LOWER_U, LOWER_E]
}

pub open spec fn rest_of_false() -> Seq<u8> {
    seq![LOWER_A, LOWER_L, LOWER_S, LOWER_E]
}

pub open spec fn rest_of_null() -> Seq<u8> {
    seq![LOWER_U, LOWER_L, LOWER_L]
}

pub open spec fn new_object(si: u32) -> FrameView {
    FrameView::Obj { si, phase: PhaseView::KeyOrEnd, seen: Seq::empty(), extra: Seq::empty() }
}

pub open spec fn new_array(si: u32) -> FrameView {
    FrameView::Arr { si, n: 0, phase: ArrPhase::ItemOrEnd }
}

pub open spec fn new_string(si: u32) -> FrameView {
    FrameView::Str { si, st: StrView::start() }
}

pub open spec fn new_number(si: u32, b: u8) -> Option<FrameView> {
    match numbers::num_first(b) {
        Some(st) => Some(FrameView::Num { si, buf: seq![b], st }),
        None => None,
    }
}

/// The frame for a literal that starts with `b`, among those that the type admits.
pub open spec fn new_literal(booleans: bool, null: bool, b: u8) -> Option<FrameView> {
    if booleans && b == LOWER_T {
        Some(FrameView::Lit { rest: rest_of_true() })
    } else if booleans && b == LOWER_F {
        Some(FrameView::Lit { rest: rest_of_false() })
    } else if null && b == LOWER_N {
        Some(FrameView::Lit { rest: rest_of_null() })
    } else {
        None
    }
}

/// The frame that a value of schema `s` starts with on byte `b`; `None` where it cannot. Under
/// an untyped `enum` only the kinds of values that the list contains may start.
pub open spec fn start_of_value(s: SchemaView, si: u32, b: u8) -> Option<FrameView> {
    match s.ty {
        Ty::Object => if b == OPEN_BRACE {
            Some(new_object(si))
        } else {
            None
        },
        Ty::Array => if b == OPEN_BRACKET {
            Some(new_array(si))
        } else {
            None
        },
        Ty::String => if b == QUOTE {
            Some(new_string(si))
        } else {
            None
        },
        Ty::Integer | Ty::Number => new_number(si, b),
        Ty::Boolean => new_literal(true, false, b),
        Ty::Null => new_literal(false, true, b),
        Ty::Any => if b == QUOTE {
            if s.has_enum && s.enum_str.len() == 0 {
                None
            } else {
                Some(new_string(si))
            }
        } else if s.has_enum {
            if s.enum_int.len() == 0 {
                None
            } else {
                new_number(si, b)
            }
        } else if b == OPEN_BRACE {
            Some(new_object(si))
        } else if b == OPEN_BRACKET {
            Some(new_array(si))
        } else if b == LOWER_T || b == LOWER_F || b == LOWER_N {
            new_literal(true, true, b)
        } else {
            new_number(si, b)
        },
    }
}

/// Every required property has been read.
pub open spec fn required_met(s: SchemaView, seen: Seq<u32>) -> bool {
    forall|k: int| 0 <= k < s.required.len() ==> seen.contains(#[trigger] s.required[k])
}

/// One of the listed strings starts with `dec`.
pub open spec fn prefix_listed(list: Seq<Seq<u8>>, dec: Seq<u8>) -> bool {
    exists|k: int| 0 <= k < list.len() && dec.is_prefix_of(#[trigger] list[k])
}

/// The string read so far can still meet the schema.
pub open spec fn string_open_ok(s: SchemaView, st: StrView) -> bool {
    &&& (s.max_len matches Some(m) ==> st.cp <= m)
    &&& (s.enum_str.len() > 0 ==> prefix_listed(s.enum_str, st.dec))
}

/// The finished string meets the schema.
pub open spec fn string_closed_ok(s: SchemaView, st: StrView) -> bool {
    &&& st.closed_interior()
    &&& (s.max_len matches Some(m) ==> st.cp <= m)
    &&& (s.min_len matches Some(m) ==> m <= st.cp)
    &&& (s.enum_str.len() > 0 ==> s.enum_str.contains(st.dec))
}

/// A key that starts with `dec` can still be admitted.
pub open spec fn key_open_ok(s: SchemaView, dec: Seq<u8>) -> bool {
    s.additional || exists|k: int|
        0 <= k < s.props.len() && dec.is_prefix_of((#[trigger] s.props[k]).0)
}

/// Index of the first property named `key`, from `i` on.
pub open spec fn find_prop(props: Seq<(Seq<u8>, u32)>, key: Seq<u8>, i: int) -> Option<int>
    decreases props.len() - i,
{
    if i < 0 || i >= props.len() {
        None
    } else if props[i].0 == key {
        Some(i)
    } else {
        find_prop(props, key, i + 1)
    }
}

/// A key has been closed: it must be new, and declared unless further keys are admitted.
pub open spec fn close_key(
    s: SchemaView,
    si: u32,
    key: Seq<u8>,
    seen: Seq<u32>,
    extra: Seq<Seq<u8>>,
) -> React {
    match find_prop(s.props, key, 0) {
        Some(i) => if seen.contains(i as u32) {
            React::Fail
        } else {
            React::Keep(
                FrameView::Obj {
                    si,
                    phase: PhaseView::Colon { child: s.props[i].1 },
                    seen: seen.push(i as u32),
                    extra,
                },
            )
        },
        None => if !s.additional || extra.contains(key) {
            React::Fail
        } else {
            React::Keep(
                FrameView::Obj {
                    si,
                    phase: PhaseView::Colon { child: 0 },
                    seen,
                    extra: extra.push(key),
                },
            )
        },
    }
}

pub open spec fn object_react(
    s: SchemaView,
    si: u32,
    phase: PhaseView,
    seen: Seq<u32>,
    extra: Seq<Seq<u8>>,
    b: u8,
) -> React {
    match phase {
        PhaseView::Key(st) => match strings::str_step(st, b, true) {
            StrStep::Open(next) => if key_open_ok(s, next.dec) {
                React::Keep(FrameView::Obj { si, phase: PhaseView::Key(next), seen, extra })
            } else {
                React::Fail
            },
            StrStep::Closed => if st.closed_interior() {
                close_key(s, si, st.dec, seen, extra)
            } else {
                React::Fail
            },
            StrStep::Bad => React::Fail,
        },
        _ => if ascii::ws(b) {
            React::Keep(FrameView::Obj { si, phase, seen, extra })
        } else {
            match phase {
                PhaseView::KeyOrEnd | PhaseView::KeyReq => if b == QUOTE {
                    React::Keep(
                        FrameView::Obj {
                            si,
                            phase: PhaseView::Key(StrView::start()),
                            seen,
                            extra,
                        },
                    )
                } else if b == CLOSE_BRACE && phase is KeyOrEnd && required_met(s, seen) {
                    React::Close
                } else {
                    React::Fail
                },
                PhaseView::Colon { child } => if b == COLON {
                    React::Open(
                        FrameView::Obj { si, phase: PhaseView::AfterValue, seen, extra },
                        FrameView::Value { si: child },
                    )
                } else {
                    React::Fail
                },
                _ => if b == COMMA {
                    React::Keep(FrameView::Obj { si, phase: PhaseView::KeyReq, seen, extra })
                } else if b == CLOSE_BRACE && required_met(s, seen) {
                    React::Close
                } else {
                    React::Fail
                },
            }
        },
    }
}

/// An array may close with `n` items.
pub open spec fn enough_items(s: SchemaView, n: u64) -> bool {
    s.min_items matches Some(m) ==> m <= n
}

/// An array of `n` items may get another. The counter holds at most `u64::MAX` items.
pub open spec fn room_for_item(s: SchemaView, n: u64) -> bool {
    n < u64::MAX && (s.max_items matches Some(m) ==> n < m)
}

/// Schema of the items: any value where none is declared.
pub open spec fn item_schema(s: SchemaView) -> u32 {
    match s.items {
        Some(c) => c,
        None => 0,
    }
}

pub open spec fn array_react(s: SchemaView, si: u32, n: u64, phase: ArrPhase, b: u8) -> React {
    if ascii::ws(b) {
        React::Keep(FrameView::Arr { si, n, phase })
    } else if phase is AfterItem {
        if b == COMMA {
            React::Keep(FrameView::Arr { si, n, phase: ArrPhase::ItemReq })
        } else if b == CLOSE_BRACKET && enough_items(s, n) {
            React::Close
        } else {
            React::Fail
        }
    } else if b == CLOSE_BRACKET {
        if phase is ItemOrEnd && enough_items(s, n) {
            React::Close
        } else {
            React::Fail
        }
    } else if room_for_item(s, n) {
        React::AgainWith(
            FrameView::Arr { si, n: (n + 1) as u64, phase: ArrPhase::AfterItem },
            FrameView::Value { si: item_schema(s) },
        )
    } else {
        React::Fail
    }
}

pub open spec fn string_react(s: SchemaView, si: u32, st: StrView, b: u8) -> React {
    match strings::str_step(st, b, s.enum_str.len() > 0) {
        StrStep::Open(next) => if string_open_ok(s, next) {
            React::Keep(FrameView::Str { si, st: next })
        } else {
            React::Fail
        },
        StrStep::Closed => if string_closed_ok(s, st) {
            React::Close
        } else {
            React::Fail
        },
        StrStep::Bad => React::Fail,
    }
}

pub open spec fn literal_react(rest: Seq<u8>, b: u8) -> React {
    if rest.len() == 0 || rest[0] != b {
        React::Fail
    } else if rest.len() == 1 {
        React::Close
    } else {
        React::Keep(FrameView::Lit { rest: rest.drop_first() })
    }
}

/// A number ends at the first byte it cannot go on with; the frame below handles that byte.
pub open spec fn number_react(s: SchemaView, si: u32, buf: Seq<u8>, st: NumState, b: u8) -> React {
    match numbers::num_next(st, b) {
        Some(next) => React::Keep(FrameView::Num { si, buf: buf.push(b), st: next }),
        None => if numbers::number_ok(s, buf, st) {
            React::Again
        } else {
            React::Fail
        },
    }
}

/// What frame `f` does with byte `b`.
#[verifier::opaque]
pub open spec fn react(t: Seq<SchemaView>, f: FrameView, b: u8) -> React {
    match f {
        FrameView::Dead => React::Fail,
        FrameView::DocEnd => if ascii::ws(b) {
            React::Keep(FrameView::DocEnd)
        } else {
            React::Fail
        },
        FrameView::Value { si } => if ascii::ws(b) {
            React::Keep(f)
        } else {
            match start_of_value(t[si as int], si, b) {
                Some(g) => React::Keep(g),
                None => React::Fail,
            }
        },
        FrameView::Obj { si, phase, seen, extra } => object_react(
            t[si as int],
            si,
            phase,
            seen,
            extra,
            b,
        ),
        FrameView::Arr { si, n, phase } => array_react(t[si as int], si, n, phase, b),
        FrameView::Str { si, st } => string_react(t[si as int], si, st, b),
        FrameView::Lit { rest } => literal_react(rest, b),
        FrameView::Num { si, buf, st } => number_react(t[si as int], si, buf, st, b),
    }
}

/// Decreases whenever a byte is handed on: a frame that hands it down leaves the stack, and a
/// value that starts never hands it on.
pub open spec fn feed_rank(stack: Seq<FrameView>) -> nat {
    if stack.len() == 0 || stack.last() is Value {
        0
    } else {
        1 + stack.len()
    }
}

/// Only a number hands a byte down, and only an array hands one up, to the value of its next item.
pub proof fn lemma_react_rank(t: Seq<SchemaView>, f: FrameView, b: u8)
    ensures
        react(t, f, b) is Again ==> f is Num,
        react(t, f, b) matches React::AgainWith(f2, g) ==> f is Arr && f2 is Arr && g is Value,
        react(t, f, b) matches React::Open(f2, g) ==> f is Obj && f2 is Obj && g is Value,
        react(t, f, b) matches React::Keep(g) ==> (g is DocEnd ==> f is DocEnd) && !(g is Dead),
{
    reveal(react);
}

/// The stack after byte `b`, and whether the byte was accepted. A refused byte leaves a `Dead`
/// frame on top.
pub open spec fn feed(t: Seq<SchemaView>, stack: Seq<FrameView>, b: u8) -> (Seq<FrameView>, bool)
    decreases feed_rank(stack),
{
    if stack.len() == 0 {
        (seq![FrameView::Dead], false)
    } else {
        proof {
            reveal(react);
        }
        let below = stack.drop_last();
        match react(t, stack.last(), b) {
            React::Keep(f) => (below.push(f), true),
            React::Open(f, g) => (below.push(f).push(g), true),
            React::Close => (below, true),
            React::Again => feed(t, below, b),
            React::AgainWith(f, g) => feed(t, below.push(f).push(g), b),
            React::Fail => (below.push(FrameView::Dead), false),
        }
    }
}

/// The stack after all of `text`; `None` where a byte is refused.
pub open spec fn run(t: Seq<SchemaView>, stack: Seq<FrameView>, text: Seq<u8>) -> Option<
    Seq<FrameView>,
>
    decreases text.len(),
{
    if text.len() == 0 {
        Some(stack)
    } else {
        let (next, alive) = feed(t, stack, text[0]);
        if alive {
            run(t, next, text.drop_first())
        } else {
            None
        }
    }
}

/// Some frame is dead.
pub open spec fn dead(stack: Seq<FrameView>) -> bool {
    exists|i: int| 0 <= i < stack.len() && #[trigger] stack[i] is Dead
}

/// The document is finished: only the frame below it is left.
pub open spec fn at_end(stack: Seq<FrameView>) -> bool {
    stack.len() == 1 && stack[0] is DocEnd
}

/// The stack with a number on top ended, where the number meets its schema; `None` where it
/// does not.
pub open spec fn end_number(t: Seq<SchemaView>, stack: Seq<FrameView>) -> Option<Seq<FrameView>> {
    if stack.len() > 0 && stack.last() is Num {
        match stack.last() {
            FrameView::Num { si, buf, st } => if numbers::number_ok(t[si as int], buf, st) {
                Some(stack.drop_last())
            } else {
                None
            },
            _ => None,
        }
    } else {
        Some(stack)
    }
}

/// The bytes read so far are a whole document.
pub open spec fn complete(t: Seq<SchemaView>, stack: Seq<FrameView>) -> bool {
    !dead(stack) && (end_number(t, stack) matches Some(s) && at_end(s))
}

/// The stack before the first byte of a document of schema `root`.
pub open spec fn start_stack(root: u32) -> Seq<FrameView> {
    seq![FrameView::DocEnd, FrameView::Value { si: root }]
}

} // verus!
