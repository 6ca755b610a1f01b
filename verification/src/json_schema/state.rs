//! Machine states: copies and equality of frames and stacks.

use vstd::prelude::*;

use crate::json_schema::bytes;
use crate::json_schema::machine;
use crate::json_schema::machine::{Frame, FrameView, ObjPhase};
use crate::json_schema::strings::StrState;

verus! {

impl ObjPhase {
    fn duplicate(&self) -> (r: ObjPhase)
        ensures
            r@ == self@,
    {
        match self {
            ObjPhase::KeyOrEnd => ObjPhase::KeyOrEnd,
            ObjPhase::KeyReq => ObjPhase::KeyReq,
            ObjPhase::Key(st) => ObjPhase::Key(st.duplicate()),
            ObjPhase::Colon { child } => ObjPhase::Colon { child: *child },
            ObjPhase::AfterValue => ObjPhase::AfterValue,
        }
    }

    fn same(&self, other: &ObjPhase) -> (r: bool)
        ensures
            r == (self@ == other@),
    {
        match (self, other) {
            (ObjPhase::KeyOrEnd, ObjPhase::KeyOrEnd) => true,
            (ObjPhase::KeyReq, ObjPhase::KeyReq) => true,
            (ObjPhase::Key(a), ObjPhase::Key(b)) => same_string(a, b),
            (ObjPhase::Colon { child: a }, ObjPhase::Colon { child: b }) => *a == *b,
            (ObjPhase::AfterValue, ObjPhase::AfterValue) => true,
            _ => false,
        }
    }
}

fn same_string(a: &StrState, b: &StrState) -> (r: bool)
    ensures
        r == (a@ == b@),
{
    a.esc == b.esc && a.cp == b.cp && bytes::same_bytes(&a.dec, &b.dec) && bytes::same_bytes(
        &a.pend,
        &b.pend,
    )
}

impl Frame {
    /// A copy in the same state.
    pub fn duplicate(&self) -> (r: Frame)
        ensures
            r@ == self@,
    {
        match self {
            Frame::DocEnd => Frame::DocEnd,
            Frame::Dead => Frame::Dead,
            Frame::Value { si } => Frame::Value { si: *si },
            Frame::Obj { si, phase, seen, extra } => Frame::Obj {
                si: *si,
                phase: phase.duplicate(),
                seen: seen.clone(),
                extra: bytes::copy_lists(extra),
            },
            Frame::Arr { si, n, phase } => Frame::Arr { si: *si, n: *n, phase: *phase },
            Frame::Str { si, st } => Frame::Str { si: *si, st: st.duplicate() },
            Frame::Lit { rest } => Frame::Lit { rest: rest.clone() },
            Frame::Num { si, buf, st } => Frame::Num { si: *si, buf: buf.clone(), st: *st },
        }
    }

    /// True when the two frames are in the same state.
    pub fn same(&self, other: &Frame) -> (r: bool)
        ensures
            r == (self@ == other@),
    {
        match (self, other) {
            (Frame::DocEnd, Frame::DocEnd) => true,
            (Frame::Dead, Frame::Dead) => true,
            (Frame::Value { si: a }, Frame::Value { si: b }) => *a == *b,
            (
                Frame::Obj { si: a, phase: p, seen: s, extra: e },
                Frame::Obj { si: b, phase: q, seen: t, extra: f },
            ) => *a == *b && p.same(q) && bytes::same_u32s(s, t) && bytes::same_lists(e, f),
            (Frame::Arr { si: a, n: m, phase: p }, Frame::Arr { si: b, n: k, phase: q }) => *a == *b
                && *m == *k && *p == *q,
            (Frame::Str { si: a, st: s }, Frame::Str { si: b, st: t }) => *a == *b && same_string(
                s,
                t,
            ),
            (Frame::Lit { rest: a }, Frame::Lit { rest: b }) => bytes::same_bytes(a, b),
            (Frame::Num { si: a, buf: s, st: p }, Frame::Num { si: b, buf: t, st: q }) => *a == *b
                && *p == *q && bytes::same_bytes(s, t),
            _ => false,
        }
    }
}

/// A machine state: a stack of continuation frames.
#[derive(Debug)]
pub struct Machine {
    pub stack: Vec<Frame>,
}

impl View for Machine {
    type V = Seq<FrameView>;

    open spec fn view(&self) -> Seq<FrameView> {
        machine::stack_view(self.stack@)
    }
}

impl Machine {
    /// True when some frame is dead.
    pub fn is_dead(&self) -> (r: bool)
        ensures
            r == machine::dead(self@),
    {
        let mut i: usize = 0;
        while i < self.stack.len()
            invariant
                i <= self.stack.len(),
                forall|k: int| 0 <= k < i ==> !(#[trigger] self@[k] is Dead),
            decreases self.stack.len() - i,
        {
            assert(self@[i as int] == self.stack@[i as int]@);
            if matches!(self.stack[i], Frame::Dead) {
                assert(self@[i as int] is Dead);
                return true;
            }
            i += 1;
        }
        false
    }

    /// True when only the frame below the document is left.
    pub fn at_doc_end(&self) -> (r: bool)
        ensures
            r == machine::at_end(self@),
    {
        self.stack.len() == 1 && matches!(self.stack[0], Frame::DocEnd)
    }

    pub fn duplicate(&self) -> (r: Machine)
        ensures
            r@ == self@,
    {
        let mut stack: Vec<Frame> = Vec::new();
        let mut i: usize = 0;
        while i < self.stack.len()
            invariant
                i <= self.stack.len(),
                stack.len() == i,
                forall|k: int| 0 <= k < i ==> (#[trigger] stack@[k])@ == self.stack@[k]@,
            decreases self.stack.len() - i,
        {
            stack.push(self.stack[i].duplicate());
            i += 1;
        }
        let r = Machine { stack };
        assert(r@ =~= self@);
        r
    }

    pub fn same(&self, other: &Machine) -> (r: bool)
        ensures
            r == (self@ == other@),
    {
        if self.stack.len() != other.stack.len() {
            assert(self@.len() != other@.len());
            return false;
        }
        let mut i: usize = 0;
        while i < self.stack.len()
            invariant
                i <= self.stack.len(),
                self.stack.len() == other.stack.len(),
                forall|k: int| 0 <= k < i ==> (#[trigger] self.stack@[k])@ == other.stack@[k]@,
            decreases self.stack.len() - i,
        {
            if !self.stack[i].same(&other.stack[i]) {
                assert(self@[i as int] != other@[i as int]);
                return false;
            }
            i += 1;
        }
        assert(self@ =~= other@);
        true
    }
}

} // verus!
