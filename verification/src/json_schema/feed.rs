//! Feeding bytes to the machine.

use vstd::prelude::*;

use crate::json_schema::ascii;
use crate::json_schema::ascii::{
    CLOSE_BRACE, CLOSE_BRACKET, COLON, COMMA, LOWER_A, LOWER_E, LOWER_F, LOWER_L, LOWER_N, LOWER_R,
    LOWER_S, LOWER_T, LOWER_U, OPEN_BRACE, OPEN_BRACKET, QUOTE,
};
use crate::json_schema::bytes;
use crate::json_schema::machine;
use crate::json_schema::machine::{ArrPhase, Frame, FrameView, ObjPhase, React, Reaction};
use crate::json_schema::numbers;
use crate::json_schema::numbers::NumState;
use crate::json_schema::roll::Roll;
use crate::json_schema::schema;
use crate::json_schema::schema::{Schema, Ty};
use crate::json_schema::state::Machine;
use crate::json_schema::strings;
use crate::json_schema::strings::{Step, StrState};

verus! {

/// The frames of a reaction are well formed.
pub open spec fn react_wf(r: React, n: nat) -> bool {
    match r {
        React::Keep(f) => machine::frame_wf(f, n),
        React::Open(f, g) => machine::frame_wf(f, n) && machine::frame_wf(g, n),
        React::AgainWith(f, g) => machine::frame_wf(f, n) && machine::frame_wf(g, n),
        _ => true,
    }
}

fn number_frame(si: u32, b: u8) -> (r: Option<Frame>)
    ensures
        machine::new_number(si, b) is None ==> r is None,
        machine::new_number(si, b) matches Some(f) ==> r is Some && r->0@ == f,
{
    match numbers::num_start(b) {
        Some((st, buf)) => Some(Frame::Num { si, buf, st }),
        None => None,
    }
}

fn literal_frame(booleans: bool, null: bool, b: u8) -> (r: Option<Frame>)
    ensures
        machine::new_literal(booleans, null, b) is None ==> r is None,
        machine::new_literal(booleans, null, b) matches Some(f) ==> r is Some && r->0@ == f,
{
    if booleans && b == LOWER_T {
        let rest: Vec<u8> = vec![LOWER_R, LOWER_U, LOWER_E];
        assert(rest@ =~= machine::rest_of_true());
        Some(Frame::Lit { rest })
    } else if booleans && b == LOWER_F {
        let rest: Vec<u8> = vec![LOWER_A, LOWER_L, LOWER_S, LOWER_E];
        assert(rest@ =~= machine::rest_of_false());
        Some(Frame::Lit { rest })
    } else if null && b == LOWER_N {
        let rest: Vec<u8> = vec![LOWER_U, LOWER_L, LOWER_L];
        assert(rest@ =~= machine::rest_of_null());
        Some(Frame::Lit { rest })
    } else {
        None
    }
}

fn object_frame(si: u32) -> (f: Frame)
    ensures
        f@ == machine::new_object(si),
{
    let f = Frame::Obj { si, phase: ObjPhase::KeyOrEnd, seen: Vec::new(), extra: Vec::new() };
    assert(f@ =~= machine::new_object(si));
    f
}

/// The frame that starts a value of schema `s` on byte `b`; `None` where no such value starts
/// with `b`.
pub fn value_start(s: &Schema, si: u32, b: u8) -> (r: Option<Frame>)
    ensures
        machine::start_of_value(s@, si, b) is None ==> r is None,
        machine::start_of_value(s@, si, b) matches Some(f) ==> r is Some && r->0@ == f,
{
    let array = Frame::Arr { si, n: 0, phase: ArrPhase::ItemOrEnd };
    match s.ty {
        Ty::Object => if b == OPEN_BRACE {
            Some(object_frame(si))
        } else {
            None
        },
        Ty::Array => if b == OPEN_BRACKET {
            Some(array)
        } else {
            None
        },
        Ty::String => if b == QUOTE {
            Some(Frame::Str { si, st: StrState::new() })
        } else {
            None
        },
        Ty::Integer | Ty::Number => number_frame(si, b),
        Ty::Boolean => literal_frame(true, false, b),
        Ty::Null => literal_frame(false, true, b),
        Ty::Any => if b == QUOTE {
            if s.has_enum && s.enum_str.len() == 0 {
                None
            } else {
                Some(Frame::Str { si, st: StrState::new() })
            }
        } else if s.has_enum {
            if s.enum_int.len() == 0 {
                None
            } else {
                number_frame(si, b)
            }
        } else if b == OPEN_BRACE {
            Some(object_frame(si))
        } else if b == OPEN_BRACKET {
            Some(array)
        } else if b == LOWER_T || b == LOWER_F || b == LOWER_N {
            literal_frame(true, true, b)
        } else {
            number_frame(si, b)
        },
    }
}

/// True when every required property of `s` has been read.
pub fn required_satisfied(s: &Schema, seen: &Vec<u32>) -> (r: bool)
    ensures
        r == machine::required_met(s@, seen@),
{
    let mut i: usize = 0;
    while i < s.required.len()
        invariant
            i <= s.required.len(),
            forall|k: int| 0 <= k < i ==> seen@.contains(#[trigger] s.required@[k]),
        decreases s.required.len() - i,
    {
        if !bytes::contains_u32(seen, s.required[i]) {
            assert(!seen@.contains(s@.required[i as int]));
            return false;
        }
        i += 1;
    }
    true
}

fn prefix_in(list: &Vec<Vec<u8>>, dec: &Vec<u8>) -> (r: bool)
    ensures
        r == machine::prefix_listed(schema::byte_lists(list@), dec@),
{
    let ghost views = schema::byte_lists(list@);
    let mut i: usize = 0;
    while i < list.len()
        invariant
            i <= list.len(),
            views == schema::byte_lists(list@),
            forall|k: int| 0 <= k < i ==> !dec@.is_prefix_of(#[trigger] views[k]),
        decreases list.len() - i,
    {
        assert(views[i as int] == list@[i as int]@);
        if bytes::starts_with(&list[i], dec) {
            return true;
        }
        i += 1;
    }
    false
}

/// Checks a string against the constraints of `s`. `closing`: the closing quote was read.
pub fn str_value_ok(s: &Schema, st: &StrState, closing: bool) -> (r: bool)
    ensures
        closing ==> r == machine::string_closed_ok(s@, st@),
        !closing ==> r == machine::string_open_ok(s@, st@),
{
    if let Some(mx) = s.max_len {
        if st.cp as u64 > mx {
            return false;
        }
    }
    if closing {
        if !st.is_closed_interior() {
            return false;
        }
        if let Some(mn) = s.min_len {
            if (st.cp as u64) < mn {
                return false;
            }
        }
        s.enum_str.len() == 0 || bytes::contains_bytes(&s.enum_str, &st.dec)
    } else {
        s.enum_str.len() == 0 || prefix_in(&s.enum_str, &st.dec)
    }
}

/// True when a key that starts with `dec` can still be admitted by `s`.
pub fn key_prefix_ok(s: &Schema, dec: &Vec<u8>) -> (r: bool)
    ensures
        r == machine::key_open_ok(s@, dec@),
{
    if s.additional {
        return true;
    }
    let ghost props = s@.props;
    let mut i: usize = 0;
    while i < s.props.len()
        invariant
            i <= s.props.len(),
            props == s@.props,
            forall|k: int| 0 <= k < i ==> !dec@.is_prefix_of((#[trigger] props[k]).0),
        decreases s.props.len() - i,
    {
        assert(props[i as int].0 == s.props@[i as int].0@);
        if bytes::starts_with(&s.props[i].0, dec) {
            return true;
        }
        i += 1;
    }
    false
}

/// Index of the property named `key`.
fn prop_position(s: &Schema, key: &Vec<u8>) -> (r: Option<usize>)
    ensures
        machine::find_prop(s@.props, key@, 0) is None ==> r is None,
        machine::find_prop(s@.props, key@, 0) matches Some(i) ==> r is Some && r->0 == i && i
            < s.props.len(),
{
    let mut i: usize = 0;
    while i < s.props.len()
        invariant
            i <= s.props.len(),
            machine::find_prop(s@.props, key@, 0) == machine::find_prop(s@.props, key@, i as int),
        decreases s.props.len() - i,
    {
        assert(s@.props[i as int].0 == s.props@[i as int].0@);
        if bytes::same_bytes(&s.props[i].0, key) {
            return Some(i);
        }
        i += 1;
    }
    None
}

fn closed_key(
    s: &Schema,
    si: u32,
    key: Vec<u8>,
    mut seen: Vec<u32>,
    mut extra: Vec<Vec<u8>>,
    Ghost(n): Ghost<nat>,
) -> (r: Reaction)
    requires
        machine::schema_wf(s@, n),
        si < n,
        n > 0,
    ensures
        r@ == machine::close_key(s@, si, key@, seen@, schema::byte_lists(extra@)),
        react_wf(r@, n),
{
    match prop_position(s, &key) {
        Some(i) => {
            assert(s@.props[i as int] == (s.props@[i as int].0@, s.props@[i as int].1));
            if bytes::contains_u32(&seen, i as u32) {
                return Reaction::Fail;
            }
            let ghost before = seen@;
            seen.push(i as u32);
            let child: u32 = s.props[i].1;
            Reaction::Keep(Frame::Obj { si, phase: ObjPhase::Colon { child }, seen, extra })
        },
        None => {
            if !s.additional || bytes::contains_bytes(&extra, &key) {
                return Reaction::Fail;
            }
            let ghost before = schema::byte_lists(extra@);
            let ghost k = key@;
            extra.push(key);
            assert(schema::byte_lists(extra@) =~= before.push(k));
            Reaction::Keep(Frame::Obj { si, phase: ObjPhase::Colon { child: 0 }, seen, extra })
        },
    }
}

fn react_obj(
    s: &Schema,
    si: u32,
    phase: ObjPhase,
    seen: Vec<u32>,
    extra: Vec<Vec<u8>>,
    b: u8,
    Ghost(n): Ghost<nat>,
) -> (r: Reaction)
    requires
        machine::schema_wf(s@, n),
        si < n,
        machine::frame_wf(
            (FrameView::Obj { si, phase: phase@, seen: seen@, extra: schema::byte_lists(extra@) }),
            n,
        ),
    ensures
        r@ == machine::object_react(s@, si, phase@, seen@, schema::byte_lists(extra@), b),
        react_wf(r@, n),
{
    match phase {
        ObjPhase::KeyOrEnd => if ascii::is_ws(b) {
            Reaction::Keep(Frame::Obj { si, phase: ObjPhase::KeyOrEnd, seen, extra })
        } else if b == CLOSE_BRACE {
            if required_satisfied(s, &seen) {
                Reaction::Close
            } else {
                Reaction::Fail
            }
        } else if b == QUOTE {
            Reaction::Keep(Frame::Obj { si, phase: ObjPhase::Key(StrState::new()), seen, extra })
        } else {
            Reaction::Fail
        },
        ObjPhase::KeyReq => if ascii::is_ws(b) {
            Reaction::Keep(Frame::Obj { si, phase: ObjPhase::KeyReq, seen, extra })
        } else if b == QUOTE {
            Reaction::Keep(Frame::Obj { si, phase: ObjPhase::Key(StrState::new()), seen, extra })
        } else {
            Reaction::Fail
        },
        ObjPhase::Key(mut st) => match strings::str_advance(&mut st, b, true) {
            Step::Open => if key_prefix_ok(s, &st.dec) {
                Reaction::Keep(Frame::Obj { si, phase: ObjPhase::Key(st), seen, extra })
            } else {
                Reaction::Fail
            },
            Step::Closed => if st.is_closed_interior() {
                closed_key(s, si, st.dec, seen, extra, Ghost(n))
            } else {
                Reaction::Fail
            },
            Step::Bad => Reaction::Fail,
        },
        ObjPhase::Colon { child } => if ascii::is_ws(b) {
            Reaction::Keep(Frame::Obj { si, phase: ObjPhase::Colon { child }, seen, extra })
        } else if b == COLON {
            Reaction::Open(
                Frame::Obj { si, phase: ObjPhase::AfterValue, seen, extra },
                Frame::Value { si: child },
            )
        } else {
            Reaction::Fail
        },
        ObjPhase::AfterValue => if ascii::is_ws(b) {
            Reaction::Keep(Frame::Obj { si, phase: ObjPhase::AfterValue, seen, extra })
        } else if b == COMMA {
            Reaction::Keep(Frame::Obj { si, phase: ObjPhase::KeyReq, seen, extra })
        } else if b == CLOSE_BRACE && required_satisfied(s, &seen) {
            Reaction::Close
        } else {
            Reaction::Fail
        },
    }
}

fn react_arr(s: &Schema, si: u32, n: u64, phase: ArrPhase, b: u8) -> (r: Reaction)
    ensures
        r@ == machine::array_react(s@, si, n, phase, b),
{
    if ascii::is_ws(b) {
        return Reaction::Keep(Frame::Arr { si, n, phase });
    }
    let enough = match s.min_items {
        Some(m) => n >= m,
        None => true,
    };
    match phase {
        ArrPhase::AfterItem => if b == COMMA {
            Reaction::Keep(Frame::Arr { si, n, phase: ArrPhase::ItemReq })
        } else if b == CLOSE_BRACKET && enough {
            Reaction::Close
        } else {
            Reaction::Fail
        },
        ArrPhase::ItemOrEnd | ArrPhase::ItemReq => {
            if b == CLOSE_BRACKET {
                return if phase == ArrPhase::ItemOrEnd && enough {
                    Reaction::Close
                } else {
                    Reaction::Fail
                };
            }
            if let Some(mx) = s.max_items {
                if n >= mx {
                    return Reaction::Fail;
                }
            }
            if n == u64::MAX {
                return Reaction::Fail;
            }
            let item: u32 = match s.items {
                Some(c) => c,
                None => 0,
            };
            Reaction::AgainWith(
                Frame::Arr { si, n: n + 1, phase: ArrPhase::AfterItem },
                Frame::Value { si: item },
            )
        },
    }
}

fn react_str(s: &Schema, si: u32, mut st: StrState, b: u8) -> (r: Reaction)
    requires
        strings::str_wf(st@),
    ensures
        r@ == machine::string_react(s@, si, st@, b),
        r@ matches React::Keep(f) ==> (f matches FrameView::Str { si: i, st: next } && i == si
            && strings::str_wf(next)),
{
    let keep = s.enum_str.len() != 0;
    match strings::str_advance(&mut st, b, keep) {
        Step::Open => if str_value_ok(s, &st, false) {
            Reaction::Keep(Frame::Str { si, st })
        } else {
            Reaction::Fail
        },
        Step::Closed => if str_value_ok(s, &st, true) {
            Reaction::Close
        } else {
            Reaction::Fail
        },
        Step::Bad => Reaction::Fail,
    }
}

fn react_lit(mut rest: Vec<u8>, b: u8) -> (r: Reaction)
    ensures
        r@ == machine::literal_react(rest@, b),
{
    if rest.len() == 0 || rest[0] != b {
        Reaction::Fail
    } else if rest.len() == 1 {
        Reaction::Close
    } else {
        let ghost before = rest@;
        rest.remove(0);
        assert(rest@ =~= before.drop_first());
        Reaction::Keep(Frame::Lit { rest })
    }
}

fn react_num(s: &Schema, si: u32, mut buf: Vec<u8>, st: NumState, b: u8) -> (r: Reaction)
    requires
        numbers::num_run(buf@) == Some(st),
    ensures
        r@ == machine::number_react(s@, si, buf@, st, b),
        r@ matches React::Keep(f) ==> (f matches FrameView::Num { si: i, buf: t, st: next } && i
            == si && numbers::num_run(t) == Some(next)),
{
    match numbers::num_advance(st, b) {
        Some(next) => {
            let ghost before = buf@;
            buf.push(b);
            assert(buf@.drop_last() =~= before);
            assert(before.len() > 0);
            Reaction::Keep(Frame::Num { si, buf, st: next })
        },
        None => if numbers::num_ok(s, &buf, st) {
            Reaction::Again
        } else {
            Reaction::Fail
        },
    }
}

/// What the frame `top` does with byte `b`.
pub fn react(schemas: &Vec<Schema>, top: Frame, b: u8) -> (r: Reaction)
    requires
        machine::table_wf(schema::table_view(schemas@)),
        machine::frame_wf(top@, schemas@.len()),
    ensures
        r@ == machine::react(schema::table_view(schemas@), top@, b),
        react_wf(r@, schemas@.len()),
{
    reveal(machine::react);
    let ghost t = schema::table_view(schemas@);
    let ghost n = schemas@.len();
    assert(t.len() == n);
    assert(forall|i: int| 0 <= i < n ==> machine::schema_wf(#[trigger] t[i], n));
    match top {
        Frame::Dead => Reaction::Fail,
        Frame::DocEnd => if ascii::is_ws(b) {
            Reaction::Keep(Frame::DocEnd)
        } else {
            Reaction::Fail
        },
        Frame::Value { si } => if ascii::is_ws(b) {
            Reaction::Keep(Frame::Value { si })
        } else {
            assert(t[si as int] == schemas@[si as int]@);
            match value_start(&schemas[si as usize], si, b) {
                Some(f) => {
                    assert(f@ is Num ==> numbers::num_run(f@->buf) == Some(f@->Num_st)) by {
                        reveal_with_fuel(numbers::num_run, 2);
                    }
                    Reaction::Keep(f)
                },
                None => Reaction::Fail,
            }
        },
        Frame::Obj { si, phase, seen, extra } => {
            assert(t[si as int] == schemas@[si as int]@);
            react_obj(&schemas[si as usize], si, phase, seen, extra, b, Ghost(n))
        },
        Frame::Arr { si, n, phase } => {
            assert(t[si as int] == schemas@[si as int]@);
            react_arr(&schemas[si as usize], si, n, phase, b)
        },
        Frame::Str { si, st } => {
            assert(t[si as int] == schemas@[si as int]@);
            react_str(&schemas[si as usize], si, st, b)
        },
        Frame::Lit { rest } => react_lit(rest, b),
        Frame::Num { si, buf, st } => {
            assert(t[si as int] == schemas@[si as int]@);
            react_num(&schemas[si as usize], si, buf, st, b)
        },
    }
}

proof fn lemma_log_kept(roll: Roll, orig: Seq<FrameView>, cur: Seq<FrameView>, longer: Seq<FrameView>)
    requires
        roll.logs() ==> roll.covers(orig, cur),
        cur.len() <= longer.len(),
        forall|j: int| 0 <= j < cur.len() ==> #[trigger] longer[j] == cur[j],
    ensures
        roll.logs() ==> roll.covers(orig, longer),
{
    if roll.logs() {
        roll.lemma_covers_longer(orig, cur, longer);
    }
}

/// Feeds one byte. True when a live machine took the byte; false when it was refused, which
/// leaves a dead frame on top.
pub fn feed(schemas: &Vec<Schema>, m: &mut Machine, b: u8, roll: &mut Roll) -> (alive: bool)
    requires
        machine::table_wf(schema::table_view(schemas@)),
        machine::stack_wf(old(m)@, schemas@.len()),
        old(roll).logs() ==> old(roll).covers(old(m)@, old(m)@),
    ensures
        machine::feed(schema::table_view(schemas@), old(m)@, b) == (final(m)@, alive),
        machine::stack_wf(final(m)@, schemas@.len()),
        final(roll).logs() == old(roll).logs(),
        old(roll).logs() ==> final(roll).covers(old(m)@, final(m)@),
{
    let ghost t = schema::table_view(schemas@);
    let ghost n = schemas@.len();
    let ghost orig = m@;
    loop
        invariant
            t == schema::table_view(schemas@),
            n == schemas@.len(),
            machine::table_wf(t),
            machine::stack_wf(m@, n),
            roll.logs() == old(roll).logs(),
            roll.logs() ==> roll.covers(orig, m@),
            orig == old(m)@,
            machine::feed(t, orig, b) == machine::feed(t, m@, b),
        decreases machine::feed_rank(m@),
    {
        let ghost cur = m@;
        let top = match m.stack.pop() {
            None => {
                m.stack.push(Frame::Dead);
                assert(m@ =~= seq![FrameView::Dead]);
                proof {
                    lemma_log_kept(*roll, orig, cur, m@);
                }
                return false;
            },
            Some(top) => top,
        };
        let idx: usize = m.stack.len();
        let ghost below = m@;
        assert(below =~= cur.drop_last());
        assert(cur[idx as int] == top@);
        assert(cur.last() == top@);
        assert(machine::frame_wf(top@, n));
        assert(forall|i: int| 0 <= i < below.len() ==> #[trigger] below[i] == cur[i]);
        roll.note_pop(idx, &top);
        assert(roll.logs() ==> roll.covers(orig, below)) by {
            if roll.logs() {
                assert(roll.covers(orig, cur.drop_last()));
            }
        }
        proof {
            machine::lemma_react_rank(t, top@, b);
        }
        match react(schemas, top, b) {
            Reaction::Keep(f) => {
                m.stack.push(f);
                assert(m@ =~= below.push(f@));
                proof {
                    lemma_log_kept(*roll, orig, below, m@);
                }
                return true;
            },
            Reaction::Open(f, g) => {
                m.stack.push(f);
                m.stack.push(g);
                assert(m@ =~= below.push(f@).push(g@));
                proof {
                    lemma_log_kept(*roll, orig, below, m@);
                }
                return true;
            },
            Reaction::Close => {
                return true;
            },
            Reaction::Again => {},
            Reaction::AgainWith(f, g) => {
                m.stack.push(f);
                m.stack.push(g);
                assert(m@ =~= below.push(f@).push(g@));
                proof {
                    lemma_log_kept(*roll, orig, below, m@);
                }
            },
            Reaction::Fail => {
                m.stack.push(Frame::Dead);
                assert(m@ =~= below.push(FrameView::Dead));
                proof {
                    lemma_log_kept(*roll, orig, below, m@);
                }
                return false;
            },
        }
    }
}

/// Ends a number on top of the stack, where there is one; false when it does not meet its schema.
pub fn finalize_pending_number(schemas: &Vec<Schema>, m: &mut Machine) -> (ok: bool)
    requires
        machine::table_wf(schema::table_view(schemas@)),
        machine::stack_wf(old(m)@, schemas@.len()),
    ensures
        ok == (machine::end_number(schema::table_view(schemas@), old(m)@) is Some),
        ok ==> machine::end_number(schema::table_view(schemas@), old(m)@) == Some(final(m)@),
{
    let len: usize = m.stack.len();
    if len == 0 {
        return true;
    }
    assert(m@.last() == m.stack@[len - 1]@);
    let ok = match &m.stack[len - 1] {
        Frame::Num { si, buf, st } => {
            assert(machine::frame_wf(m@[len - 1], schemas@.len()));
            numbers::num_ok(&schemas[*si as usize], buf, *st)
        },
        _ => {
            return true;
        },
    };
    if ok {
        let ghost before = m@;
        m.stack.pop();
        assert(m@ =~= before.drop_last());
    }
    ok
}

} // verus!
