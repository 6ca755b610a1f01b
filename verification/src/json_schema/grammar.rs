//! The texts that a schema admits, as a grammar, and the proof that the machine accepts exactly
//! these.

use vstd::prelude::*;
use vstd::utf8::*;

use crate::json_schema::ascii;
use crate::json_schema::ascii::{
    CLOSE_BRACE, CLOSE_BRACKET, COLON, COMMA, LOWER_A, LOWER_E, LOWER_F, LOWER_L, LOWER_N, LOWER_R,
    LOWER_S, LOWER_T, LOWER_U, OPEN_BRACE, OPEN_BRACKET, QUOTE,
};
use crate::json_schema::double;
use crate::json_schema::feed;
use crate::json_schema::machine;
use crate::json_schema::machine::{ArrPhase, FrameView, PhaseView, React};
use crate::json_schema::number_grammar;
use crate::json_schema::numbers;
use crate::json_schema::numbers::NumState;
use crate::json_schema::schema::SchemaView;
use crate::json_schema::string_grammar;
use crate::json_schema::string_grammar::{spells, str_run};
use crate::json_schema::strings;
use crate::json_schema::strings::{StrStep, StrView};

verus! {

pub open spec fn all_ws(w: Seq<u8>) -> bool {
    forall|i: int| 0 <= i < w.len() ==> ascii::ws(#[trigger] w[i])
}

/// A string of these characters meets the schema: its length is within the bounds, and it is
/// listed where strings are listed. A string of more than `u32::MAX` characters meets none.
pub open spec fn string_meets(s: SchemaView, cs: Seq<char>) -> bool {
    &&& cs.len() <= u32::MAX
    &&& (s.max_len matches Some(m) ==> cs.len() <= m)
    &&& (s.min_len matches Some(m) ==> m <= cs.len())
    &&& (s.enum_str.len() > 0 ==> s.enum_str.contains(encode_utf8(cs)))
}

/// `w` is a string that meets the schema, with its quotes.
pub open spec fn string_value(s: SchemaView, w: Seq<u8>) -> bool {
    &&& w.len() >= 2
    &&& w[0] == QUOTE
    &&& w.last() == QUOTE
    &&& exists|cs: Seq<char>| #[trigger]
        spells(w.subrange(1, w.len() - 1), cs) && string_meets(s, cs)
}

/// `w` is the rest of a string in state `st`, with its closing quote, and the whole string meets
/// the schema.
pub open spec fn string_rest(s: SchemaView, st: StrView, w: Seq<u8>) -> bool {
    &&& w.len() > 0
    &&& w.last() == QUOTE
    &&& (str_run(st, w.drop_last(), s.enum_str.len() > 0) matches Some(end)
        && machine::string_closed_ok(s, end))
}

/// `text` is a number that meets the schema: a JSON number, an integer where the schema asks for
/// one, listed where values are listed, and within the bounds.
pub open spec fn number_value(s: SchemaView, text: Seq<u8>) -> bool {
    &&& numbers::json_number(text)
    &&& (s.ty is Integer ==> numbers::integer_text(text))
    &&& (s.has_enum ==> numbers::number_listed(s.enum_int, text))
    &&& (double::decimal_value(text) matches Some(v) && numbers::in_bounds(s, v))
}

/// Strings may meet the schema: by its type, or, without a type, unless only integers are listed.
pub open spec fn takes_strings(s: SchemaView) -> bool {
    s.ty is String || (s.ty is Any && (s.has_enum ==> s.enum_str.len() > 0))
}

/// Numbers may meet the schema: by its type, or, without a type, unless only strings are listed.
pub open spec fn takes_numbers(s: SchemaView) -> bool {
    s.ty is Integer || s.ty is Number || (s.ty is Any && (s.has_enum ==> s.enum_int.len() > 0))
}

/// The schema admits values of every type.
pub open spec fn takes_all(s: SchemaView) -> bool {
    s.ty is Any && !s.has_enum
}

pub open spec fn true_text() -> Seq<u8> {
    seq![LOWER_T, LOWER_R, LOWER_U, LOWER_E]
}

pub open spec fn false_text() -> Seq<u8> {
    seq![LOWER_F, LOWER_A, LOWER_L, LOWER_S, LOWER_E]
}

pub open spec fn null_text() -> Seq<u8> {
    seq![LOWER_N, LOWER_U, LOWER_L, LOWER_L]
}

/// `w` is a value of schema `si`.
pub open spec fn value(t: Seq<SchemaView>, si: u32, w: Seq<u8>) -> bool
    decreases w.len(), 0int,
{
    let s = t[si as int];
    w.len() > 0 && {
        ||| takes_strings(s) && string_value(s, w)
        ||| takes_numbers(s) && number_value(s, w)
        ||| (s.ty is Boolean || takes_all(s)) && (w == true_text() || w == false_text())
        ||| (s.ty is Null || takes_all(s)) && w == null_text()
        ||| (s.ty is Array || takes_all(s)) && w[0] == OPEN_BRACKET && items(
            t,
            s,
            0,
            false,
            w.drop_first(),
        )
        ||| (s.ty is Object || takes_all(s)) && w[0] == OPEN_BRACE && members(
            t,
            s,
            si,
            Seq::empty(),
            Seq::empty(),
            false,
            w.drop_first(),
        )
    }
}

/// `w` is what the frame stands for that a value of schema `si` starts with.
spec fn started(t: Seq<SchemaView>, si: u32, w: Seq<u8>) -> bool {
    let s = t[si as int];
    w.len() > 0 && match machine::start_of_value(s, si, w[0]) {
        Some(FrameView::Str { .. }) => string_rest(s, StrView::start(), w.drop_first()),
        Some(FrameView::Num { .. }) => number_value(s, w),
        Some(FrameView::Lit { rest }) => w.drop_first() == rest,
        Some(FrameView::Arr { .. }) => items(t, s, 0, false, w.drop_first()),
        Some(FrameView::Obj { .. }) => members(
            t,
            s,
            si,
            Seq::empty(),
            Seq::empty(),
            false,
            w.drop_first(),
        ),
        _ => false,
    }
}

/// A number meets the schema where the machine says so at its end.
proof fn lemma_number_value(s: SchemaView, text: Seq<u8>)
    ensures
        number_value(s, text) == (numbers::num_run(text) matches Some(st) && numbers::number_ok(
            s,
            text,
            st,
        )),
{
    number_grammar::law_the_reader_takes_exactly_the_numbers(text);
    number_grammar::law_integers_end_in_their_states(text);
}

proof fn lemma_first_byte(w: Seq<u8>)
    requires
        numbers::num_run(w) is Some,
    ensures
        w.len() > 0,
        numbers::num_first(w[0]) is Some,
    decreases w.len(),
{
    if w.len() > 1 {
        lemma_first_byte(w.drop_last());
        assert(w.drop_last()[0] == w[0]);
    }
}

/// Behind its opening quote a string is the rest of the frame that it starts with.
proof fn lemma_string_value(s: SchemaView, w: Seq<u8>)
    requires
        w.len() > 0,
        w[0] == QUOTE,
    ensures
        string_value(s, w) == string_rest(s, StrView::start(), w.drop_first()),
{
    let rest = w.drop_first();
    let keep = s.enum_str.len() > 0;
    if w.len() >= 2 {
        let body = w.subrange(1, w.len() - 1);
        assert(rest.drop_last() =~= body);
        assert(rest.last() == w.last());
        string_grammar::law_the_reader_takes_exactly_the_spellings(body, keep);
        if string_value(s, w) {
            let cs = choose|cs: Seq<char>| #[trigger] spells(body, cs) && string_meets(s, cs);
            let end = string_grammar::grown(
                StrView::start(),
                cs.len() as int,
                encode_utf8(cs),
                keep,
            );
            assert(str_run(StrView::start(), body, keep) == Some(end));
            assert(keep ==> end.dec =~= encode_utf8(cs));
        }
        if string_rest(s, StrView::start(), rest) {
            let cs = choose|cs: Seq<char>| #[trigger] spells(body, cs) && cs.len() <= u32::MAX;
            let end = string_grammar::grown(
                StrView::start(),
                cs.len() as int,
                encode_utf8(cs),
                keep,
            );
            assert(str_run(StrView::start(), body, keep) == Some(end));
            assert(keep ==> end.dec =~= encode_utf8(cs));
            assert(string_meets(s, cs));
        }
    }
}

/// Behind its opening quote a key is the rest of the frame that it starts with.
proof fn lemma_named(
    t: Seq<SchemaView>,
    s: SchemaView,
    si: u32,
    seen: Seq<u32>,
    extra: Seq<Seq<u8>>,
    w: Seq<u8>,
)
    ensures
        named(t, s, si, seen, extra, w) == key_rest(t, s, si, StrView::start(), seen, extra, w),
{
    assert forall|k: int, cs: Seq<char>| #[trigger] spells(w.take(k), cs) && cs.len() <= u32::MAX
        && 0 <= k < w.len() implies (str_run(StrView::start(), w.take(k), true) matches Some(end)
        && end.closed_interior() && end.dec == encode_utf8(cs)) by {
        string_grammar::law_the_reader_takes_exactly_the_spellings(w.take(k), true);
        let end = string_grammar::grown(
            StrView::start(),
            cs.len() as int,
            encode_utf8(cs),
            true,
        );
        assert(end.dec =~= encode_utf8(cs));
    }
    if named(t, s, si, seen, extra, w) {
        let (k, cs) = choose|k: int, cs: Seq<char>|
            0 <= k < w.len() && w[k] == QUOTE && #[trigger] spells(w.take(k), cs) && cs.len()
                <= u32::MAX && match machine::close_key(s, si, encode_utf8(cs), seen, extra) {
                React::Keep(
                    FrameView::Obj {
                        phase: PhaseView::Colon { child },
                        seen: seen_now,
                        extra: extra_now,
                        ..
                    },
                ) => colon(t, s, si, child, seen_now, extra_now, w.skip(k + 1)),
                _ => false,
            };
        assert(w.take(k).len() == k);
    }
    if key_rest(t, s, si, StrView::start(), seen, extra, w) {
        let k = choose|k: int|
            #![trigger w.take(k)]
            0 <= k < w.len() && w[k] == QUOTE && (str_run(
                StrView::start(),
                w.take(k),
                true,
            ) matches Some(end) && end.closed_interior() && match machine::close_key(
                s,
                si,
                end.dec,
                seen,
                extra,
            ) {
                React::Keep(
                    FrameView::Obj {
                        phase: PhaseView::Colon { child },
                        seen: seen_now,
                        extra: extra_now,
                        ..
                    },
                ) => colon(t, s, si, child, seen_now, extra_now, w.skip(k + 1)),
                _ => false,
            });
        string_grammar::law_the_reader_takes_exactly_the_spellings(w.take(k), true);
        let cs = choose|cs: Seq<char>| #[trigger] spells(w.take(k), cs) && cs.len() <= u32::MAX;
        assert(spells(w.take(k), cs));
    }
}

/// The first byte of a value tells its kind.
proof fn lemma_value_starts(t: Seq<SchemaView>, si: u32, w: Seq<u8>)
    ensures
        value(t, si, w) == started(t, si, w),
{
    let s = t[si as int];
    if w.len() > 0 {
        lemma_number_value(s, w);
        if number_value(s, w) {
            lemma_first_byte(w);
        }
        if w[0] == QUOTE {
            lemma_string_value(s, w);
        }
        assert(true_text().drop_first() =~= machine::rest_of_true());
        assert(false_text().drop_first() =~= machine::rest_of_false());
        assert(null_text().drop_first() =~= machine::rest_of_null());
        assert(w =~= seq![w[0]] + w.drop_first());
        if w[0] == LOWER_T && w.drop_first() == machine::rest_of_true() {
            assert(w =~= true_text());
        }
        if w[0] == LOWER_F && w.drop_first() == machine::rest_of_false() {
            assert(w =~= false_text());
        }
        if w[0] == LOWER_N && w.drop_first() == machine::rest_of_null() {
            assert(w =~= null_text());
        }
    }
}

/// `w` is whitespace and a value of schema `si`.
pub open spec fn padded_value(t: Seq<SchemaView>, si: u32, w: Seq<u8>) -> bool
    decreases w.len(), 1int,
{
    w.len() > 0 && if ascii::ws(w[0]) {
        padded_value(t, si, w.drop_first())
    } else {
        value(t, si, w)
    }
}

/// `w` is the rest of an array of schema `s`, up to its bracket, behind `n` items and an opening
/// bracket or a comma. `must`: an item must follow.
pub open spec fn items(t: Seq<SchemaView>, s: SchemaView, n: u64, must: bool, w: Seq<u8>) -> bool
    decreases w.len(), 0int,
{
    w.len() > 0 && if ascii::ws(w[0]) {
        items(t, s, n, must, w.drop_first())
    } else if w[0] == CLOSE_BRACKET {
        w.len() == 1 && !must && machine::enough_items(s, n)
    } else {
        machine::room_for_item(s, n) && exists|k: int|
            #![trigger w.take(k)]
            0 < k < w.len() && value(t, machine::item_schema(s), w.take(k)) && after_item(
                t,
                s,
                (n + 1) as u64,
                w.skip(k),
            )
    }
}

/// `w` is the rest of an array behind its `n`-th item.
pub open spec fn after_item(t: Seq<SchemaView>, s: SchemaView, n: u64, w: Seq<u8>) -> bool
    decreases w.len(), 0int,
{
    w.len() > 0 && if ascii::ws(w[0]) {
        after_item(t, s, n, w.drop_first())
    } else if w[0] == COMMA {
        items(t, s, n, true, w.drop_first())
    } else {
        w.len() == 1 && w[0] == CLOSE_BRACKET && machine::enough_items(s, n)
    }
}

/// `w` is the rest of an object of schema `s`, up to its brace, behind an opening brace or a
/// comma. `seen` and `extra` are the keys so far; `must`: a key must follow.
pub open spec fn members(
    t: Seq<SchemaView>,
    s: SchemaView,
    si: u32,
    seen: Seq<u32>,
    extra: Seq<Seq<u8>>,
    must: bool,
    w: Seq<u8>,
) -> bool
    decreases w.len(), 0int,
{
    w.len() > 0 && if ascii::ws(w[0]) {
        members(t, s, si, seen, extra, must, w.drop_first())
    } else if w[0] == QUOTE {
        named(t, s, si, seen, extra, w.drop_first())
    } else {
        w.len() == 1 && w[0] == CLOSE_BRACE && !must && machine::required_met(s, seen)
    }
}

/// `w` is the rest of an object behind the opening quote of a key. The key must be admitted and
/// new.
pub open spec fn named(
    t: Seq<SchemaView>,
    s: SchemaView,
    si: u32,
    seen: Seq<u32>,
    extra: Seq<Seq<u8>>,
    w: Seq<u8>,
) -> bool
    decreases w.len(), 0int,
{
    exists|k: int, cs: Seq<char>|
        0 <= k < w.len() && w[k] == QUOTE && #[trigger] spells(w.take(k), cs) && cs.len()
            <= u32::MAX && match machine::close_key(s, si, encode_utf8(cs), seen, extra) {
            React::Keep(
                FrameView::Obj {
                    phase: PhaseView::Colon { child },
                    seen: seen_now,
                    extra: extra_now,
                    ..
                },
            ) => colon(t, s, si, child, seen_now, extra_now, w.skip(k + 1)),
            _ => false,
        }
}

/// `w` is the rest of an object inside a key in state `st`. The key must be admitted and new.
pub open spec fn key_rest(
    t: Seq<SchemaView>,
    s: SchemaView,
    si: u32,
    st: StrView,
    seen: Seq<u32>,
    extra: Seq<Seq<u8>>,
    w: Seq<u8>,
) -> bool
    decreases w.len(), 0int,
{
    exists|k: int|
        #![trigger w.take(k)]
        0 <= k < w.len() && w[k] == QUOTE && (str_run(st, w.take(k), true) matches Some(end)
            && end.closed_interior() && match machine::close_key(s, si, end.dec, seen, extra) {
            React::Keep(
                FrameView::Obj {
                    phase: PhaseView::Colon { child },
                    seen: seen_now,
                    extra: extra_now,
                    ..
                },
            ) => colon(t, s, si, child, seen_now, extra_now, w.skip(k + 1)),
            _ => false,
        })
}

/// `w` is the rest of an object behind a key whose value has schema `child`.
pub open spec fn colon(
    t: Seq<SchemaView>,
    s: SchemaView,
    si: u32,
    child: u32,
    seen: Seq<u32>,
    extra: Seq<Seq<u8>>,
    w: Seq<u8>,
) -> bool
    decreases w.len(), 0int,
{
    w.len() > 0 && if ascii::ws(w[0]) {
        colon(t, s, si, child, seen, extra, w.drop_first())
    } else {
        w[0] == COLON && exists|k: int|
            #![trigger w.drop_first().take(k)]
            0 < k < w.len() - 1 && padded_value(t, child, w.drop_first().take(k)) && after_value(
                t,
                s,
                si,
                seen,
                extra,
                w.drop_first().skip(k),
            )
    }
}

/// `w` is the rest of an object behind a member.
pub open spec fn after_value(
    t: Seq<SchemaView>,
    s: SchemaView,
    si: u32,
    seen: Seq<u32>,
    extra: Seq<Seq<u8>>,
    w: Seq<u8>,
) -> bool
    decreases w.len(), 0int,
{
    w.len() > 0 && if ascii::ws(w[0]) {
        after_value(t, s, si, seen, extra, w.drop_first())
    } else if w[0] == COMMA {
        members(t, s, si, seen, extra, true, w.drop_first())
    } else {
        w.len() == 1 && w[0] == CLOSE_BRACE && machine::required_met(s, seen)
    }
}

/// `text` is a document of schema `root`: whitespace, a value, whitespace.
pub open spec fn document(t: Seq<SchemaView>, root: u32, text: Seq<u8>) -> bool {
    exists|k: int|
        #![trigger text.take(k)]
        0 <= k <= text.len() && padded_value(t, root, text.take(k)) && all_ws(text.skip(k))
}

/// `w` is the rest of what frame `f` stands for.
#[verifier::opaque]
pub open spec fn frame_rest(t: Seq<SchemaView>, f: FrameView, w: Seq<u8>) -> bool {
    match f {
        FrameView::DocEnd => all_ws(w),
        FrameView::Dead => false,
        FrameView::Value { si } => padded_value(t, si, w),
        FrameView::Obj { si, phase, seen, extra } => match phase {
            PhaseView::KeyOrEnd => members(t, t[si as int], si, seen, extra, false, w),
            PhaseView::KeyReq => members(t, t[si as int], si, seen, extra, true, w),
            PhaseView::Key(st) => key_rest(t, t[si as int], si, st, seen, extra, w),
            PhaseView::Colon { child } => colon(t, t[si as int], si, child, seen, extra, w),
            PhaseView::AfterValue => after_value(t, t[si as int], si, seen, extra, w),
        },
        FrameView::Arr { si, n, phase } => match phase {
            ArrPhase::ItemOrEnd => items(t, t[si as int], n, false, w),
            ArrPhase::ItemReq => items(t, t[si as int], n, true, w),
            ArrPhase::AfterItem => after_item(t, t[si as int], n, w),
        },
        FrameView::Str { si, st } => string_rest(t[si as int], st, w),
        FrameView::Lit { rest } => rest.len() > 0 && w == rest,
        FrameView::Num { si, buf, .. } => number_value(t[si as int], buf + w),
    }
}

/// The machine takes `w` and the document is then finished.
pub open spec fn accepts(t: Seq<SchemaView>, stack: Seq<FrameView>, w: Seq<u8>) -> bool {
    machine::run(t, stack, w) matches Some(end) && machine::complete(t, end)
}

/// Frames stay well formed.
pub proof fn lemma_react_wf(t: Seq<SchemaView>, f: FrameView, b: u8)
    requires
        machine::table_wf(t),
        machine::frame_wf(f, t.len()),
    ensures
        feed::react_wf(machine::react(t, f, b), t.len()),
{
    reveal(machine::react);
    match f {
        FrameView::Value { si } => {
            reveal_with_fuel(numbers::num_run, 2);
        },
        FrameView::Obj { si, phase, seen, extra } => {
            assert(machine::schema_wf(t[si as int], t.len()));
            match phase {
                PhaseView::Key(st) => {
                    lemma_find_in_range(t[si as int].props, st.dec, 0);
                },
                _ => {},
            }
        },
        FrameView::Arr { si, .. } => {
            assert(machine::schema_wf(t[si as int], t.len()));
        },
        FrameView::Num { si, buf, st } => {
            assert(buf.push(b).drop_last() =~= buf);
        },
        _ => {},
    }
}

pub proof fn lemma_find_in_range(props: Seq<(Seq<u8>, u32)>, key: Seq<u8>, i: int)
    requires
        0 <= i,
    ensures
        machine::find_prop(props, key, i) matches Some(k) ==> i <= k < props.len() && props[k].0
            == key,
        machine::find_prop(props, key, i) is None ==> forall|k: int|
            i <= k < props.len() ==> (#[trigger] props[k]).0 != key,
    decreases props.len() - i,
{
    if i < props.len() && props[i].0 != key {
        lemma_find_in_range(props, key, i + 1);
    }
}

/// One byte and then `a` are the rest of `f`, where `a` is the rest of what `f` becomes.
proof fn lemma_keep(t: Seq<SchemaView>, f: FrameView, b: u8, g: FrameView, a: Seq<u8>)
    requires
        machine::react(t, f, b) == React::Keep(g),
        !(f is DocEnd),
        machine::frame_wf(f, t.len()),
        frame_rest(t, g, a),
    ensures
        frame_rest(t, f, seq![b] + a),
{
    reveal(machine::react);
    reveal(frame_rest);
    let w = seq![b] + a;
    assert(w.drop_first() =~= a);
    assert(w[0] == b);
    match f {
        FrameView::Value { si } => {
            if !ascii::ws(b) {
                assert(machine::start_of_value(t[si as int], si, b) == Some(g));
                lemma_value_starts(t, si, w);
                assert(started(t, si, w)) by {
                    match g {
                        FrameView::Num { .. } => {
                            assert(seq![b] + a =~= w);
                        },
                        _ => {},
                    }
                }
            }
        },
        FrameView::Obj { si, phase, seen, extra } => match phase {
            PhaseView::Key(st) => match strings::str_step(st, b, true) {
                StrStep::Open(next) => {
                    assert(key_rest(t, t[si as int], si, next, seen, extra, a));
                    let k = choose|k: int|
                        #![trigger a.take(k)]
                        0 <= k < a.len() && a[k] == QUOTE && (str_run(next, a.take(k), true) matches Some(end)
                            && end.closed_interior() && match machine::close_key(
                            t[si as int],
                            si,
                            end.dec,
                            seen,
                            extra,
                        ) {
                            React::Keep(
                                FrameView::Obj {
                                    phase: PhaseView::Colon { child },
                                    seen: seen_now,
                                    extra: extra_now,
                                    ..
                                },
                            ) => colon(
                                t,
                                t[si as int],
                                si,
                                child,
                                seen_now,
                                extra_now,
                                a.skip(k + 1),
                            ),
                            _ => false,
                        });
                    assert(w.take(k + 1).drop_first() =~= a.take(k));
                    assert(w.skip(k + 2) =~= a.skip(k + 1));
                    assert(w.take(k + 1)[0] == b);
                    assert(str_run(st, w.take(k + 1), true) == str_run(next, a.take(k), true));
                    assert(w[k + 1] == QUOTE);
                    assert(key_rest(t, t[si as int], si, st, seen, extra, w));
                },
                StrStep::Closed => {
                    assert(w.take(0).len() == 0);
                    assert(str_run(st, w.take(0), true) == Some(st));
                    assert(w.skip(1) =~= a);
                    assert(w[0] == QUOTE);
                    assert(key_rest(t, t[si as int], si, st, seen, extra, w));
                },
                StrStep::Bad => {},
            },
            _ => {
                lemma_named(t, t[si as int], si, seen, extra, a);
            },
        },
        FrameView::Str { si, st } => match strings::str_step(st, b, t[si as int].enum_str.len() > 0) {
            StrStep::Open(next) => {
                assert(w.last() == a.last());
                assert(w.drop_last().drop_first() =~= a.drop_last());
                assert(w.drop_last()[0] == b);
            },
            _ => {},
        },
        FrameView::Lit { rest } => {
            assert(w =~= rest);
        },
        FrameView::Num { si, buf, st } => {
            assert(buf.push(b) + a =~= buf + w);
        },
        _ => {},
    }
}

proof fn lemma_close(t: Seq<SchemaView>, f: FrameView, b: u8)
    requires
        machine::react(t, f, b) == React::Close,
    ensures
        frame_rest(t, f, seq![b]),
{
    reveal(machine::react);
    reveal(frame_rest);
    let w = seq![b];
    match f {
        FrameView::Str { si, st } => {
            assert(w.drop_last().len() == 0);
        },
        FrameView::Lit { rest } => {
            assert(w =~= rest);
        },
        _ => {},
    }
}

proof fn lemma_open(
    t: Seq<SchemaView>,
    f: FrameView,
    b: u8,
    f2: FrameView,
    g: FrameView,
    a1: Seq<u8>,
    a2: Seq<u8>,
)
    requires
        machine::react(t, f, b) == React::Open(f2, g),
        frame_rest(t, g, a1),
        frame_rest(t, f2, a2),
    ensures
        frame_rest(t, f, seq![b] + a1 + a2),
{
    reveal(machine::react);
    reveal(frame_rest);
    let w = seq![b] + a1 + a2;
    match f {
        FrameView::Obj { si, phase: PhaseView::Colon { child }, seen, extra } => {
            let k = a1.len() as int;
            assert(w.drop_first() =~= a1 + a2);
            assert(w.drop_first().take(k) =~= a1);
            assert(w.drop_first().skip(k) =~= a2);
            assert(padded_value(t, child, w.drop_first().take(k)));
            assert(after_value(t, t[si as int], si, seen, extra, w.drop_first().skip(k)));
        },
        _ => {},
    }
}

proof fn lemma_again_with(
    t: Seq<SchemaView>,
    f: FrameView,
    f2: FrameView,
    g: FrameView,
    a1: Seq<u8>,
    a2: Seq<u8>,
)
    requires
        a1.len() > 0,
        machine::react(t, f, a1[0]) == React::AgainWith(f2, g),
        frame_rest(t, g, a1),
        frame_rest(t, f2, a2),
    ensures
        frame_rest(t, f, a1 + a2),
{
    reveal(machine::react);
    reveal(frame_rest);
    let w = a1 + a2;
    match f {
        FrameView::Arr { si, n, phase } => {
            let s = t[si as int];
            let k = a1.len() as int;
            assert(w.take(k) =~= a1);
            assert(w.skip(k) =~= a2);
            assert(w[0] == a1[0]);
            assert(value(t, machine::item_schema(s), w.take(k)));
            assert(after_item(t, s, (n + 1) as u64, w.skip(k)));
            assert(a2.len() > 0);
            assert(items(t, s, n, phase is ItemReq, w));
        },
        _ => {},
    }
}

/// A number that is handed over is the whole rest of its frame.
proof fn lemma_number_done(t: Seq<SchemaView>, f: FrameView)
    requires
        f is Num,
        machine::frame_wf(f, t.len()),
    ensures
        match f {
            FrameView::Num { si, buf, st } => frame_rest(t, f, Seq::empty()) == numbers::number_ok(
                t[si as int],
                buf,
                st,
            ),
            _ => true,
        },
{
    reveal(frame_rest);
    match f {
        FrameView::Num { si, buf, st } => {
            assert(buf + Seq::<u8>::empty() =~= buf);
            lemma_number_value(t[si as int], buf);
        },
        _ => {},
    }
}

/// A value is never empty.
proof fn lemma_value_rest(t: Seq<SchemaView>, g: FrameView, w: Seq<u8>)
    requires
        g is Value,
        frame_rest(t, g, w),
    ensures
        w.len() > 0,
{
    reveal(frame_rest);
}

/// What accepting one more byte means for the frames.
proof fn lemma_accepts_step(t: Seq<SchemaView>, below: Seq<FrameView>, f: FrameView, w: Seq<u8>)
    requires
        w.len() > 0,
    ensures
        accepts(t, below.push(f), w) == match machine::react(t, f, w[0]) {
            React::Keep(g) => accepts(t, below.push(g), w.drop_first()),
            React::Open(f2, g) => accepts(t, below.push(f2).push(g), w.drop_first()),
            React::Close => accepts(t, below, w.drop_first()),
            React::Again => accepts(t, below, w),
            React::AgainWith(f2, g) => accepts(t, below.push(f2).push(g), w),
            React::Fail => false,
        },
{
    let stack = below.push(f);
    machine::lemma_react_rank(t, f, w[0]);
    assert(stack.last() == f);
    assert(stack.drop_last() =~= below);
}

proof fn lemma_pushed(t: Seq<SchemaView>, below: Seq<FrameView>, f: FrameView)
    requires
        machine::stack_wf(below, t.len()),
        machine::frame_wf(f, t.len()),
        !(f is DocEnd),
        forall|i: int| 0 < i < below.len() ==> !(#[trigger] below[i] is DocEnd),
    ensures
        machine::stack_wf(below.push(f), t.len()),
        forall|i: int| 0 < i < below.push(f).len() ==> !(#[trigger] below.push(f)[i] is DocEnd),
{
    let mid = below.push(f);
    assert forall|i: int| 0 <= i < mid.len() implies machine::frame_wf(#[trigger] mid[i], t.len()) by {
        if i < below.len() {
            assert(mid[i] == below[i]);
        }
    }
    assert forall|i: int| 0 < i < mid.len() implies !(#[trigger] mid[i] is DocEnd) by {
        if i < below.len() {
            assert(mid[i] == below[i]);
        }
    }
}

/// What the machine reads above `below` up to the end of frame `f` is the rest of `f`.
proof fn lemma_sound(t: Seq<SchemaView>, below: Seq<FrameView>, f: FrameView, w: Seq<u8>) -> (k: int)
    requires
        machine::table_wf(t),
        machine::frame_wf(f, t.len()),
        machine::stack_wf(below, t.len()),
        accepts(t, below.push(f), w),
        !(f is DocEnd),
        forall|i: int| 0 < i < below.len() ==> !(#[trigger] below[i] is DocEnd),
    ensures
        0 <= k <= w.len(),
        frame_rest(t, f, w.take(k)),
        accepts(t, below, w.skip(k)),
    decreases w.len(), machine::feed_rank(below.push(f)),
{
    let stack = below.push(f);
    assert(stack.last() == f);
    assert(stack.drop_last() =~= below);
    if w.len() == 0 {
        assert(w.take(0) =~= Seq::empty());
        assert(w.skip(0) =~= w);
        if f is Num {
            lemma_number_done(t, f);
            assert(!machine::dead(below));
        } else {
            assert(machine::at_end(stack));
            assert(stack[stack.len() - 1] == f);
        }
        0
    } else {
        let b = w[0];
        let rest = w.drop_first();
        lemma_accepts_step(t, below, f, w);
        lemma_react_wf(t, f, b);
        machine::lemma_react_rank(t, f, b);
        match machine::react(t, f, b) {
            React::Keep(g) => {
                let k1 = lemma_sound(t, below, g, rest);
                lemma_keep(t, f, b, g, rest.take(k1));
                assert(w.take(k1 + 1) =~= seq![b] + rest.take(k1));
                assert(w.skip(k1 + 1) =~= rest.skip(k1));
                k1 + 1
            },
            React::Open(f2, g) => {
                lemma_pushed(t, below, f2);
                let k1 = lemma_sound(t, below.push(f2), g, rest);
                let k2 = lemma_sound(t, below, f2, rest.skip(k1));
                let a1 = rest.take(k1);
                let a2 = rest.skip(k1).take(k2);
                lemma_open(t, f, b, f2, g, a1, a2);
                assert(w.take(1 + k1 + k2) =~= seq![b] + a1 + a2);
                assert(w.skip(1 + k1 + k2) =~= rest.skip(k1).skip(k2));
                1 + k1 + k2
            },
            React::Close => {
                lemma_close(t, f, b);
                assert(w.take(1) =~= seq![b]);
                assert(w.skip(1) =~= rest);
                1
            },
            React::Again => {
                assert(w.take(0) =~= Seq::empty());
                assert(w.skip(0) =~= w);
                lemma_number_done(t, f);
                assert(frame_rest(t, f, Seq::empty())) by {
                    reveal(machine::react);
                }
                0
            },
            React::AgainWith(f2, g) => {
                lemma_pushed(t, below, f2);
                let k1 = lemma_sound(t, below.push(f2), g, w);
                let a1 = w.take(k1);
                lemma_value_rest(t, g, a1);
                let k2 = lemma_sound(t, below, f2, w.skip(k1));
                let a2 = w.skip(k1).take(k2);
                assert(a1[0] == b);
                lemma_again_with(t, f, f2, g, a1, a2);
                assert(w.take(k1 + k2) =~= a1 + a2);
                assert(w.skip(k1 + k2) =~= w.skip(k1).skip(k2));
                k1 + k2
            },
            React::Fail => { 0 },
        }
    }
}

/// The frame below a value: behind it comes whitespace, a comma, a bracket or a brace.
pub open spec fn follows(below: Seq<FrameView>) -> bool {
    below.len() > 0 && match below.last() {
        FrameView::DocEnd => true,
        FrameView::Obj { phase, .. } => phase is AfterValue,
        FrameView::Arr { phase, .. } => phase is AfterItem,
        _ => false,
    }
}

/// What may follow a value does not continue a number.
proof fn lemma_follow_byte(t: Seq<SchemaView>, below: Seq<FrameView>, w: Seq<u8>, st: NumState)
    requires
        follows(below),
        w.len() > 0,
        accepts(t, below, w),
    ensures
        numbers::num_next(st, w[0]) is None,
{
    assert(below.drop_last().push(below.last()) =~= below);
    lemma_accepts_step(t, below.drop_last(), below.last(), w);
    reveal(machine::react);
}

/// A string only grows.
proof fn lemma_str_grows(st: StrView, body: Seq<u8>, keep: bool)
    ensures
        str_run(st, body, keep) matches Some(end) ==> st.cp <= end.cp && st.dec.is_prefix_of(
            end.dec,
        ),
    decreases body.len(),
{
    if body.len() == 0 {
        assert(st.dec =~= st.dec.subrange(0, st.dec.len() as int));
    } else {
        match strings::str_step(st, body[0], keep) {
            StrStep::Open(next) => {
                lemma_str_grows(next, body.drop_first(), keep);
                assert(st.dec =~= next.dec.subrange(0, st.dec.len() as int));
                match str_run(next, body.drop_first(), keep) {
                    Some(end) => {
                        assert(st.dec =~= end.dec.subrange(0, st.dec.len() as int)) by {
                            assert(next.dec =~= end.dec.subrange(0, next.dec.len() as int));
                            assert forall|i: int| 0 <= i < st.dec.len() implies st.dec[i]
                                == end.dec[i] by {
                                assert(st.dec[i] == next.dec.subrange(0, st.dec.len() as int)[i]);
                                assert(next.dec[i] == end.dec.subrange(
                                    0,
                                    next.dec.len() as int,
                                )[i]);
                            }
                        }
                    },
                    None => {},
                }
            },
            _ => {},
        }
    }
}

/// A number that goes on takes the next byte.
proof fn lemma_num_goes_on(buf: Seq<u8>, st: NumState, a: Seq<u8>)
    requires
        numbers::num_run(buf) == Some(st),
        a.len() > 0,
        numbers::num_run(buf + a) is Some,
    ensures
        numbers::num_next(st, a[0]) is Some,
    decreases a.len(),
{
    assert(buf.len() > 0);
    let w = buf + a;
    if a.len() == 1 {
        assert(w.drop_last() =~= buf);
    } else {
        assert(w.drop_last() =~= buf + a.drop_last());
        lemma_num_goes_on(buf, st, a.drop_last());
    }
}

/// Above an opened frame comes a value.
proof fn lemma_opened_follows(t: Seq<SchemaView>, below: Seq<FrameView>, f: FrameView, b: u8)
    ensures
        match machine::react(t, f, b) {
            React::Open(f2, _) => follows(below.push(f2)),
            React::AgainWith(f2, _) => follows(below.push(f2)),
            _ => true,
        },
{
    reveal(machine::react);
}

/// Whatever is the rest of frame `f` takes the machine to the frames below.
proof fn lemma_complete(
    t: Seq<SchemaView>,
    below: Seq<FrameView>,
    f: FrameView,
    a: Seq<u8>,
    b: Seq<u8>,
)
    requires
        machine::table_wf(t),
        machine::frame_wf(f, t.len()),
        !(f is DocEnd),
        follows(below),
        frame_rest(t, f, a),
        accepts(t, below, b),
    ensures
        accepts(t, below.push(f), a + b),
    decreases a.len(),
{
    let w = a + b;
    if a.len() == 0 {
        assert(f is Num) by {
            reveal(frame_rest);
        }
        assert(a =~= Seq::empty());
        lemma_number_ends(t, below, f, b);
        assert(w =~= b);
    } else {
        assert(w[0] == a[0]);
        assert(w.drop_first() =~= a.drop_first() + b);
        lemma_accepts_step(t, below, f, w);
        lemma_react_wf(t, f, a[0]);
        machine::lemma_react_rank(t, f, a[0]);
        lemma_unfold(t, f, a);
        match machine::react(t, f, a[0]) {
            React::Keep(g) => {
                lemma_complete(t, below, g, a.drop_first(), b);
            },
            React::Open(f2, g) => {
                let rest = a.drop_first();
                let k = lemma_split(t, f, f2, g, a, rest);
                lemma_complete(t, below, f2, rest.skip(k), b);
                lemma_opened_follows(t, below, f, a[0]);
                lemma_complete(t, below.push(f2), g, rest.take(k), rest.skip(k) + b);
                assert(rest.take(k) + (rest.skip(k) + b) =~= rest + b);
            },
            React::Close => {
                assert(a.drop_first() + b =~= b);
            },
            React::Again => {},
            React::AgainWith(f2, g) => {
                let k = lemma_split(t, f, f2, g, a, a);
                lemma_complete(t, below, f2, a.skip(k), b);
                lemma_opened_follows(t, below, f, a[0]);
                lemma_complete(t, below.push(f2), g, a.take(k), a.skip(k) + b);
                assert(a.take(k) + (a.skip(k) + b) =~= w);
            },
            React::Fail => {},
        }
    }
}

/// A number ends before what follows it.
proof fn lemma_number_ends(t: Seq<SchemaView>, below: Seq<FrameView>, f: FrameView, b: Seq<u8>)
    requires
        f is Num,
        machine::frame_wf(f, t.len()),
        frame_rest(t, f, Seq::empty()),
        follows(below),
        accepts(t, below, b),
    ensures
        accepts(t, below.push(f), b),
{
    lemma_number_done(t, f);
    let stack = below.push(f);
    assert(stack.last() == f);
    assert(stack.drop_last() =~= below);
    match f {
        FrameView::Num { si, buf, st } => {
            if b.len() == 0 {
                assert(machine::complete(t, below));
                assert(machine::at_end(below)) by {
                    assert(!(below.last() is Num));
                }
                assert(!machine::dead(stack));
            } else {
                lemma_follow_byte(t, below, b, st);
                lemma_accepts_step(t, below, f, b);
                reveal(machine::react);
            }
        },
        _ => {},
    }
}

/// The rest of `f` goes on as `f` reacts to its first byte.
spec fn unfolds(t: Seq<SchemaView>, f: FrameView, a: Seq<u8>) -> bool {
    match machine::react(t, f, a[0]) {
        React::Keep(g) => frame_rest(t, g, a.drop_first()),
        React::Close => a.len() == 1,
        React::Open(_, _) => true,
        React::AgainWith(_, _) => true,
        React::Again => false,
        React::Fail => false,
    }
}

proof fn lemma_unfold(t: Seq<SchemaView>, f: FrameView, a: Seq<u8>)
    requires
        a.len() > 0,
        frame_rest(t, f, a),
        machine::frame_wf(f, t.len()),
        !(f is DocEnd),
    ensures
        unfolds(t, f, a),
{
    match f {
        FrameView::Value { si } => {
            lemma_unfold_value(t, si, a);
        },
        FrameView::Obj { si, phase, seen, extra } => {
            lemma_unfold_object(t, si, phase, seen, extra, a);
        },
        FrameView::Str { si, st } => {
            lemma_unfold_string(t, si, st, a);
        },
        _ => {
            reveal(machine::react);
            reveal(frame_rest);
            let rest = a.drop_first();
            match f {
                FrameView::Lit { rest: r } => {
                    assert(a.len() > 1 ==> rest =~= r.drop_first());
                },
                FrameView::Num { si, buf, st } => {
                    lemma_number_value(t[si as int], buf + a);
                    lemma_num_goes_on(buf, st, a);
                    assert(buf.push(a[0]) + rest =~= buf + a);
                },
                _ => {},
            }
        },
    }
}

proof fn lemma_unfold_value(t: Seq<SchemaView>, si: u32, a: Seq<u8>)
    requires
        a.len() > 0,
        frame_rest(t, (FrameView::Value { si }), a),
    ensures
        unfolds(t, (FrameView::Value { si }), a),
{
    reveal(machine::react);
    reveal(frame_rest);
    let b = a[0];
    let rest = a.drop_first();
    if ascii::ws(b) {
        assert(padded_value(t, si, rest));
    } else {
        assert(value(t, si, a));
        lemma_value_starts(t, si, a);
        let s = t[si as int];
        match machine::start_of_value(s, si, b) {
            Some(FrameView::Num { si: i, buf, st }) => {
                assert(buf + rest =~= a);
            },
            Some(FrameView::Arr { .. }) => {
                assert(items(t, s, 0, false, rest));
            },
            Some(FrameView::Obj { .. }) => {
                assert(members(t, s, si, Seq::empty(), Seq::empty(), false, rest));
            },
            _ => {},
        }
    }
}

proof fn lemma_unfold_object(
    t: Seq<SchemaView>,
    si: u32,
    phase: PhaseView,
    seen: Seq<u32>,
    extra: Seq<Seq<u8>>,
    a: Seq<u8>,
)
    requires
        a.len() > 0,
        frame_rest(t, (FrameView::Obj { si, phase, seen, extra }), a),
    ensures
        unfolds(t, (FrameView::Obj { si, phase, seen, extra }), a),
{
    reveal(machine::react);
    reveal(frame_rest);
    match phase {
        PhaseView::Key(st) => {
            lemma_unfold_key(t, si, st, seen, extra, a);
        },
        _ => {
            lemma_named(t, t[si as int], si, seen, extra, a.drop_first());
        },
    }
}

proof fn lemma_unfold_string(t: Seq<SchemaView>, si: u32, st: StrView, a: Seq<u8>)
    requires
        a.len() > 0,
        frame_rest(t, (FrameView::Str { si, st }), a),
    ensures
        unfolds(t, (FrameView::Str { si, st }), a),
{
    reveal(machine::react);
    reveal(frame_rest);
    let s = t[si as int];
    let keep = s.enum_str.len() > 0;
    let b = a[0];
    let rest = a.drop_first();
    if a.len() == 1 {
        assert(a.drop_last().len() == 0);
    } else {
        assert(a.drop_last()[0] == b);
        match strings::str_step(st, b, keep) {
            StrStep::Open(next) => {
                assert(a.drop_last().drop_first() =~= rest.drop_last());
                lemma_str_grows(next, rest.drop_last(), keep);
                let end = str_run(next, rest.drop_last(), keep)->0;
                if s.enum_str.len() > 0 {
                    let k = choose|k: int| 0 <= k < s.enum_str.len() && s.enum_str[k] == end.dec;
                    assert(next.dec.is_prefix_of(s.enum_str[k]));
                }
            },
            _ => {},
        }
    }
}

proof fn lemma_unfold_key(
    t: Seq<SchemaView>,
    si: u32,
    st: StrView,
    seen: Seq<u32>,
    extra: Seq<Seq<u8>>,
    a: Seq<u8>,
)
    requires
        a.len() > 0,
        key_rest(t, t[si as int], si, st, seen, extra, a),
    ensures
        match machine::object_react(t[si as int], si, PhaseView::Key(st), seen, extra, a[0]) {
            React::Keep(g) => frame_rest(t, g, a.drop_first()),
            _ => false,
        },
{
    reveal(frame_rest);
    let s = t[si as int];
    let b = a[0];
    let rest = a.drop_first();
    let k = choose|k: int|
        #![trigger a.take(k)]
        0 <= k < a.len() && a[k] == QUOTE && (str_run(st, a.take(k), true) matches Some(end)
            && end.closed_interior() && match machine::close_key(s, si, end.dec, seen, extra) {
            React::Keep(
                FrameView::Obj {
                    phase: PhaseView::Colon { child },
                    seen: seen_now,
                    extra: extra_now,
                    ..
                },
            ) => colon(t, s, si, child, seen_now, extra_now, a.skip(k + 1)),
            _ => false,
        });
    if k == 0 {
        assert(a.take(0).len() == 0);
        assert(a.skip(1) =~= rest);
    } else {
        assert(a.take(k)[0] == b);
        assert(a.take(k).drop_first() =~= rest.take(k - 1));
        assert(a.skip(k + 1) =~= rest.skip(k));
        assert(rest[k - 1] == QUOTE);
        match strings::str_step(st, b, true) {
            StrStep::Open(next) => {
                lemma_str_grows(next, rest.take(k - 1), true);
                let end = str_run(next, rest.take(k - 1), true)->0;
                lemma_find_in_range(s.props, end.dec, 0);
                match machine::find_prop(s.props, end.dec, 0) {
                    Some(i) => {
                        assert(next.dec.is_prefix_of(s.props[i].0));
                    },
                    None => {},
                }
                assert(machine::key_open_ok(s, next.dec));
                assert(key_rest(t, s, si, next, seen, extra, rest));
            },
            _ => {},
        }
    }
}

/// Where a frame opens another, its rest splits into the rests of the two.
proof fn lemma_split(
    t: Seq<SchemaView>,
    f: FrameView,
    f2: FrameView,
    g: FrameView,
    a: Seq<u8>,
    rest: Seq<u8>,
) -> (k: int)
    requires
        a.len() > 0,
        frame_rest(t, f, a),
        (machine::react(t, f, a[0]) == React::Open(f2, g) && rest == a.drop_first()) || (
        machine::react(t, f, a[0]) == React::AgainWith(f2, g) && rest == a),
    ensures
        0 < k < rest.len(),
        frame_rest(t, g, rest.take(k)),
        frame_rest(t, f2, rest.skip(k)),
{
    reveal(machine::react);
    reveal(frame_rest);
    match f {
        FrameView::Obj { si, phase: PhaseView::Colon { child }, seen, extra } => {
            let s = t[si as int];
            choose|k: int|
                #![trigger a.drop_first().take(k)]
                0 < k < a.len() - 1 && padded_value(t, child, a.drop_first().take(k))
                    && after_value(t, s, si, seen, extra, a.drop_first().skip(k))
        },
        FrameView::Arr { si, n, phase } => {
            let s = t[si as int];
            let k = choose|k: int|
                #![trigger a.take(k)]
                0 < k < a.len() && value(t, machine::item_schema(s), a.take(k)) && after_item(
                    t,
                    s,
                    (n + 1) as u64,
                    a.skip(k),
                );
            assert(a.take(k)[0] == a[0]);
            k
        },
        _ => { 0 },
    }
}

/// Behind a document the machine takes whitespace and nothing else.
proof fn lemma_trailing(t: Seq<SchemaView>, w: Seq<u8>)
    ensures
        accepts(t, seq![FrameView::DocEnd], w) == all_ws(w),
    decreases w.len(),
{
    let stack = seq![FrameView::DocEnd];
    if w.len() == 0 {
        assert(machine::complete(t, stack));
    } else {
        assert(Seq::<FrameView>::empty().push(FrameView::DocEnd) =~= stack);
        lemma_accepts_step(t, Seq::empty(), FrameView::DocEnd, w);
        lemma_trailing(t, w.drop_first());
        reveal(machine::react);
        if all_ws(w) {
            assert forall|i: int| 0 <= i < w.drop_first().len() implies ascii::ws(
                #[trigger] w.drop_first()[i],
            ) by {
                assert(w.drop_first()[i] == w[i + 1]);
            }
            assert(ascii::ws(w[0]));
        }
        if ascii::ws(w[0]) && all_ws(w.drop_first()) {
            assert forall|i: int| 0 <= i < w.len() implies ascii::ws(#[trigger] w[i]) by {
                if i > 0 {
                    assert(w[i] == w.drop_first()[i - 1]);
                }
            }
        }
    }
}

/// The machine takes a text and reports it finished exactly where the text is a document of the
/// schema: optional whitespace, one JSON value that meets the schema, optional whitespace.
pub proof fn law_accepts_exactly_the_documents(t: Seq<SchemaView>, root: u32, text: Seq<u8>)
    requires
        machine::table_wf(t),
        root < t.len(),
    ensures
        accepts(t, machine::start_stack(root), text) == document(t, root, text),
{
    let below = seq![FrameView::DocEnd];
    let f = FrameView::Value { si: root };
    assert(machine::start_stack(root) =~= below.push(f));
    if accepts(t, machine::start_stack(root), text) {
        let k = lemma_sound(t, below, f, text);
        lemma_trailing(t, text.skip(k));
        reveal(frame_rest);
        assert(padded_value(t, root, text.take(k)));
    }
    if document(t, root, text) {
        let k = choose|k: int|
            #![trigger text.take(k)]
            0 <= k <= text.len() && padded_value(t, root, text.take(k)) && all_ws(text.skip(k));
        lemma_trailing(t, text.skip(k));
        assert(frame_rest(t, f, text.take(k))) by {
            reveal(frame_rest);
        }
        lemma_complete(t, below, f, text.take(k), text.skip(k));
        assert(text.take(k) + text.skip(k) =~= text);
    }
}


/// A value starts with neither whitespace nor a closing bracket.
pub proof fn lemma_first_byte_of_value(t: Seq<SchemaView>, si: u32, w: Seq<u8>)
    requires
        value(t, si, w),
    ensures
        w.len() > 0,
        !ascii::ws(w[0]),
        w[0] != CLOSE_BRACKET,
{
    let s = t[si as int];
    lemma_number_value(s, w);
    if number_value(s, w) {
        lemma_first_byte(w);
    }
}

/// A value that starts with an opening bracket or brace is an array or an object.
pub proof fn lemma_value_of_brackets(t: Seq<SchemaView>, si: u32, w: Seq<u8>)
    requires
        value(t, si, w),
    ensures
        w[0] == OPEN_BRACKET ==> items(t, t[si as int], 0, false, w.drop_first()),
        w[0] == OPEN_BRACE ==> members(
            t,
            t[si as int],
            si,
            Seq::empty(),
            Seq::empty(),
            false,
            w.drop_first(),
        ),
        t[si as int].ty is Array ==> w[0] == OPEN_BRACKET,
        t[si as int].ty is Object ==> w[0] == OPEN_BRACE,
{
    let s = t[si as int];
    lemma_number_value(s, w);
    if number_value(s, w) {
        lemma_first_byte(w);
    }
}

} // verus!
