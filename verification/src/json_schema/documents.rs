//! The documents of a schema, told apart from how they are read: arrays as lists of values,
//! objects as lists of names and values.

use vstd::prelude::*;
use vstd::utf8::*;

use crate::json_schema::ascii;
use crate::json_schema::compile;
use crate::json_schema::double;
use crate::json_schema::double::Double;
use crate::json_schema::grammar;
use crate::json_schema::grammar::value;
use crate::json_schema::keywords;
use crate::json_schema::machine;
use crate::json_schema::machine::{FrameView, PhaseView, React};
use crate::json_schema::numbers;
use crate::json_schema::schema::{SchemaView, Ty};
use crate::json_schema::string_grammar::spells;
use crate::json_schema::value::Json;

verus! {

/// Spaces, tabs, line feeds and carriage returns, or nothing.
pub open spec fn blank(w: Seq<u8>) -> bool {
    forall|i: int|
        0 <= i < w.len() ==> (#[trigger] w[i] == 0x20 || w[i] == 0x09 || w[i] == 0x0A || w[i]
            == 0x0D)
}

/// `w` is `inner` with blanks before and behind it.
pub open spec fn around(w: Seq<u8>, inner: Seq<u8>) -> bool {
    exists|a: Seq<u8>, b: Seq<u8>| #[trigger] blank(a) && #[trigger] blank(b) && w == a + inner + b
}

/// `w` is the parts with blanks around each and a comma between two.
pub open spec fn listed(w: Seq<u8>, parts: Seq<Seq<u8>>) -> bool
    decreases parts.len(),
{
    if parts.len() == 0 {
        blank(w)
    } else if parts.len() == 1 {
        around(w, parts[0])
    } else {
        exists|k: int|
            #![trigger w.take(k)]
            0 <= k < w.len() && around(w.take(k), parts[0]) && w[k] == 0x2C && listed(
                w.skip(k + 1),
                parts.drop_first(),
            )
    }
}

/// `w` is the text of an array of these items: `[`, the items, `]`.
pub open spec fn array_text(w: Seq<u8>, parts: Seq<Seq<u8>>) -> bool {
    exists|body: Seq<u8>| #[trigger] listed(body, parts) && w == seq![0x5Bu8] + body + seq![0x5Du8]
}

/// These items make an array of schema `s`: there are enough and not too many, and each is a value
/// of the schema of the items, any value where there is none.
pub open spec fn items_meet(t: Seq<SchemaView>, s: SchemaView, parts: Seq<Seq<u8>>) -> bool {
    &&& (s.min_items is Some ==> s.min_items->0 <= parts.len())
    &&& (s.max_items is Some ==> parts.len() <= s.max_items->0)
    &&& parts.len() <= u64::MAX
    &&& forall|i: int|
        0 <= i < parts.len() ==> value(
            t,
            if s.items is Some {
                s.items->0
            } else {
                0
            },
            #[trigger] parts[i],
        )
}

/// Further items behind `n` of them.
spec fn more_items(t: Seq<SchemaView>, s: SchemaView, n: int, parts: Seq<Seq<u8>>) -> bool {
    &&& (s.min_items is Some ==> s.min_items->0 <= n + parts.len())
    &&& (parts.len() > 0 && s.max_items is Some ==> n + parts.len() <= s.max_items->0)
    &&& (parts.len() > 0 ==> n + parts.len() <= u64::MAX)
    &&& forall|i: int| 0 <= i < parts.len() ==> value(t, machine::item_schema(s), #[trigger] parts[i])
}

/// `w` is what follows an item: nothing but blanks, or a comma and further parts.
spec fn behind(w: Seq<u8>, parts: Seq<Seq<u8>>) -> bool {
    if parts.len() == 0 {
        blank(w)
    } else {
        exists|k: int|
            #![trigger w.take(k)]
            0 <= k < w.len() && blank(w.take(k)) && w[k] == 0x2C && listed(w.skip(k + 1), parts)
    }
}

proof fn lemma_blank_add(a: Seq<u8>, b: Seq<u8>)
    requires
        blank(a),
        blank(b),
    ensures
        blank(a + b),
{
    let w = a + b;
    assert forall|i: int| 0 <= i < w.len() implies (#[trigger] w[i] == 0x20 || w[i] == 0x09 || w[i]
        == 0x0A || w[i] == 0x0D) by {
        if i < a.len() {
            assert(w[i] == a[i]);
        } else {
            assert(w[i] == b[i - a.len()]);
        }
    }
}

proof fn lemma_around(a: Seq<u8>, inner: Seq<u8>, b: Seq<u8>)
    requires
        blank(a),
        blank(b),
    ensures
        around(a + inner + b, inner),
{
}

proof fn lemma_around_parts(w: Seq<u8>, inner: Seq<u8>) -> (r: (Seq<u8>, Seq<u8>))
    requires
        around(w, inner),
    ensures
        blank(r.0),
        blank(r.1),
        w == r.0 + inner + r.1,
{
    choose|a: Seq<u8>, b: Seq<u8>| #[trigger]
        blank(a) && #[trigger] blank(b) && w == a + inner + b
}

proof fn lemma_around_front(x: u8, w: Seq<u8>, inner: Seq<u8>)
    requires
        ascii::ws(x),
        around(w, inner),
    ensures
        around(seq![x] + w, inner),
{
    let (a, b) = lemma_around_parts(w, inner);
    lemma_blank_add(seq![x], a);
    lemma_around(seq![x] + a, inner, b);
    assert(seq![x] + w =~= (seq![x] + a) + inner + b);
}

/// A blank in front of a list.
proof fn lemma_listed_front(x: u8, w: Seq<u8>, parts: Seq<Seq<u8>>)
    requires
        ascii::ws(x),
        listed(w, parts),
    ensures
        listed(seq![x] + w, parts),
{
    let xw = seq![x] + w;
    if parts.len() == 0 {
        lemma_blank_add(seq![x], w);
    } else if parts.len() == 1 {
        lemma_around_front(x, w, parts[0]);
    } else {
        let k = choose|k: int|
            #![trigger w.take(k)]
            0 <= k < w.len() && around(w.take(k), parts[0]) && w[k] == 0x2C && listed(
                w.skip(k + 1),
                parts.drop_first(),
            );
        lemma_around_front(x, w.take(k), parts[0]);
        assert(xw.take(k + 1) =~= seq![x] + w.take(k));
        assert(xw.skip(k + 2) =~= w.skip(k + 1));
        assert(xw[k + 1] == w[k]);
    }
}

/// A blank in front of what follows an item.
proof fn lemma_behind_front(x: u8, w: Seq<u8>, parts: Seq<Seq<u8>>)
    requires
        ascii::ws(x),
        behind(w, parts),
    ensures
        behind(seq![x] + w, parts),
{
    let xw = seq![x] + w;
    if parts.len() == 0 {
        lemma_blank_add(seq![x], w);
    } else {
        let k = choose|k: int|
            #![trigger w.take(k)]
            0 <= k < w.len() && blank(w.take(k)) && w[k] == 0x2C && listed(w.skip(k + 1), parts);
        lemma_blank_add(seq![x], w.take(k));
        assert(xw.take(k + 1) =~= seq![x] + w.take(k));
        assert(xw.skip(k + 2) =~= w.skip(k + 1));
        assert(xw[k + 1] == w[k]);
    }
}

/// A part and what follows it make a longer list.
proof fn lemma_listed_push_front(v: Seq<u8>, w: Seq<u8>, parts: Seq<Seq<u8>>)
    requires
        behind(w, parts),
    ensures
        listed(v + w, seq![v] + parts),
{
    let all = seq![v] + parts;
    let none = Seq::<u8>::empty();
    assert(blank(none));
    assert(all[0] == v);
    if parts.len() == 0 {
        lemma_around(none, v, w);
        assert(v + w =~= none + v + w);
    } else {
        let k = choose|k: int|
            #![trigger w.take(k)]
            0 <= k < w.len() && blank(w.take(k)) && w[k] == 0x2C && listed(w.skip(k + 1), parts);
        let at = v.len() + k;
        lemma_around(none, v, w.take(k));
        assert((v + w).take(at) =~= none + v + w.take(k));
        assert((v + w)[at] == w[k]);
        assert((v + w).skip(at + 1) =~= w.skip(k + 1));
        assert(all.drop_first() =~= parts);
    }
}

/// The items that the rest of an array holds, and their text.
proof fn lemma_items_listed(
    t: Seq<SchemaView>,
    s: SchemaView,
    n: u64,
    must: bool,
    w: Seq<u8>,
) -> (r: (Seq<u8>, Seq<Seq<u8>>))
    requires
        grammar::items(t, s, n, must, w),
    ensures
        w == r.0.push(0x5D),
        listed(r.0, r.1),
        must ==> r.1.len() > 0,
        more_items(t, s, n as int, r.1),
    decreases w.len(), 0int,
{
    if ascii::ws(w[0]) {
        let (body, parts) = lemma_items_listed(t, s, n, must, w.drop_first());
        lemma_listed_front(w[0], body, parts);
        assert(w =~= (seq![w[0]] + body).push(0x5D));
        (seq![w[0]] + body, parts)
    } else if w[0] == ascii::CLOSE_BRACKET {
        let none = Seq::<u8>::empty();
        assert(w =~= none.push(0x5D));
        (none, Seq::empty())
    } else {
        let k = choose|k: int|
            #![trigger w.take(k)]
            0 < k < w.len() && value(t, machine::item_schema(s), w.take(k)) && grammar::after_item(
                t,
                s,
                (n + 1) as u64,
                w.skip(k),
            );
        let v = w.take(k);
        let (body, parts) = lemma_items_behind(t, s, (n + 1) as u64, w.skip(k));
        lemma_listed_push_front(v, body, parts);
        assert(w =~= (v + body).push(0x5D)) by {
            assert(w =~= v + w.skip(k));
        }
        let all = seq![v] + parts;
        assert forall|i: int| 0 <= i < all.len() implies value(
            t,
            machine::item_schema(s),
            #[trigger] all[i],
        ) by {
            if i > 0 {
                assert(all[i] == parts[i - 1]);
            }
        }
        (v + body, all)
    }
}

proof fn lemma_items_behind(t: Seq<SchemaView>, s: SchemaView, n: u64, w: Seq<u8>) -> (r: (
    Seq<u8>,
    Seq<Seq<u8>>,
))
    requires
        grammar::after_item(t, s, n, w),
    ensures
        w == r.0.push(0x5D),
        behind(r.0, r.1),
        more_items(t, s, n as int, r.1),
    decreases w.len(), 1int,
{
    if ascii::ws(w[0]) {
        let (body, parts) = lemma_items_behind(t, s, n, w.drop_first());
        lemma_behind_front(w[0], body, parts);
        assert(w =~= (seq![w[0]] + body).push(0x5D));
        (seq![w[0]] + body, parts)
    } else if w[0] == ascii::COMMA {
        let (body, parts) = lemma_items_listed(t, s, n, true, w.drop_first());
        let all = seq![0x2Cu8] + body;
        assert(all.take(0) =~= Seq::empty());
        assert(all.skip(1) =~= body);
        assert(w =~= all.push(0x5D));
        (all, parts)
    } else {
        let none = Seq::<u8>::empty();
        assert(w =~= none.push(0x5D));
        (none, Seq::empty())
    }
}

proof fn lemma_skip_blanks_of_items(
    t: Seq<SchemaView>,
    s: SchemaView,
    n: u64,
    must: bool,
    a: Seq<u8>,
    w: Seq<u8>,
)
    requires
        blank(a),
    ensures
        grammar::items(t, s, n, must, w) ==> grammar::items(t, s, n, must, a + w),
        grammar::after_item(t, s, n, w) ==> grammar::after_item(t, s, n, a + w),
    decreases a.len(),
{
    if a.len() == 0 {
        assert(a + w =~= w);
    } else {
        let x = a[0];
        assert(ascii::ws(x));
        let rest = a.drop_first();
        assert(blank(rest)) by {
            assert forall|i: int| 0 <= i < rest.len() implies (#[trigger] rest[i] == 0x20
                || rest[i] == 0x09 || rest[i] == 0x0A || rest[i] == 0x0D) by {
                assert(rest[i] == a[i + 1]);
            }
        }
        lemma_skip_blanks_of_items(t, s, n, must, rest, w);
        assert((a + w)[0] == x);
        assert((a + w).drop_first() =~= rest + w);
    }
}

/// A list of items reads as the rest of an array.
proof fn lemma_listed_items(
    t: Seq<SchemaView>,
    s: SchemaView,
    n: u64,
    must: bool,
    body: Seq<u8>,
    parts: Seq<Seq<u8>>,
)
    requires
        listed(body, parts),
        must ==> parts.len() > 0,
        more_items(t, s, n as int, parts),
    ensures
        grammar::items(t, s, n, must, body.push(0x5D)),
    decreases parts.len(),
{
    let close = seq![0x5Du8];
    assert(body.push(0x5D) =~= body + close);
    if parts.len() == 0 {
        lemma_skip_blanks_of_items(t, s, n, must, body, close);
    } else {
        let v = parts[0];
        let next = (n + 1) as u64;
        assert(value(t, machine::item_schema(s), v));
        grammar::lemma_first_byte_of_value(t, machine::item_schema(s), v);
        let k = if parts.len() == 1 {
            body.len() as int
        } else {
            choose|k: int|
                #![trigger body.take(k)]
                0 <= k < body.len() && around(body.take(k), parts[0]) && body[k] == 0x2C && listed(
                    body.skip(k + 1),
                    parts.drop_first(),
                )
        };
        assert(parts.len() == 1 ==> body.take(k) =~= body);
        let (a, b) = lemma_around_parts(body.take(k), v);
        let rest = body.skip(k + 1);
        let tail = body.skip(k) + close;
        assert(grammar::after_item(t, s, next, tail)) by {
            if parts.len() > 1 {
                let others = parts.drop_first();
                assert forall|i: int| 0 <= i < others.len() implies value(
                    t,
                    machine::item_schema(s),
                    #[trigger] others[i],
                ) by {
                    assert(others[i] == parts[i + 1]);
                }
                lemma_listed_items(t, s, next, true, rest, others);
                assert(tail[0] == body[k]);
                assert(tail.drop_first() =~= rest.push(0x5D));
            } else {
                assert(tail =~= close);
            }
        }
        lemma_skip_blanks_of_items(t, s, next, true, b, tail);
        let w = v + (b + tail);
        assert(w.take(v.len() as int) =~= v);
        assert(w.skip(v.len() as int) =~= b + tail);
        assert(w[0] == v[0]);
        assert(grammar::items(t, s, n, must, w));
        lemma_skip_blanks_of_items(t, s, n, must, a, w);
        assert(body =~= body.take(k) + body.skip(k));
        assert(body + close =~= a + w);
    }
}

/// Arrays: a text is an array that meets a schema exactly where it is `[`, a list of values with
/// commas between them, and `]`, each value meets the schema of the items, and their number is
/// within the bounds.
pub proof fn law_arrays_are_lists_of_values(t: Seq<SchemaView>, si: u32, w: Seq<u8>)
    requires
        si < t.len(),
    ensures
        t[si as int].ty is Array ==> (value(t, si, w) == exists|parts: Seq<Seq<u8>>| #[trigger]
            array_text(w, parts) && items_meet(t, t[si as int], parts)),
        t[si as int].ty is Any && !t[si as int].has_enum ==> ((value(t, si, w) && w[0] == 0x5B)
            == exists|parts: Seq<Seq<u8>>| #[trigger]
            array_text(w, parts) && items_meet(t, t[si as int], parts)),
{
    let s = t[si as int];
    if s.ty is Array || (s.ty is Any && !s.has_enum) {
        if value(t, si, w) && w[0] == 0x5B {
            grammar::lemma_value_of_brackets(t, si, w);
            let (body, parts) = lemma_items_listed(t, s, 0, false, w.drop_first());
            assert(w =~= seq![w[0]] + w.drop_first());
            assert(w =~= seq![0x5Bu8] + body + seq![0x5Du8]);
            assert(array_text(w, parts));
            assert(items_meet(t, s, parts));
        }
        if exists|parts: Seq<Seq<u8>>| #[trigger] array_text(w, parts) && items_meet(t, s, parts) {
            let parts = choose|parts: Seq<Seq<u8>>| #[trigger]
                array_text(w, parts) && items_meet(t, s, parts);
            let body = choose|body: Seq<u8>| #[trigger]
                listed(body, parts) && w == seq![0x5Bu8] + body + seq![0x5Du8];
            assert forall|i: int| 0 <= i < parts.len() implies value(
                t,
                machine::item_schema(s),
                #[trigger] parts[i],
            ) by {
            }
            lemma_listed_items(t, s, 0, false, body, parts);
            assert(w.drop_first() =~= body.push(0x5D));
            assert(value(t, si, w));
        }
    }
}


/// A name and the text of its value.
pub type Entry = (Seq<char>, Seq<u8>);

/// `w` is a member: a name in quotes, a colon and a value, with blanks around each.
#[verifier::opaque]
pub open spec fn member_text(w: Seq<u8>, e: Entry) -> bool {
    exists|a: Seq<u8>, q: Seq<u8>, b: Seq<u8>, x: Seq<u8>| #[trigger]
        blank(a) && #[trigger] spells(q, e.0) && #[trigger] blank(b) && #[trigger] around(x, e.1)
            && w == a + seq![0x22u8] + q + seq![0x22u8] + b + seq![0x3Au8] + x
}

/// `w` is the members with a comma between two.
pub open spec fn members_listed(w: Seq<u8>, es: Seq<Entry>) -> bool
    decreases es.len(),
{
    if es.len() == 0 {
        blank(w)
    } else if es.len() == 1 {
        member_text(w, es[0])
    } else {
        exists|k: int|
            #![trigger w.take(k)]
            0 <= k < w.len() && member_text(w.take(k), es[0]) && w[k] == 0x2C && members_listed(
                w.skip(k + 1),
                es.drop_first(),
            )
    }
}

/// `w` is the text of an object of these members: `{`, the members, `}`.
pub open spec fn object_text(w: Seq<u8>, es: Seq<Entry>) -> bool {
    exists|body: Seq<u8>| #[trigger]
        members_listed(body, es) && w == seq![0x7Bu8] + body + seq![0x7Du8]
}

/// A member may stand in an object of schema `s`: its value meets the schema of the property of
/// that name, or, where no property has that name, further keys are admitted and it is any value.
pub open spec fn member_meets(t: Seq<SchemaView>, s: SchemaView, e: Entry) -> bool {
    let name = encode_utf8(e.0);
    &&& e.0.len() <= u32::MAX
    &&& forall|k: int| #[trigger]
        keywords::first_of_name(s.props, name, k) ==> value(t, s.props[k].1, e.1)
    &&& ((forall|k: int| 0 <= k < s.props.len() ==> (#[trigger] s.props[k]).0 != name)
        ==> s.additional && value(t, 0, e.1))
}

/// One of the members has the name of property `k`.
pub open spec fn property_there(s: SchemaView, es: Seq<Entry>, k: int) -> bool {
    exists|i: int| 0 <= i < es.len() && encode_utf8((#[trigger] es[i]).0) == s.props[k].0
}

/// These members make an object of schema `s`: each may stand there, no name occurs twice, and
/// every required property is there.
pub open spec fn members_meet(t: Seq<SchemaView>, s: SchemaView, es: Seq<Entry>) -> bool {
    &&& forall|i: int| 0 <= i < es.len() ==> member_meets(t, s, #[trigger] es[i])
    &&& forall|i: int, j: int|
        0 <= i < j < es.len() ==> (#[trigger] es[i]).0 != (#[trigger] es[j]).0
    &&& forall|m: int|
        0 <= m < s.required.len() ==> property_there(s, es, #[trigger] s.required[m] as int)
}

/// Required properties are properties, each the first of its name.
pub open spec fn required_sound(s: SchemaView) -> bool {
    forall|m: int|
        0 <= m < s.required.len() ==> (#[trigger] s.required[m]) < s.props.len()
            && keywords::first_of_name(
            s.props,
            s.props[s.required[m] as int].0,
            s.required[m] as int,
        )
}

/// The names of the members, as bytes.
spec fn names(es: Seq<Entry>) -> Seq<Seq<u8>> {
    Seq::new(es.len(), |i: int| encode_utf8(es[i].0))
}

/// `seen` and `extra` tell the keys so far.
spec fn told(s: SchemaView, keys: Seq<Seq<u8>>, seen: Seq<u32>, extra: Seq<Seq<u8>>) -> bool {
    &&& forall|x: u32| #[trigger]
        seen.contains(x) == (x < s.props.len() && keywords::first_of_name(
            s.props,
            s.props[x as int].0,
            x as int,
        ) && keys.contains(s.props[x as int].0))
    &&& forall|key: Seq<u8>| #[trigger]
        extra.contains(key) == (keys.contains(key) && machine::find_prop(s.props, key, 0) is None)
}

/// Every required property is among the keys.
spec fn all_required(s: SchemaView, keys: Seq<Seq<u8>>) -> bool {
    forall|m: int|
        0 <= m < s.required.len() ==> keys.contains(s.props[(#[trigger] s.required[m]) as int].0)
}

proof fn lemma_required_met(
    s: SchemaView,
    keys: Seq<Seq<u8>>,
    seen: Seq<u32>,
    extra: Seq<Seq<u8>>,
)
    requires
        told(s, keys, seen, extra),
        required_sound(s),
    ensures
        machine::required_met(s, seen) == all_required(s, keys),
{
    if machine::required_met(s, seen) {
        assert forall|m: int| 0 <= m < s.required.len() implies keys.contains(
            s.props[(#[trigger] s.required[m]) as int].0,
        ) by {
            assert(seen.contains(s.required[m]));
        }
    }
    if all_required(s, keys) {
        assert forall|k: int| 0 <= k < s.required.len() implies seen.contains(
            #[trigger] s.required[k],
        ) by {
            assert(keys.contains(s.props[s.required[k] as int].0));
        }
    }
}

proof fn lemma_push_contains<A>(q: Seq<A>, x: A)
    ensures
        forall|y: A| #[trigger] q.push(x).contains(y) == (q.contains(y) || y == x),
{
    let r = q.push(x);
    assert forall|y: A| #[trigger] r.contains(y) == (q.contains(y) || y == x) by {
        if q.contains(y) {
            let i = choose|i: int| 0 <= i < q.len() && q[i] == y;
            assert(r[i] == y);
        }
        if y == x {
            assert(r[q.len() as int] == y);
        }
        if r.contains(y) {
            let i = choose|i: int| 0 <= i < r.len() && r[i] == y;
            if i < q.len() {
                assert(q[i] == y);
            }
        }
    }
}

/// A key that was closed is new and admitted, and is told from there on.
proof fn lemma_close_key(
    s: SchemaView,
    si: u32,
    key: Seq<u8>,
    keys: Seq<Seq<u8>>,
    seen: Seq<u32>,
    extra: Seq<Seq<u8>>,
)
    requires
        told(s, keys, seen, extra),
        s.props.len() <= u32::MAX,
    ensures
        match machine::close_key(s, si, key, seen, extra) {
            React::Keep(
                FrameView::Obj {
                    phase: PhaseView::Colon { child },
                    seen: seen_now,
                    extra: extra_now,
                    ..
                },
            ) => {
                &&& !keys.contains(key)
                &&& told(s, keys.push(key), seen_now, extra_now)
                &&& forall|k: int| #[trigger]
                    keywords::first_of_name(s.props, key, k) ==> child == s.props[k].1
                &&& ((forall|k: int| 0 <= k < s.props.len() ==> (#[trigger] s.props[k]).0 != key)
                    ==> s.additional && child == 0)
            },
            _ => keys.contains(key) || ((forall|k: int|
                0 <= k < s.props.len() ==> (#[trigger] s.props[k]).0 != key) && !s.additional),
        },
{
    keywords::law_properties_are_found_by_name(s.props, key, 0);
    lemma_push_contains(keys, key);
    match machine::find_prop(s.props, key, 0) {
        Some(i) => {
            assert(keywords::first_of_name(s.props, key, i));
            assert(s.props[i].0 == key);
            lemma_push_contains(seen, i as u32);
            assert(seen.contains(i as u32) == keys.contains(key));
            if !seen.contains(i as u32) {
                let seen_now = seen.push(i as u32);
                let keys_now = keys.push(key);
                assert forall|x: u32| #[trigger] seen_now.contains(x) == (x < s.props.len()
                    && keywords::first_of_name(s.props, s.props[x as int].0, x as int)
                    && keys_now.contains(s.props[x as int].0)) by {
                    assert(seen.contains(x) == (x < s.props.len() && keywords::first_of_name(
                        s.props,
                        s.props[x as int].0,
                        x as int,
                    ) && keys.contains(s.props[x as int].0)));
                    if x < s.props.len() && s.props[x as int].0 == key
                        && keywords::first_of_name(s.props, s.props[x as int].0, x as int) {
                        if x < i {
                            assert(s.props[x as int].0 != key);
                        } else if i < x {
                            assert(s.props[i].0 != key);
                        }
                    }
                }
                assert forall|k: int| #[trigger]
                    keywords::first_of_name(s.props, key, k) implies s.props[i].1
                    == s.props[k].1 by {
                    if k < i {
                        assert(s.props[k].0 != key);
                    } else if i < k {
                        assert(s.props[i].0 != key);
                    }
                }
                assert(told(s, keys_now, seen_now, extra)) by {
                    assert forall|other: Seq<u8>| #[trigger] extra.contains(other) == (
                    keys_now.contains(other) && machine::find_prop(s.props, other, 0) is None) by {
                    }
                }
            }
        },
        None => {
            assert(extra.contains(key) == keys.contains(key));
            if s.additional && !extra.contains(key) {
                let extra_now = extra.push(key);
                let keys_now = keys.push(key);
                lemma_push_contains(extra, key);
                assert forall|x: u32| #[trigger] seen.contains(x) == (x < s.props.len()
                    && keywords::first_of_name(s.props, s.props[x as int].0, x as int)
                    && keys_now.contains(s.props[x as int].0)) by {
                    if x < s.props.len() {
                        assert(s.props[x as int].0 != key);
                    }
                }
                assert forall|other: Seq<u8>| #[trigger] extra_now.contains(other) == (
                keys_now.contains(other) && machine::find_prop(s.props, other, 0) is None) by {
                }
                assert(told(s, keys_now, seen, extra_now));
            }
        },
    }
}


/// Further members behind the keys so far.
spec fn more_members(
    t: Seq<SchemaView>,
    s: SchemaView,
    keys: Seq<Seq<u8>>,
    es: Seq<Entry>,
) -> bool {
    &&& forall|i: int| 0 <= i < es.len() ==> member_meets(t, s, #[trigger] es[i])
    &&& (keys + names(es)).no_duplicates()
    &&& all_required(s, keys + names(es))
}

/// `w` is what follows a member: nothing but blanks, or a comma and further members.
spec fn behind_member(w: Seq<u8>, es: Seq<Entry>) -> bool {
    if es.len() == 0 {
        blank(w)
    } else {
        exists|k: int|
            #![trigger w.take(k)]
            0 <= k < w.len() && blank(w.take(k)) && w[k] == 0x2C && members_listed(w.skip(k + 1), es)
    }
}

/// The text of a member, from its quote on to the end of its value.
#[verifier::opaque]
spec fn member_of(q: Seq<u8>, b: Seq<u8>, a: Seq<u8>, v: Seq<u8>) -> Seq<u8> {
    seq![0x22u8] + q + seq![0x22u8] + b + seq![0x3Au8] + a + v
}

proof fn lemma_member_text(
    front: Seq<u8>,
    q: Seq<u8>,
    b: Seq<u8>,
    a: Seq<u8>,
    e: Entry,
    back: Seq<u8>,
)
    requires
        blank(front),
        spells(q, e.0),
        blank(b),
        blank(a),
        blank(back),
    ensures
        member_text(front + member_of(q, b, a, e.1) + back, e),
{
    let x = a + e.1 + back;
    reveal(member_of);
    reveal(member_text);
    lemma_around(a, e.1, back);
    assert(front + member_of(q, b, a, e.1) + back =~= front + seq![0x22u8] + q + seq![0x22u8] + b
        + seq![0x3Au8] + x);
}

proof fn lemma_member_parts(w: Seq<u8>, e: Entry) -> (r: (
    Seq<u8>,
    Seq<u8>,
    Seq<u8>,
    Seq<u8>,
    Seq<u8>,
))
    requires
        member_text(w, e),
    ensures
        blank(r.0),
        spells(r.1, e.0),
        blank(r.2),
        blank(r.3),
        blank(r.4),
        w == r.0 + member_of(r.1, r.2, r.3, e.1) + r.4,
{
    reveal(member_text);
    let (a, q, b, x) = choose|a: Seq<u8>, q: Seq<u8>, b: Seq<u8>, x: Seq<u8>| #[trigger]
        blank(a) && #[trigger] spells(q, e.0) && #[trigger] blank(b) && #[trigger] around(x, e.1)
            && w == a + seq![0x22u8] + q + seq![0x22u8] + b + seq![0x3Au8] + x;
    let (c, d) = lemma_around_parts(x, e.1);
    reveal(member_of);
    assert(w =~= a + member_of(q, b, c, e.1) + d);
    (a, q, b, c, d)
}

proof fn lemma_member_front(x: u8, w: Seq<u8>, e: Entry)
    requires
        ascii::ws(x),
        member_text(w, e),
    ensures
        member_text(seq![x] + w, e),
{
    let (a, q, b, c, d) = lemma_member_parts(w, e);
    let m = member_of(q, b, c, e.1);
    lemma_blank_add(seq![x], a);
    lemma_member_text(seq![x] + a, q, b, c, e, d);
    assert(seq![x] + (a + m + d) =~= (seq![x] + a) + m + d);
}

proof fn lemma_members_front(x: u8, w: Seq<u8>, es: Seq<Entry>)
    requires
        ascii::ws(x),
        members_listed(w, es),
    ensures
        members_listed(seq![x] + w, es),
{
    let xw = seq![x] + w;
    if es.len() == 0 {
        lemma_blank_add(seq![x], w);
    } else if es.len() == 1 {
        lemma_member_front(x, w, es[0]);
    } else {
        let k = choose|k: int|
            #![trigger w.take(k)]
            0 <= k < w.len() && member_text(w.take(k), es[0]) && w[k] == 0x2C && members_listed(
                w.skip(k + 1),
                es.drop_first(),
            );
        lemma_member_front(x, w.take(k), es[0]);
        assert(xw.take(k + 1) =~= seq![x] + w.take(k));
        assert(xw.skip(k + 2) =~= w.skip(k + 1));
        assert(xw[k + 1] == w[k]);
    }
}

proof fn lemma_behind_member_front(x: u8, w: Seq<u8>, es: Seq<Entry>)
    requires
        ascii::ws(x),
        behind_member(w, es),
    ensures
        behind_member(seq![x] + w, es),
{
    let xw = seq![x] + w;
    if es.len() == 0 {
        lemma_blank_add(seq![x], w);
    } else {
        let k = choose|k: int|
            #![trigger w.take(k)]
            0 <= k < w.len() && blank(w.take(k)) && w[k] == 0x2C && members_listed(
                w.skip(k + 1),
                es,
            );
        lemma_blank_add(seq![x], w.take(k));
        assert(xw.take(k + 1) =~= seq![x] + w.take(k));
        assert(xw.skip(k + 2) =~= w.skip(k + 1));
        assert(xw[k + 1] == w[k]);
    }
}

/// A member and what follows it make a longer list.
proof fn lemma_members_push_front(
    q: Seq<u8>,
    b: Seq<u8>,
    a: Seq<u8>,
    e: Entry,
    w: Seq<u8>,
    es: Seq<Entry>,
)
    requires
        spells(q, e.0),
        blank(b),
        blank(a),
        behind_member(w, es),
    ensures
        members_listed(member_of(q, b, a, e.1) + w, seq![e] + es),
{
    let all = seq![e] + es;
    let none = Seq::<u8>::empty();
    let m = member_of(q, b, a, e.1);
    assert(blank(none));
    assert(all[0] == e);
    if es.len() == 0 {
        lemma_member_text(none, q, b, a, e, w);
        assert(m + w =~= none + m + w);
    } else {
        let k = choose|k: int|
            #![trigger w.take(k)]
            0 <= k < w.len() && blank(w.take(k)) && w[k] == 0x2C && members_listed(
                w.skip(k + 1),
                es,
            );
        let at = m.len() + k;
        lemma_member_text(none, q, b, a, e, w.take(k));
        assert((m + w).take(at) =~= none + m + w.take(k));
        assert((m + w)[at] == w[k]);
        assert((m + w).skip(at + 1) =~= w.skip(k + 1));
        assert(all.drop_first() =~= es);
    }
}

proof fn lemma_padded_parts(t: Seq<SchemaView>, si: u32, w: Seq<u8>) -> (r: (Seq<u8>, Seq<u8>))
    requires
        grammar::padded_value(t, si, w),
    ensures
        w == r.0 + r.1,
        blank(r.0),
        value(t, si, r.1),
    decreases w.len(),
{
    if ascii::ws(w[0]) {
        let (a, v) = lemma_padded_parts(t, si, w.drop_first());
        lemma_blank_add(seq![w[0]], a);
        assert(w =~= seq![w[0]] + w.drop_first());
        assert(w =~= (seq![w[0]] + a) + v);
        (seq![w[0]] + a, v)
    } else {
        assert(w =~= Seq::<u8>::empty() + w);
        (Seq::empty(), w)
    }
}

proof fn lemma_blank_rest(a: Seq<u8>)
    requires
        blank(a),
        a.len() > 0,
    ensures
        ascii::ws(a[0]),
        blank(a.drop_first()),
{
    let rest = a.drop_first();
    assert forall|i: int| 0 <= i < rest.len() implies (#[trigger] rest[i] == 0x20 || rest[i] == 0x09
        || rest[i] == 0x0A || rest[i] == 0x0D) by {
        assert(rest[i] == a[i + 1]);
    }
}

proof fn lemma_padded(t: Seq<SchemaView>, si: u32, a: Seq<u8>, v: Seq<u8>)
    requires
        blank(a),
        value(t, si, v),
    ensures
        grammar::padded_value(t, si, a + v),
    decreases a.len(),
{
    if a.len() == 0 {
        assert(a + v =~= v);
        grammar::lemma_first_byte_of_value(t, si, v);
    } else {
        lemma_blank_rest(a);
        lemma_padded(t, si, a.drop_first(), v);
        assert((a + v)[0] == a[0]);
        assert((a + v).drop_first() =~= a.drop_first() + v);
    }
}

/// What stands behind a key: blanks, a colon, blanks, a value, and the rest.
proof fn lemma_colon_parts(
    t: Seq<SchemaView>,
    s: SchemaView,
    si: u32,
    child: u32,
    seen: Seq<u32>,
    extra: Seq<Seq<u8>>,
    w: Seq<u8>,
) -> (r: (Seq<u8>, Seq<u8>, Seq<u8>, Seq<u8>))
    requires
        grammar::colon(t, s, si, child, seen, extra, w),
    ensures
        w == r.0 + seq![0x3Au8] + r.1 + r.2 + r.3,
        blank(r.0),
        blank(r.1),
        value(t, child, r.2),
        grammar::after_value(t, s, si, seen, extra, r.3),
    decreases w.len(),
{
    if ascii::ws(w[0]) {
        let (b, a, v, tail) = lemma_colon_parts(t, s, si, child, seen, extra, w.drop_first());
        lemma_blank_add(seq![w[0]], b);
        assert(w =~= seq![w[0]] + w.drop_first());
        assert(w =~= (seq![w[0]] + b) + seq![0x3Au8] + a + v + tail);
        (seq![w[0]] + b, a, v, tail)
    } else {
        let rest = w.drop_first();
        let k = choose|k: int|
            #![trigger w.drop_first().take(k)]
            0 < k < w.len() - 1 && grammar::padded_value(t, child, w.drop_first().take(k))
                && grammar::after_value(t, s, si, seen, extra, w.drop_first().skip(k));
        let (a, v) = lemma_padded_parts(t, child, rest.take(k));
        let none = Seq::<u8>::empty();
        assert(w =~= seq![w[0]] + rest);
        assert(rest =~= rest.take(k) + rest.skip(k));
        assert(w =~= none + seq![0x3Au8] + a + v + rest.skip(k));
        (none, a, v, rest.skip(k))
    }
}

proof fn lemma_names_push_front(e: Entry, keys: Seq<Seq<u8>>, es: Seq<Entry>)
    ensures
        keys.push(encode_utf8(e.0)) + names(es) == keys + names(seq![e] + es),
{
    let all = seq![e] + es;
    assert(keys.push(encode_utf8(e.0)) + names(es) =~= keys + names(all)) by {
        assert forall|i: int| 0 <= i < es.len() implies all[i + 1] == es[i] by {
        }
    }
}

/// The member that stands first behind an opening quote, and what follows it.
proof fn lemma_named_parts(
    t: Seq<SchemaView>,
    s: SchemaView,
    si: u32,
    seen: Seq<u32>,
    extra: Seq<Seq<u8>>,
    rest: Seq<u8>,
) -> (r: (Seq<u8>, Seq<u8>, Seq<u8>, Entry, Seq<u8>))
    requires
        grammar::named(t, s, si, seen, extra, rest),
    ensures
        seq![0x22u8] + rest == member_of(r.0, r.1, r.2, r.3.1) + r.4,
        r.4.len() < rest.len(),
        spells(r.0, r.3.0),
        blank(r.1),
        blank(r.2),
        r.3.0.len() <= u32::MAX,
        match machine::close_key(s, si, encode_utf8(r.3.0), seen, extra) {
            React::Keep(
                FrameView::Obj {
                    phase: PhaseView::Colon { child },
                    seen: seen_now,
                    extra: extra_now,
                    ..
                },
            ) => value(t, child, r.3.1) && grammar::after_value(
                t,
                s,
                si,
                seen_now,
                extra_now,
                r.4,
            ),
            _ => false,
        },
{
    let (k, cs) = choose|k: int, cs: Seq<char>|
        0 <= k < rest.len() && rest[k] == ascii::QUOTE && #[trigger] spells(rest.take(k), cs)
            && cs.len() <= u32::MAX && match machine::close_key(
            s,
            si,
            encode_utf8(cs),
            seen,
            extra,
        ) {
            React::Keep(
                FrameView::Obj {
                    phase: PhaseView::Colon { child },
                    seen: seen_now,
                    extra: extra_now,
                    ..
                },
            ) => grammar::colon(t, s, si, child, seen_now, extra_now, rest.skip(k + 1)),
            _ => false,
        };
    match machine::close_key(s, si, encode_utf8(cs), seen, extra) {
        React::Keep(
            FrameView::Obj {
                phase: PhaseView::Colon { child },
                seen: seen_now,
                extra: extra_now,
                ..
            },
        ) => {
            let behind_key = rest.skip(k + 1);
            let (b, a, v, tail) = lemma_colon_parts(
                t,
                s,
                si,
                child,
                seen_now,
                extra_now,
                behind_key,
            );
            let q = rest.take(k);
            assert(rest =~= q + seq![0x22u8] + behind_key);
            reveal(member_of);
            assert(seq![0x22u8] + rest =~= member_of(q, b, a, v) + tail);
            (q, b, a, (cs, v), tail)
        },
        _ => (rest, rest, rest, (cs, rest), rest),
    }
}

/// The members that the rest of an object holds, and their text.
proof fn lemma_members_told(
    t: Seq<SchemaView>,
    s: SchemaView,
    si: u32,
    keys: Seq<Seq<u8>>,
    seen: Seq<u32>,
    extra: Seq<Seq<u8>>,
    must: bool,
    w: Seq<u8>,
) -> (r: (Seq<u8>, Seq<Entry>))
    requires
        grammar::members(t, s, si, seen, extra, must, w),
        told(s, keys, seen, extra),
        required_sound(s),
        s.props.len() <= u32::MAX,
        keys.no_duplicates(),
    ensures
        w == r.0.push(0x7D),
        members_listed(r.0, r.1),
        must ==> r.1.len() > 0,
        more_members(t, s, keys, r.1),
    decreases w.len(), 0int,
{
    if ascii::ws(w[0]) {
        let (body, es) = lemma_members_told(t, s, si, keys, seen, extra, must, w.drop_first());
        lemma_members_front(w[0], body, es);
        assert(w =~= (seq![w[0]] + body).push(0x7D));
        (seq![w[0]] + body, es)
    } else if w[0] == 0x22 {
        let rest = w.drop_first();
        let (q, b, a, e, tail) = lemma_named_parts(t, s, si, seen, extra, rest);
        let key = encode_utf8(e.0);
        let m = member_of(q, b, a, e.1);
        assert(w =~= seq![0x22u8] + rest);
        lemma_close_key(s, si, key, keys, seen, extra);
        match machine::close_key(s, si, key, seen, extra) {
            React::Keep(
                FrameView::Obj {
                    phase: PhaseView::Colon { child },
                    seen: seen_now,
                    extra: extra_now,
                    ..
                },
            ) => {
                let (body, es) = lemma_members_behind(
                    t,
                    s,
                    si,
                    keys.push(key),
                    seen_now,
                    extra_now,
                    tail,
                );
                lemma_members_push_front(q, b, a, e, body, es);
                lemma_names_push_front(e, keys, es);
                let all = seq![e] + es;
                assert(member_meets(t, s, e));
                assert forall|i: int| 0 <= i < all.len() implies member_meets(
                    t,
                    s,
                    #[trigger] all[i],
                ) by {
                    if i > 0 {
                        assert(all[i] == es[i - 1]);
                    }
                }
                assert(w =~= (m + body).push(0x7D));
                (m + body, all)
            },
            _ => (Seq::empty(), Seq::empty()),
        }
    } else {
        let none = Seq::<u8>::empty();
        lemma_required_met(s, keys, seen, extra);
        assert(w =~= none.push(0x7D));
        assert(keys + names(Seq::empty()) =~= keys);
        (none, Seq::empty())
    }
}

proof fn lemma_members_behind(
    t: Seq<SchemaView>,
    s: SchemaView,
    si: u32,
    keys: Seq<Seq<u8>>,
    seen: Seq<u32>,
    extra: Seq<Seq<u8>>,
    w: Seq<u8>,
) -> (r: (Seq<u8>, Seq<Entry>))
    requires
        grammar::after_value(t, s, si, seen, extra, w),
        told(s, keys, seen, extra),
        required_sound(s),
        s.props.len() <= u32::MAX,
        keys.no_duplicates(),
    ensures
        w == r.0.push(0x7D),
        behind_member(r.0, r.1),
        more_members(t, s, keys, r.1),
    decreases w.len(), 1int,
{
    if ascii::ws(w[0]) {
        let (body, es) = lemma_members_behind(t, s, si, keys, seen, extra, w.drop_first());
        lemma_behind_member_front(w[0], body, es);
        assert(w =~= (seq![w[0]] + body).push(0x7D));
        (seq![w[0]] + body, es)
    } else if w[0] == ascii::COMMA {
        let (body, es) = lemma_members_told(t, s, si, keys, seen, extra, true, w.drop_first());
        let all = seq![0x2Cu8] + body;
        assert(all.take(0) =~= Seq::empty());
        assert(all.skip(1) =~= body);
        assert(w =~= all.push(0x7D));
        (all, es)
    } else {
        let none = Seq::<u8>::empty();
        lemma_required_met(s, keys, seen, extra);
        assert(w =~= none.push(0x7D));
        assert(keys + names(Seq::empty()) =~= keys);
        (none, Seq::empty())
    }
}


proof fn lemma_skip_blanks_of_members(
    t: Seq<SchemaView>,
    s: SchemaView,
    si: u32,
    seen: Seq<u32>,
    extra: Seq<Seq<u8>>,
    must: bool,
    a: Seq<u8>,
    w: Seq<u8>,
)
    requires
        blank(a),
    ensures
        grammar::members(t, s, si, seen, extra, must, w) ==> grammar::members(
            t,
            s,
            si,
            seen,
            extra,
            must,
            a + w,
        ),
        grammar::after_value(t, s, si, seen, extra, w) ==> grammar::after_value(
            t,
            s,
            si,
            seen,
            extra,
            a + w,
        ),
    decreases a.len(),
{
    if a.len() == 0 {
        assert(a + w =~= w);
    } else {
        lemma_blank_rest(a);
        lemma_skip_blanks_of_members(t, s, si, seen, extra, must, a.drop_first(), w);
        assert((a + w)[0] == a[0]);
        assert((a + w).drop_first() =~= a.drop_first() + w);
    }
}

proof fn lemma_skip_blanks_of_colon(
    t: Seq<SchemaView>,
    s: SchemaView,
    si: u32,
    child: u32,
    seen: Seq<u32>,
    extra: Seq<Seq<u8>>,
    a: Seq<u8>,
    w: Seq<u8>,
)
    requires
        blank(a),
        grammar::colon(t, s, si, child, seen, extra, w),
    ensures
        grammar::colon(t, s, si, child, seen, extra, a + w),
    decreases a.len(),
{
    if a.len() == 0 {
        assert(a + w =~= w);
    } else {
        lemma_blank_rest(a);
        lemma_skip_blanks_of_colon(t, s, si, child, seen, extra, a.drop_first(), w);
        assert((a + w)[0] == a[0]);
        assert((a + w).drop_first() =~= a.drop_first() + w);
    }
}

/// The text of a member, by its quote, what is up to the next one, and the rest.
proof fn lemma_member_opened(q: Seq<u8>, b: Seq<u8>, a: Seq<u8>, v: Seq<u8>, tail: Seq<u8>)
    ensures
        ({
            let w = member_of(q, b, a, v) + tail;
            let rest = w.drop_first();
            &&& w.len() > 0
            &&& w[0] == 0x22
            &&& q.len() < rest.len()
            &&& rest.take(q.len() as int) == q
            &&& rest[q.len() as int] == 0x22
            &&& rest.skip(q.len() as int + 1) == b + (seq![0x3Au8] + (a + v) + tail)
        }),
{
    reveal(member_of);
    let w = member_of(q, b, a, v) + tail;
    let rest = w.drop_first();
    assert(rest =~= q + seq![0x22u8] + (b + (seq![0x3Au8] + (a + v) + tail)));
    assert(rest.take(q.len() as int) =~= q);
    assert(rest.skip(q.len() as int + 1) =~= b + (seq![0x3Au8] + (a + v) + tail));
}

/// A member and what may follow it read as the rest of an object.
proof fn lemma_member_reads(
    t: Seq<SchemaView>,
    s: SchemaView,
    si: u32,
    child: u32,
    seen: Seq<u32>,
    extra: Seq<Seq<u8>>,
    must: bool,
    q: Seq<u8>,
    b: Seq<u8>,
    a: Seq<u8>,
    e: Entry,
    tail: Seq<u8>,
)
    requires
        spells(q, e.0),
        e.0.len() <= u32::MAX,
        blank(b),
        blank(a),
        value(t, child, e.1),
        match machine::close_key(s, si, encode_utf8(e.0), seen, extra) {
            React::Keep(
                FrameView::Obj {
                    phase: PhaseView::Colon { child: c },
                    seen: seen_now,
                    extra: extra_now,
                    ..
                },
            ) => c == child && grammar::after_value(t, s, si, seen_now, extra_now, tail),
            _ => false,
        },
    ensures
        grammar::members(t, s, si, seen, extra, must, member_of(q, b, a, e.1) + tail),
{
    match machine::close_key(s, si, encode_utf8(e.0), seen, extra) {
        React::Keep(
            FrameView::Obj {
                phase: PhaseView::Colon { child: c },
                seen: seen_now,
                extra: extra_now,
                ..
            },
        ) => {
            let v = e.1;
            grammar::lemma_first_byte_of_value(t, child, v);
            lemma_padded(t, child, a, v);
            let from_colon = seq![0x3Au8] + (a + v) + tail;
            let k = (a + v).len() as int;
            assert(from_colon[0] == 0x3A);
            assert(from_colon.drop_first() =~= (a + v) + tail);
            assert(from_colon.drop_first().take(k) =~= a + v);
            assert(from_colon.drop_first().skip(k) =~= tail);
            assert(tail.len() > 0);
            assert(grammar::colon(t, s, si, child, seen_now, extra_now, from_colon));
            lemma_skip_blanks_of_colon(t, s, si, child, seen_now, extra_now, b, from_colon);
            lemma_member_opened(q, b, a, v, tail);
            let rest = (member_of(q, b, a, v) + tail).drop_first();
            assert(spells(rest.take(q.len() as int), e.0));
            assert(grammar::named(t, s, si, seen, extra, rest));
        },
        _ => {},
    }
}

/// A list of members reads as the rest of an object.
proof fn lemma_listed_members(
    t: Seq<SchemaView>,
    s: SchemaView,
    si: u32,
    keys: Seq<Seq<u8>>,
    seen: Seq<u32>,
    extra: Seq<Seq<u8>>,
    must: bool,
    body: Seq<u8>,
    es: Seq<Entry>,
)
    requires
        members_listed(body, es),
        must ==> es.len() > 0,
        more_members(t, s, keys, es),
        told(s, keys, seen, extra),
        required_sound(s),
        s.props.len() <= u32::MAX,
    ensures
        grammar::members(t, s, si, seen, extra, must, body.push(0x7D)),
    decreases es.len(),
{
    let close = seq![0x7Du8];
    assert(body.push(0x7D) =~= body + close);
    if es.len() == 0 {
        assert(keys + names(es) =~= keys);
        lemma_required_met(s, keys, seen, extra);
        lemma_skip_blanks_of_members(t, s, si, seen, extra, must, body, close);
    } else {
        let e = es[0];
        let others = es.drop_first();
        let key = encode_utf8(e.0);
        assert(es =~= seq![e] + others);
        lemma_names_push_front(e, keys, others);
        assert(member_meets(t, s, e));
        assert(!keys.contains(key)) by {
            let all = keys + names(es);
            if keys.contains(key) {
                let i = choose|i: int| 0 <= i < keys.len() && keys[i] == key;
                assert(all[i] == all[keys.len() as int]);
            }
        }
        lemma_close_key(s, si, key, keys, seen, extra);
        keywords::law_properties_are_found_by_name(s.props, key, 0);
        let k = if es.len() == 1 {
            body.len() as int
        } else {
            choose|k: int|
                #![trigger body.take(k)]
                0 <= k < body.len() && member_text(body.take(k), es[0]) && body[k] == 0x2C
                    && members_listed(body.skip(k + 1), es.drop_first())
        };
        assert(es.len() == 1 ==> body.take(k) =~= body);
        let (front, q, b, a, back) = lemma_member_parts(body.take(k), e);
        let rest = body.skip(k + 1);
        let tail = body.skip(k) + close;
        match machine::close_key(s, si, key, seen, extra) {
            React::Keep(
                FrameView::Obj {
                    phase: PhaseView::Colon { child },
                    seen: seen_now,
                    extra: extra_now,
                    ..
                },
            ) => {
                assert(value(t, child, e.1)) by {
                    match machine::find_prop(s.props, key, 0) {
                        Some(i) => {
                            assert(keywords::first_of_name(s.props, key, i));
                        },
                        None => {},
                    }
                }
                assert(grammar::after_value(t, s, si, seen_now, extra_now, tail)) by {
                    if es.len() > 1 {
                        assert forall|i: int| 0 <= i < others.len() implies member_meets(
                            t,
                            s,
                            #[trigger] others[i],
                        ) by {
                            assert(others[i] == es[i + 1]);
                        }
                        lemma_listed_members(
                            t,
                            s,
                            si,
                            keys.push(key),
                            seen_now,
                            extra_now,
                            true,
                            rest,
                            others,
                        );
                        assert(tail[0] == body[k]);
                        assert(tail.drop_first() =~= rest.push(0x7D));
                    } else {
                        assert(tail =~= close);
                        assert(keys.push(key) + names(others) =~= keys.push(key));
                        lemma_required_met(s, keys.push(key), seen_now, extra_now);
                    }
                }
                lemma_skip_blanks_of_members(
                    t,
                    s,
                    si,
                    seen_now,
                    extra_now,
                    true,
                    back,
                    tail,
                );
                lemma_member_reads(
                    t,
                    s,
                    si,
                    child,
                    seen,
                    extra,
                    must,
                    q,
                    b,
                    a,
                    e,
                    back + tail,
                );
                let w = member_of(q, b, a, e.1) + (back + tail);
                lemma_skip_blanks_of_members(t, s, si, seen, extra, must, front, w);
                assert(body =~= body.take(k) + body.skip(k));
                assert(body + close =~= front + w);
            },
            _ => {},
        }
    }
}

proof fn lemma_distinct_names(es: Seq<Entry>)
    ensures
        names(es).no_duplicates() == (forall|i: int, j: int|
            0 <= i < j < es.len() ==> (#[trigger] es[i]).0 != (#[trigger] es[j]).0),
{
    let ns = names(es);
    if ns.no_duplicates() {
        assert forall|i: int, j: int| 0 <= i < j < es.len() implies (#[trigger] es[i]).0 != (
        #[trigger] es[j]).0 by {
            assert(ns[i] != ns[j]);
        }
    }
    if forall|i: int, j: int|
        0 <= i < j < es.len() ==> (#[trigger] es[i]).0 != (#[trigger] es[j]).0 {
        assert forall|i: int, j: int| 0 <= i < ns.len() && 0 <= j < ns.len() && i != j implies ns[i]
            != ns[j] by {
            encode_utf8_decode_utf8(es[i].0);
            encode_utf8_decode_utf8(es[j].0);
            if i < j {
                assert(es[i].0 != es[j].0);
            } else {
                assert(es[j].0 != es[i].0);
            }
        }
    }
}

proof fn lemma_members_meet(t: Seq<SchemaView>, s: SchemaView, es: Seq<Entry>)
    ensures
        more_members(t, s, Seq::empty(), es) == members_meet(t, s, es),
{
    let ns = names(es);
    assert(Seq::<Seq<u8>>::empty() + ns =~= ns);
    lemma_distinct_names(es);
    assert forall|k: int| #[trigger] property_there(s, es, k) == ns.contains(s.props[k].0) by {
        if property_there(s, es, k) {
            let i = choose|i: int|
                0 <= i < es.len() && encode_utf8((#[trigger] es[i]).0) == s.props[k].0;
            assert(ns[i] == s.props[k].0);
        }
        if ns.contains(s.props[k].0) {
            let i = choose|i: int| 0 <= i < ns.len() && ns[i] == s.props[k].0;
            assert(encode_utf8(es[i].0) == s.props[k].0);
        }
    }
    if all_required(s, ns) {
        assert forall|m: int| 0 <= m < s.required.len() implies property_there(
            s,
            es,
            #[trigger] s.required[m] as int,
        ) by {
            assert(ns.contains(s.props[s.required[m] as int].0));
        }
    }
    if members_meet(t, s, es) {
        assert forall|m: int| 0 <= m < s.required.len() implies ns.contains(
            s.props[(#[trigger] s.required[m]) as int].0,
        ) by {
            assert(property_there(s, es, s.required[m] as int));
        }
    }
}

/// Objects: a text is an object that meets a schema exactly where it is `{`, a list of names and
/// values with commas between them, and `}`, each member may stand there, no name occurs twice, and
/// every required property is there.
pub proof fn law_objects_are_lists_of_members(t: Seq<SchemaView>, si: u32, w: Seq<u8>)
    requires
        machine::table_wf(t),
        si < t.len(),
        required_sound(t[si as int]),
    ensures
        t[si as int].ty is Object ==> (value(t, si, w) == exists|es: Seq<Entry>| #[trigger]
            object_text(w, es) && members_meet(t, t[si as int], es)),
        t[si as int].ty is Any && !t[si as int].has_enum ==> ((value(t, si, w) && w[0] == 0x7B)
            == exists|es: Seq<Entry>| #[trigger]
            object_text(w, es) && members_meet(t, t[si as int], es)),
{
    let s = t[si as int];
    let none = Seq::<Seq<u8>>::empty();
    assert(machine::schema_wf(s, t.len()));
    assert(told(s, none, Seq::empty(), Seq::empty()));
    if s.ty is Object || (s.ty is Any && !s.has_enum) {
        if value(t, si, w) && w[0] == 0x7B {
            grammar::lemma_value_of_brackets(t, si, w);
            let (body, es) = lemma_members_told(
                t,
                s,
                si,
                none,
                Seq::empty(),
                Seq::empty(),
                false,
                w.drop_first(),
            );
            assert(w =~= seq![w[0]] + w.drop_first());
            assert(w =~= seq![0x7Bu8] + body + seq![0x7Du8]);
            assert(object_text(w, es));
            lemma_members_meet(t, s, es);
        }
        if s.ty is Object && value(t, si, w) {
            grammar::lemma_value_of_brackets(t, si, w);
        }
        if exists|es: Seq<Entry>| #[trigger] object_text(w, es) && members_meet(t, s, es) {
            let es = choose|es: Seq<Entry>| #[trigger]
                object_text(w, es) && members_meet(t, s, es);
            let body = choose|body: Seq<u8>| #[trigger]
                members_listed(body, es) && w == seq![0x7Bu8] + body + seq![0x7Du8];
            lemma_members_meet(t, s, es);
            lemma_listed_members(
                t,
                s,
                si,
                none,
                Seq::empty(),
                Seq::empty(),
                false,
                body,
                es,
            );
            assert(w.drop_first() =~= body.push(0x7D));
            assert(value(t, si, w));
        }
    }
}


/// The text of a string of these characters: a quote, a spelling of them, a quote.
pub open spec fn string_text(w: Seq<u8>, cs: Seq<char>) -> bool {
    exists|q: Seq<u8>| #[trigger] spells(q, cs) && w == seq![0x22u8] + q + seq![0x22u8]
}

/// The characters make a string of schema `s`: neither too few nor too many, and one of the listed
/// strings where strings are listed.
pub open spec fn characters_meet(s: SchemaView, cs: Seq<char>) -> bool {
    &&& (s.min_len is Some ==> s.min_len->0 <= cs.len())
    &&& (s.max_len is Some ==> cs.len() <= s.max_len->0)
    &&& cs.len() <= u32::MAX
    &&& (s.enum_str.len() > 0 ==> exists|k: int|
        0 <= k < s.enum_str.len() && #[trigger] s.enum_str[k] == encode_utf8(cs))
}

/// `w` is a string of schema `s`.
pub open spec fn string_meets(s: SchemaView, w: Seq<u8>) -> bool {
    exists|cs: Seq<char>| #[trigger] string_text(w, cs) && characters_meet(s, cs)
}

proof fn lemma_string_meets(s: SchemaView, w: Seq<u8>)
    ensures
        grammar::string_value(s, w) == string_meets(s, w),
{
    if grammar::string_value(s, w) {
        let q = w.subrange(1, w.len() - 1);
        let cs = choose|cs: Seq<char>| #[trigger] spells(q, cs) && grammar::string_meets(s, cs);
        assert(w =~= seq![0x22u8] + q + seq![0x22u8]);
        assert(string_text(w, cs));
        if s.enum_str.len() > 0 {
            let k = choose|k: int|
                0 <= k < s.enum_str.len() && s.enum_str[k] == encode_utf8(cs);
            assert(s.enum_str[k] == encode_utf8(cs));
        }
        assert(characters_meet(s, cs));
    }
    if string_meets(s, w) {
        let cs = choose|cs: Seq<char>| #[trigger] string_text(w, cs) && characters_meet(s, cs);
        let q = choose|q: Seq<u8>| #[trigger]
            spells(q, cs) && w == seq![0x22u8] + q + seq![0x22u8];
        assert(w.subrange(1, w.len() - 1) =~= q);
        assert(w[0] == 0x22);
        assert(w[w.len() - 1] == 0x22);
        if s.enum_str.len() > 0 {
            let k = choose|k: int|
                0 <= k < s.enum_str.len() && #[trigger] s.enum_str[k] == encode_utf8(cs);
            assert(s.enum_str.contains(encode_utf8(cs)));
        }
        assert(grammar::string_meets(s, cs));
    }
}

/// Two doubles that are numbers and come in this order, or one that is none.
pub open spec fn at_most(a: Double, b: Double) -> bool {
    !a.nan() && !b.nan() ==> a.rank() <= b.rank()
}

/// Two doubles that are numbers and come in this order and differ, or one that is none.
pub open spec fn below(a: Double, b: Double) -> bool {
    !a.nan() && !b.nan() ==> a.rank() < b.rank()
}

/// The number is one of the listed integers. An integer is compared as such, another number by its
/// double.
pub open spec fn integer_listed(s: SchemaView, w: Seq<u8>, v: Double) -> bool {
    exists|k: int|
        #![trigger s.enum_int[k]]
        0 <= k < s.enum_int.len() && if numbers::integer_text(w) {
            s.enum_int[k] == numbers::integer_value(w)
        } else {
            double::int_value(s.enum_int[k]) is Some && double::int_value(s.enum_int[k])->0.same(v)
        }
}

/// `w` is a number of schema `s`: within its bounds, the exclusive ones left out, and one of the
/// listed integers where values are listed.
pub open spec fn number_meets(s: SchemaView, w: Seq<u8>) -> bool {
    numbers::json_number(w) && (double::decimal_value(w) matches Some(v) && {
        &&& (s.ty is Integer ==> numbers::integer_text(w))
        &&& (s.minimum is Some ==> at_most(s.minimum->0, v))
        &&& (s.maximum is Some ==> at_most(v, s.maximum->0))
        &&& (s.excl_min is Some ==> below(s.excl_min->0, v))
        &&& (s.excl_max is Some ==> below(v, s.excl_max->0))
        &&& (s.has_enum ==> integer_listed(s, w, v))
    })
}

/// Values that are neither arrays nor objects: `true` and `false` meet a boolean schema, `null` the
/// null schema, strings and numbers those of their types. Where only an `enum` is given, one of the
/// listed values does; without any keyword every such value does.
pub proof fn law_scalars_meet_their_types(t: Seq<SchemaView>, si: u32, w: Seq<u8>)
    requires
        si < t.len(),
    ensures
        ({
            let s = t[si as int];
            let yes_or_no = w == seq![0x74u8, 0x72, 0x75, 0x65] || w == seq![
                0x66u8,
                0x61,
                0x6C,
                0x73,
                0x65,
            ];
            let nothing = w == seq![0x6Eu8, 0x75, 0x6C, 0x6C];
            match s.ty {
                Ty::Boolean => value(t, si, w) == yes_or_no,
                Ty::Null => value(t, si, w) == nothing,
                Ty::String => value(t, si, w) == string_meets(s, w),
                Ty::Integer => value(t, si, w) == number_meets(s, w),
                Ty::Number => value(t, si, w) == number_meets(s, w),
                Ty::Any => if s.has_enum {
                    value(t, si, w) == ((s.enum_str.len() > 0 && string_meets(s, w)) || (
                    s.enum_int.len() > 0 && number_meets(s, w)))
                } else {
                    w.len() > 0 && w[0] != 0x5B && w[0] != 0x7B ==> value(t, si, w) == (yes_or_no
                        || nothing || string_meets(s, w) || number_meets(s, w))
                },
                _ => true,
            }
        }),
{
    let s = t[si as int];
    lemma_string_meets(s, w);
    assert(grammar::number_value(s, w) == number_meets(s, w)) by {
        if s.has_enum && double::decimal_value(w) is Some {
            let v = double::decimal_value(w)->0;
            if numbers::number_listed(s.enum_int, w) {
                if numbers::integer_text(w) {
                    let k = choose|k: int|
                        0 <= k < s.enum_int.len() && (#[trigger] s.enum_int[k])
                            == numbers::integer_value(w);
                    assert(integer_listed(s, w, v));
                } else {
                    let k = choose|k: int|
                        0 <= k < s.enum_int.len() && (double::int_value(
                            #[trigger] s.enum_int[k],
                        ) matches Some(e) && e.same(v));
                    assert(integer_listed(s, w, v));
                }
            }
        }
    }
    if number_meets(s, w) {
        let i = choose|i: int, j: int|
            0 <= i <= j <= w.len() && numbers::integer_text(#[trigger] w.take(i))
                && numbers::fraction_text(w.subrange(i, j)) && numbers::exponent_text(
                #[trigger] w.skip(j),
            );
        assert(w.len() > 0);
    }
    if string_meets(s, w) {
        assert(w.len() > 0);
    }
}

/// A document of a schema is a value of it with blanks around it.
pub proof fn law_documents_are_values(t: Seq<SchemaView>, root: u32, text: Seq<u8>)
    ensures
        grammar::document(t, root, text) == exists|w: Seq<u8>| #[trigger]
            value(t, root, w) && around(text, w),
{
    if grammar::document(t, root, text) {
        let k = choose|k: int|
            #![trigger text.take(k)]
            0 <= k <= text.len() && grammar::padded_value(t, root, text.take(k)) && grammar::all_ws(
                text.skip(k),
            );
        let (a, v) = lemma_padded_parts(t, root, text.take(k));
        let back = text.skip(k);
        assert(blank(back)) by {
            assert forall|i: int| 0 <= i < back.len() implies (#[trigger] back[i] == 0x20 || back[i]
                == 0x09 || back[i] == 0x0A || back[i] == 0x0D) by {
                assert(ascii::ws(back[i]));
            }
        }
        lemma_around(a, v, back);
        assert(text =~= a + v + back);
        assert(value(t, root, v) && around(text, v));
    }
    if exists|w: Seq<u8>| #[trigger] value(t, root, w) && around(text, w) {
        let w = choose|w: Seq<u8>| #[trigger] value(t, root, w) && around(text, w);
        let (a, b) = lemma_around_parts(text, w);
        lemma_padded(t, root, a, w);
        let k = (a + w).len() as int;
        assert(text.take(k) =~= a + w);
        assert(text.skip(k) =~= b);
        assert(grammar::all_ws(b));
    }
}

/// `name` is the name of one of the members.
pub open spec fn named_among(name: Seq<char>, es: Seq<Entry>) -> bool {
    exists|i: int| 0 <= i < es.len() && (#[trigger] es[i]).0 == name
}

/// Every document of an object schema has each name that `required` lists among its keys, and no
/// key twice.
pub proof fn law_documents_have_every_required_name(
    o: Vec<(String, Json)>,
    depth: int,
    via: Seq<char>,
    table: Seq<SchemaView>,
    listed_names: Vec<Json>,
    text: Seq<u8>,
)
    requires
        keywords::distinct_names(o@),
        keywords::says(o@, "required"@, Json::Array(listed_names)),
        compile::growing(table),
    ensures
        compile::compiled(Json::Object(o), depth, via, table) matches Ok((t, i)) ==> (
        t[i as int].ty is Object && grammar::document(t, i, text) ==> exists|
            w: Seq<u8>,
            es: Seq<Entry>,
        |
            around(text, w) && #[trigger] object_text(w, es) && members_meet(t, t[i as int], es)
                && forall|j: int|
                0 <= j < listed_names@.len() ==> (#[trigger] listed_names@[j]) is String
                    && named_among(listed_names@[j]->String_0@, es)),
{
    keywords::law_every_listed_name_is_required(o, depth, via, table);
    compile::lemma_compiled_grows(Json::Object(o), depth, via, table);
    match compile::compiled(Json::Object(o), depth, via, table) {
        Ok((t, i)) => {
            let s = t[i as int];
            let a = listed_names@;
            if s.ty is Object && grammar::document(t, i, text) {
                assert(keywords::names_and_indices(a, s.props, s.required));
                law_required_properties_are_declared(o, depth, via, table);
                law_documents_are_values(t, i, text);
                let w = choose|w: Seq<u8>| #[trigger] value(t, i, w) && around(text, w);
                law_objects_are_lists_of_members(t, i, w);
                let es = choose|es: Seq<Entry>| #[trigger]
                    object_text(w, es) && members_meet(t, s, es);
                assert forall|j: int| 0 <= j < a.len() implies (#[trigger] a[j]) is String
                    && named_among(a[j]->String_0@, es) by {
                    assert(keywords::name_listed(a[j], s.props, s.required));
                    let name = a[j]->String_0@;
                    let k = choose|k: int| #[trigger]
                        keywords::first_of_name(s.props, encode_utf8(name), k)
                            && s.required.contains(k as u32);
                    let m = choose|m: int|
                        0 <= m < s.required.len() && s.required[m] == k as u32;
                    assert(property_there(s, es, s.required[m] as int));
                    let at = choose|at: int|
                        0 <= at < es.len() && encode_utf8((#[trigger] es[at]).0) == s.props[k].0;
                    encode_utf8_decode_utf8(es[at].0);
                    encode_utf8_decode_utf8(name);
                    assert(es[at].0 == name);
                }
            }
        },
        Err(_) => {},
    }
}

/// What a compiled schema requires is declared in it.
pub proof fn law_required_properties_are_declared(
    o: Vec<(String, Json)>,
    depth: int,
    via: Seq<char>,
    table: Seq<SchemaView>,
)
    requires
        keywords::distinct_names(o@),
        compile::growing(table),
    ensures
        compile::compiled(Json::Object(o), depth, via, table) matches Ok((t, i)) ==> required_sound(
            t[i as int],
        ),
{
    keywords::law_every_listed_name_is_required(o, depth, via, table);
    keywords::law_members_are_found_by_name(o@, "required"@);
    match compile::compiled(Json::Object(o), depth, via, table) {
        Ok((t, i)) => {
            let s = t[i as int];
            if keywords::holds_name(o@, "required"@) {
                let r = choose|r: int| 0 <= r < o@.len() && (#[trigger] o@[r]).0@ == "required"@;
                let v = o@[r].1;
                assert(keywords::says(o@, "required"@, v));
                let a = v->Array_0@;
                assert forall|m: int| 0 <= m < s.required.len() implies (#[trigger] s.required[m])
                    < s.props.len() && keywords::first_of_name(
                    s.props,
                    s.props[s.required[m] as int].0,
                    s.required[m] as int,
                ) by {
                    assert(keywords::index_named(s.required[m], a, s.props));
                }
            }
        },
        Err(_) => {},
    }
}

} // verus!
