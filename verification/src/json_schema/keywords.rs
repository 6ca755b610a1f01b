//! What each keyword of a schema comes to in the compiled schema.

use vstd::prelude::*;
use vstd::utf8::*;

use crate::json_schema::compile;
use crate::json_schema::double::Double;
use crate::json_schema::machine;
use crate::json_schema::schema::{SchemaView, Ty};
use crate::json_schema::value;
use crate::json_schema::value::{Json, Members};

verus! {

/// No two members share a name.
pub open spec fn distinct_names(o: Members) -> bool {
    forall|i: int, j: int|
        0 <= i < o.len() && 0 <= j < o.len() && i != j ==> (#[trigger] o[i]).0@ != (#[trigger] o[j]).0@
}

/// `o` has a member `kw`.
pub open spec fn holds_name(o: Members, kw: Seq<char>) -> bool {
    exists|i: int| 0 <= i < o.len() && (#[trigger] o[i]).0@ == kw
}

/// `o` has a member `kw`, and it is `v`.
pub open spec fn says(o: Members, kw: Seq<char>, v: Json) -> bool {
    exists|i: int| 0 <= i < o.len() && (#[trigger] o[i]).0@ == kw && o[i].1 == v
}

proof fn lemma_first_member(o: Members, kw: Seq<char>, from: int, i: int)
    requires
        0 <= from <= i < o.len(),
        o[i].0@ == kw,
        forall|j: int| from <= j < i ==> (#[trigger] o[j]).0@ != kw,
    ensures
        value::find_member(o, kw, from) == Some(i),
    decreases i - from,
{
    if from < i {
        assert(o[from].0@ != kw);
        lemma_first_member(o, kw, from + 1, i);
    }
}

/// Looking a member up by its name gives that member, wherever it stands, and nothing where there
/// is none.
pub proof fn law_members_are_found_by_name(o: Members, kw: Seq<char>)
    requires
        distinct_names(o),
    ensures
        (value::member(o, kw) is None) == !holds_name(o, kw),
        forall|v: Json| (value::member(o, kw) == Some(v)) == #[trigger] says(o, kw, v),
{
    value::lemma_find_member(o, kw, 0);
    if holds_name(o, kw) {
        let i = choose|i: int| 0 <= i < o.len() && (#[trigger] o[i]).0@ == kw;
        assert forall|j: int| 0 <= j < i implies (#[trigger] o[j]).0@ != kw by {
            assert(o[i].0@ == kw);
        }
        lemma_first_member(o, kw, 0, i);
    }
    assert forall|v: Json| (value::member(o, kw) == Some(v)) == #[trigger] says(o, kw, v) by {
        if says(o, kw, v) {
            let i = choose|i: int| 0 <= i < o.len() && (#[trigger] o[i]).0@ == kw && o[i].1 == v;
            assert forall|j: int| 0 <= j < i implies (#[trigger] o[j]).0@ != kw by {
                assert(o[i].0@ == kw);
            }
            lemma_first_member(o, kw, 0, i);
        }
    }
}

/// Index `k` is the first property of that name.
pub open spec fn first_of_name(props: Seq<(Seq<u8>, u32)>, name: Seq<u8>, k: int) -> bool {
    &&& 0 <= k < props.len()
    &&& props[k].0 == name
    &&& forall|j: int| 0 <= j < k ==> (#[trigger] props[j]).0 != name
}

/// Looking a property up gives the first one of its name, and nothing where there is none.
pub proof fn law_properties_are_found_by_name(props: Seq<(Seq<u8>, u32)>, name: Seq<u8>, from: int)
    requires
        0 <= from,
    ensures
        match machine::find_prop(props, name, from) {
            Some(k) => {
                &&& from <= k < props.len()
                &&& props[k].0 == name
                &&& forall|j: int| from <= j < k ==> (#[trigger] props[j]).0 != name
            },
            None => forall|j: int| from <= j < props.len() ==> (#[trigger] props[j]).0 != name,
        },
    decreases props.len() - from,
{
    if from < props.len() && props[from].0 != name {
        law_properties_are_found_by_name(props, name, from + 1);
    }
}

/// `name` is a string, and the index of the property of that name is in the list.
pub open spec fn name_listed(name: Json, props: Seq<(Seq<u8>, u32)>, required: Seq<u32>) -> bool {
    name is String && exists|k: int| #[trigger]
        first_of_name(props, encode_utf8(name->String_0@), k) && required.contains(k as u32)
}

/// Property `k` is named in `a`.
pub open spec fn index_named(k: u32, a: Seq<Json>, props: Seq<(Seq<u8>, u32)>) -> bool {
    exists|i: int|
        0 <= i < a.len() && (#[trigger] a[i]) is String && first_of_name(
            props,
            encode_utf8(a[i]->String_0@),
            k as int,
        )
}

/// The names of a `required` array and the indices that stand for them: every name has its index,
/// every index has its name, and no index stands twice.
pub open spec fn names_and_indices(
    a: Seq<Json>,
    props: Seq<(Seq<u8>, u32)>,
    required: Seq<u32>,
) -> bool {
    &&& forall|i: int| 0 <= i < a.len() ==> name_listed(#[trigger] a[i], props, required)
    &&& forall|m: int| 0 <= m < required.len() ==> index_named(#[trigger] required[m], a, props)
    &&& required.no_duplicates()
}

/// A further name and its index.
proof fn lemma_another_name(
    a: Seq<Json>,
    i: int,
    props: Seq<(Seq<u8>, u32)>,
    done: Seq<u32>,
    k: int,
)
    requires
        0 <= i < a.len(),
        props.len() <= u32::MAX,
        names_and_indices(a.take(i), props, done),
        a[i] is String,
        first_of_name(props, encode_utf8(a[i]->String_0@), k),
    ensures
        names_and_indices(
            a.take(i + 1),
            props,
            if done.contains(k as u32) {
                done
            } else {
                done.push(k as u32)
            },
        ),
{
    let next = if done.contains(k as u32) {
        done
    } else {
        done.push(k as u32)
    };
    let before = a.take(i);
    let now = a.take(i + 1);
    assert forall|x: u32| done.contains(x) implies #[trigger] next.contains(x) by {
        let at = choose|at: int| 0 <= at < done.len() && done[at] == x;
        assert(next[at] == x);
    }
    assert(next.contains(k as u32)) by {
        if !done.contains(k as u32) {
            assert(next[done.len() as int] == k as u32);
        }
    }
    assert forall|j: int| 0 <= j < now.len() implies name_listed(#[trigger] now[j], props, next) by {
        if j < i {
            assert(now[j] == before[j]);
            assert(name_listed(before[j], props, done));
            let q = choose|q: int| #[trigger]
                first_of_name(props, encode_utf8(before[j]->String_0@), q) && done.contains(
                    q as u32,
                );
            assert(first_of_name(props, encode_utf8(now[j]->String_0@), q));
        } else {
            assert(now[j] == a[i]);
        }
    }
    assert forall|m: int| 0 <= m < next.len() implies index_named(#[trigger] next[m], now, props) by {
        if m < done.len() {
            assert(next[m] == done[m]);
            assert(index_named(done[m], before, props));
            let j = choose|j: int|
                0 <= j < before.len() && (#[trigger] before[j]) is String && first_of_name(
                    props,
                    encode_utf8(before[j]->String_0@),
                    done[m] as int,
                );
            assert(now[j] == before[j]);
        } else {
            assert(now[i] == a[i]);
        }
    }
}

/// The names before `i` and the indices that stand for them, and the names from there on.
proof fn lemma_required_from(
    a: Seq<Json>,
    i: int,
    props: Seq<(Seq<u8>, u32)>,
    done: Seq<u32>,
)
    requires
        0 <= i <= a.len(),
        props.len() <= u32::MAX,
        names_and_indices(a.take(i), props, done),
    ensures
        compile::required_from(a, i, props, done) matches Ok(list) ==> names_and_indices(
            a,
            props,
            list,
        ),
    decreases a.len() - i,
{
    if i == a.len() {
        assert(a.take(i) =~= a);
    } else {
        match a[i] {
            Json::String(name) => {
                law_properties_are_found_by_name(props, encode_utf8(name@), 0);
                match machine::find_prop(props, encode_utf8(name@), 0) {
                    Some(k) => {
                        lemma_another_name(a, i, props, done, k);
                        lemma_required_from(
                            a,
                            i + 1,
                            props,
                            if done.contains(k as u32) {
                                done
                            } else {
                                done.push(k as u32)
                            },
                        );
                    },
                    None => {},
                }
            },
            _ => {},
        }
    }
}

/// Every name that `required` lists is required: the index of the property of that name is among
/// the required indices of the compiled schema. Nothing else is among them, and nothing twice;
/// without the keyword nothing is required.
pub proof fn law_every_listed_name_is_required(
    o: Vec<(String, Json)>,
    depth: int,
    via: Seq<char>,
    table: Seq<SchemaView>,
)
    requires
        distinct_names(o@),
        compile::growing(table),
    ensures
        compile::compiled(Json::Object(o), depth, via, table) matches Ok((t, i)) ==> {
            &&& (!holds_name(o@, "required"@) ==> t[i as int].required.len() == 0)
            &&& forall|v: Json| #[trigger]
                says(o@, "required"@, v) ==> v is Array && names_and_indices(
                    v->Array_0@,
                    t[i as int].props,
                    t[i as int].required,
                )
        },
{
    compile::lemma_object_properties(o@, depth, table);
    match compile::compiled(Json::Object(o), depth, via, table) {
        Ok((t, i)) => {
            let s = t[i as int];
            let (t1, props) = compile::properties(o@, depth, table)->Ok_0;
            assert(s.props == props);
            law_members_are_found_by_name(o@, "required"@);
            match value::member(o@, "required"@) {
                Some(Json::Array(a)) => {
                    assert(names_and_indices(a@.take(0), props, Seq::empty()));
                    lemma_required_from(a@, 0, props, Seq::empty());
                },
                _ => {},
            }
        },
        Err(_) => {},
    }
}


/// A bound on a count is the number that the keyword gives, and is absent where the keyword is.
pub open spec fn count_kept(o: Members, kw: Seq<char>, bound: Option<u64>) -> bool {
    &&& (!holds_name(o, kw) ==> bound is None)
    &&& forall|v: Json| #[trigger]
        says(o, kw, v) ==> v is Number && bound is Some && v->Number_0.unsigned == bound
}

/// A bound on a number is the number that the keyword gives, and is absent where the keyword is.
pub open spec fn bound_kept(o: Members, kw: Seq<char>, bound: Option<Double>) -> bool {
    &&& (!holds_name(o, kw) ==> bound is None)
    &&& forall|v: Json| #[trigger]
        says(o, kw, v) ==> v is Number && bound is Some && v->Number_0.double == bound
}

/// Every bound of a compiled schema is the number of its own keyword, and a lower bound on a count
/// does not exceed the upper one.
pub proof fn law_bounds_are_those_of_the_keywords(
    o: Vec<(String, Json)>,
    depth: int,
    via: Seq<char>,
    table: Seq<SchemaView>,
)
    requires
        distinct_names(o@),
    ensures
        compile::compiled(Json::Object(o), depth, via, table) matches Ok((t, i)) ==> {
            let s = t[i as int];
            &&& count_kept(o@, "minItems"@, s.min_items)
            &&& count_kept(o@, "maxItems"@, s.max_items)
            &&& count_kept(o@, "minLength"@, s.min_len)
            &&& count_kept(o@, "maxLength"@, s.max_len)
            &&& bound_kept(o@, "minimum"@, s.minimum)
            &&& bound_kept(o@, "maximum"@, s.maximum)
            &&& bound_kept(o@, "exclusiveMinimum"@, s.excl_min)
            &&& bound_kept(o@, "exclusiveMaximum"@, s.excl_max)
            &&& (s.min_items is Some && s.max_items is Some ==> s.min_items->0 <= s.max_items->0)
            &&& (s.min_len is Some && s.max_len is Some ==> s.min_len->0 <= s.max_len->0)
        },
{
    law_members_are_found_by_name(o@, "minItems"@);
    law_members_are_found_by_name(o@, "maxItems"@);
    law_members_are_found_by_name(o@, "minLength"@);
    law_members_are_found_by_name(o@, "maxLength"@);
    law_members_are_found_by_name(o@, "minimum"@);
    law_members_are_found_by_name(o@, "maximum"@);
    law_members_are_found_by_name(o@, "exclusiveMinimum"@);
    law_members_are_found_by_name(o@, "exclusiveMaximum"@);
}

proof fn lemma_all_known(o: Members, from: int)
    requires
        0 <= from,
    ensures
        compile::first_unknown(o, from) is None ==> forall|j: int|
            from <= j < o.len() ==> compile::known((#[trigger] o[j]).0@),
    decreases o.len() - from,
{
    if from < o.len() {
        lemma_all_known(o, from + 1);
    }
}

proof fn lemma_all_placed(o: Members, ty: Ty, from: int)
    requires
        0 <= from,
    ensures
        compile::first_misplaced(o, ty, from) is None ==> forall|j: int|
            from <= j < o.len() ==> compile::allowed_for(ty, (#[trigger] o[j]).0@),
    decreases o.len() - from,
{
    if from < o.len() {
        lemma_all_placed(o, ty, from + 1);
    }
}

/// A compiled schema has the type that `type` names, and any type where the keyword is absent.
pub proof fn law_the_type_is_the_named_one(
    o: Vec<(String, Json)>,
    depth: int,
    via: Seq<char>,
    table: Seq<SchemaView>,
)
    requires
        distinct_names(o@),
    ensures
        compile::compiled(Json::Object(o), depth, via, table) matches Ok((t, i)) ==> {
            let s = t[i as int];
            &&& (s.ty is Any) == !holds_name(o@, "type"@)
            &&& forall|v: Json| #[trigger]
                says(o@, "type"@, v) ==> v is String && {
                    let name = v->String_0@;
                    &&& s.ty is Object ==> name == "object"@ || name == "json_object"@
                    &&& s.ty is Array ==> name == "array"@
                    &&& s.ty is String ==> name == "string"@
                    &&& s.ty is Integer ==> name == "integer"@
                    &&& s.ty is Number ==> name == "number"@
                    &&& s.ty is Boolean ==> name == "boolean"@
                    &&& s.ty is Null ==> name == "null"@
                }
        },
{
    law_members_are_found_by_name(o@, "type"@);
}

/// A schema that compiles has no keyword that means nothing for its type.
pub proof fn law_keywords_go_with_their_types(
    o: Vec<(String, Json)>,
    depth: int,
    via: Seq<char>,
    table: Seq<SchemaView>,
    j: int,
)
    requires
        0 <= j < o@.len(),
    ensures
        compile::compiled(Json::Object(o), depth, via, table) matches Ok((t, i)) ==> {
            let ty = t[i as int].ty;
            let kw = o@[j].0@;
            ||| kw == "type"@
            ||| ty is Object && (kw == "properties"@ || kw == "required"@ || kw
                == "additionalProperties"@)
            ||| ty is Array && (kw == "items"@ || kw == "minItems"@ || kw == "maxItems"@)
            ||| ty is String && (kw == "minLength"@ || kw == "maxLength"@)
            ||| (ty is Integer || ty is Number) && (kw == "minimum"@ || kw == "maximum"@ || kw
                == "exclusiveMinimum"@ || kw == "exclusiveMaximum"@)
            ||| (ty is String || ty is Integer || ty is Number || ty is Any) && kw == "enum"@
        },
{
    lemma_all_known(o@, 0);
    match compile::compiled(Json::Object(o), depth, via, table) {
        Ok((t, i)) => {
            let ty = t[i as int].ty;
            lemma_all_placed(o@, ty, 0);
            assert(compile::allowed_for(ty, o@[j].0@));
            if o@[j].0@ == "enum"@ {
                lemma_member_there(o@, "enum"@, 0, j);
                assert(value::member(o@, "enum"@) is Some);
            }
        },
        Err(_) => {},
    }
}

proof fn lemma_member_there(o: Members, kw: Seq<char>, from: int, j: int)
    requires
        0 <= from <= j < o.len(),
        o[j].0@ == kw,
    ensures
        value::find_member(o, kw, from) is Some,
    decreases j - from,
{
    if from < j && o[from].0@ != kw {
        lemma_member_there(o, kw, from + 1, j);
    }
}

/// Keys that are not declared are admitted as `additionalProperties` says. Where it says nothing,
/// declaring `properties` rules out all others.
pub proof fn law_declared_properties_rule_out_others(
    o: Vec<(String, Json)>,
    depth: int,
    via: Seq<char>,
    table: Seq<SchemaView>,
)
    requires
        distinct_names(o@),
    ensures
        compile::compiled(Json::Object(o), depth, via, table) matches Ok((t, i)) ==> {
            let s = t[i as int];
            &&& forall|v: Json| #[trigger]
                says(o@, "additionalProperties"@, v) ==> v == Json::Bool(s.additional)
            &&& !holds_name(o@, "additionalProperties"@) && holds_name(o@, "properties"@)
                ==> !s.additional
            &&& !holds_name(o@, "additionalProperties"@) && !holds_name(o@, "properties"@)
                ==> s.additional
        },
{
    law_members_are_found_by_name(o@, "additionalProperties"@);
    law_members_are_found_by_name(o@, "properties"@);
    match compile::compiled(Json::Object(o), depth, via, table) {
        Ok((t, i)) => {
            if holds_name(o@, "properties"@) {
                let j = choose|j: int| 0 <= j < o@.len() && (#[trigger] o@[j]).0@ == "properties"@;
                law_keywords_go_with_their_types(o, depth, via, table, j);
                reveal_strlit("properties");
                reveal_strlit("type");
                reveal_strlit("items");
                reveal_strlit("minItems");
                reveal_strlit("maxItems");
                reveal_strlit("minLength");
                reveal_strlit("maxLength");
                reveal_strlit("minimum");
                reveal_strlit("maximum");
                reveal_strlit("exclusiveMinimum");
                reveal_strlit("exclusiveMaximum");
                reveal_strlit("enum");
                assert("properties"@.len() == 10);
            }
        },
        Err(_) => {},
    }
}


/// Schema `at` of the table `t` is what `v` compiles to, `depth` levels down.
pub open spec fn stands_for(v: Json, depth: int, via: Seq<char>, t: Seq<SchemaView>, at: u32) -> bool {
    exists|before: Seq<SchemaView>|
        #[trigger] compile::compiled(v, depth, via, before) matches Ok((after, i)) && i == at
            && after.is_prefix_of(t)
}

/// Each property keeps its name and its own schema.
pub open spec fn properties_kept(
    p: Members,
    depth: int,
    t: Seq<SchemaView>,
    props: Seq<(Seq<u8>, u32)>,
) -> bool {
    &&& props.len() == p.len()
    &&& forall|j: int|
        #![trigger props[j]]
        0 <= j < p.len() ==> props[j].0 == encode_utf8(p[j].0@) && stands_for(
            p[j].1,
            depth,
            "properties"@,
            t,
            props[j].1,
        )
}

proof fn lemma_prefix_of_prefix(a: Seq<SchemaView>, b: Seq<SchemaView>, c: Seq<SchemaView>)
    requires
        a.is_prefix_of(b),
        b.is_prefix_of(c),
    ensures
        a.is_prefix_of(c),
{
    assert(a =~= c.subrange(0, a.len() as int)) by {
        assert forall|i: int| 0 <= i < a.len() implies a[i] == c[i] by {
            assert(a[i] == b.subrange(0, a.len() as int)[i]);
            assert(b[i] == c.subrange(0, b.len() as int)[i]);
        }
    }
}

proof fn lemma_still_stands(
    v: Json,
    depth: int,
    via: Seq<char>,
    t: Seq<SchemaView>,
    u: Seq<SchemaView>,
    at: u32,
)
    requires
        stands_for(v, depth, via, t, at),
        t.is_prefix_of(u),
    ensures
        stands_for(v, depth, via, u, at),
{
    let before = choose|before: Seq<SchemaView>|
        #[trigger] compile::compiled(v, depth, via, before) matches Ok((after, i)) && i == at
            && after.is_prefix_of(t);
    lemma_prefix_of_prefix((compile::compiled(v, depth, via, before)->Ok_0).0, t, u);
}

proof fn lemma_properties_kept(
    p: Members,
    i: int,
    depth: int,
    table: Seq<SchemaView>,
    done: Seq<(Seq<u8>, u32)>,
)
    requires
        0 <= i <= p.len(),
        depth <= compile::MAX_DEPTH,
        compile::growing(table),
        properties_kept(p.take(i), depth + 1, table, done),
    ensures
        compile::properties_from(p, i, depth, table, done) matches Ok((t, props)) ==> {
            &&& compile::grows(table, t)
            &&& properties_kept(p, depth + 1, t, props)
        },
    decreases p.len() - i,
{
    assert(table =~= table.subrange(0, table.len() as int));
    if i == p.len() {
        assert(p.take(i) =~= p);
    } else {
        compile::lemma_compiled_grows(p[i].1, depth + 1, "properties"@, table);
        match compile::compiled(p[i].1, depth + 1, "properties"@, table) {
            Ok((t, csi)) => {
                let next = done.push((encode_utf8(p[i].0@), csi));
                let now = p.take(i + 1);
                assert(t =~= t.subrange(0, t.len() as int));
                assert forall|j: int|
                    #![trigger next[j]]
                    0 <= j < now.len() implies next[j].0 == encode_utf8(now[j].0@) && stands_for(
                    now[j].1,
                    depth + 1,
                    "properties"@,
                    t,
                    next[j].1,
                ) by {
                    if j < i {
                        assert(next[j] == done[j]);
                        assert(now[j] == p.take(i)[j]);
                        lemma_still_stands(
                            now[j].1,
                            depth + 1,
                            "properties"@,
                            table,
                            t,
                            done[j].1,
                        );
                    } else {
                        assert(now[j] == p[i]);
                        assert(t.is_prefix_of(t));
                    }
                }
                lemma_properties_kept(p, i + 1, depth, t, next);
                match compile::properties_from(p, i + 1, depth, t, next) {
                    Ok((u, props)) => {
                        lemma_prefix_of_prefix(table, t, u);
                    },
                    Err(_) => {},
                }
            },
            Err(_) => {},
        }
    }
}

/// The properties of a compiled schema are those that `properties` declares, in their order, each
/// with its own schema; without the keyword there are none. The schema of the items is that of
/// `items`, and there is none without it. What stood in the table stays.
pub proof fn law_properties_and_items_keep_their_schemas(
    o: Vec<(String, Json)>,
    depth: int,
    via: Seq<char>,
    table: Seq<SchemaView>,
)
    requires
        distinct_names(o@),
        compile::growing(table),
    ensures
        compile::compiled(Json::Object(o), depth, via, table) matches Ok((t, i)) ==> {
            let s = t[i as int];
            &&& compile::grows(table, t)
            &&& i == t.len() - 1
            &&& table.len() <= i
            &&& s.depth == depth as usize
            &&& (!holds_name(o@, "properties"@) ==> s.props.len() == 0)
            &&& forall|v: Json| #[trigger]
                says(o@, "properties"@, v) ==> v is Object && properties_kept(
                    v->Object_0@,
                    depth + 1,
                    t,
                    s.props,
                )
            &&& (!holds_name(o@, "items"@) ==> s.items is None)
            &&& forall|v: Json| #[trigger]
                says(o@, "items"@, v) ==> s.items is Some && stands_for(
                    v,
                    depth + 1,
                    "items"@,
                    t,
                    s.items->0,
                )
        },
{
    law_members_are_found_by_name(o@, "properties"@);
    law_members_are_found_by_name(o@, "items"@);
    compile::lemma_compiled_grows(Json::Object(o), depth, via, table);
    compile::lemma_object_properties(o@, depth, table);
    match compile::compiled(Json::Object(o), depth, via, table) {
        Ok((t, i)) => {
            let s = t[i as int];
            let (t1, props) = compile::properties(o@, depth, table)->Ok_0;
            let (t2, item) = compile::items(o@, depth, t1)->Ok_0;
            assert(t =~= t2.push(s));
            assert(t2 =~= t.subrange(0, t2.len() as int));
            assert(t1 =~= t1.subrange(0, t1.len() as int));
            match value::member(o@, "items"@) {
                Some(v) => {
                    compile::lemma_compiled_grows(v, depth + 1, "items"@, t1);
                    assert(stands_for(v, depth + 1, "items"@, t, s.items->0));
                },
                None => {},
            }
            assert(t1.is_prefix_of(t2));
            lemma_prefix_of_prefix(t1, t2, t);
            match value::member(o@, "properties"@) {
                Some(Json::Object(p)) => {
                    assert(p@.take(0) =~= Seq::empty());
                    lemma_properties_kept(p@, 0, depth, table, Seq::empty());
                    assert forall|j: int|
                        #![trigger s.props[j]]
                        0 <= j < p@.len() implies s.props[j].0 == encode_utf8(p@[j].0@)
                        && stands_for(p@[j].1, depth + 1, "properties"@, t, s.props[j].1) by {
                        lemma_still_stands(
                            p@[j].1,
                            depth + 1,
                            "properties"@,
                            t1,
                            t,
                            props[j].1,
                        );
                    }
                    assert(properties_kept(p@, depth + 1, t, s.props));
                },
                _ => {},
            }
        },
        Err(_) => {},
    }
}

/// `v` is in one of the two lists, according to its kind.
pub open spec fn value_listed(v: Json, strs: Seq<Seq<u8>>, ints: Seq<i64>) -> bool {
    match v {
        Json::String(s) => strs.contains(encode_utf8(s@)),
        Json::Number(n) => n.signed is Some && ints.contains(n.signed->0),
        _ => false,
    }
}

/// One of the values is the string `w`.
pub open spec fn string_among(w: Seq<u8>, a: Seq<Json>) -> bool {
    exists|i: int|
        0 <= i < a.len() && (#[trigger] a[i]) is String && encode_utf8(a[i]->String_0@) == w
}

/// One of the values is the integer `x`.
pub open spec fn integer_among(x: i64, a: Seq<Json>) -> bool {
    exists|i: int|
        0 <= i < a.len() && (#[trigger] a[i]) is Number && a[i]->Number_0.signed == Some(x)
}

/// The lists hold the strings and the integers of `a`, and nothing else.
pub open spec fn lists_of(a: Seq<Json>, strs: Seq<Seq<u8>>, ints: Seq<i64>) -> bool {
    &&& forall|i: int| 0 <= i < a.len() ==> value_listed(#[trigger] a[i], strs, ints)
    &&& forall|k: int| 0 <= k < strs.len() ==> string_among(#[trigger] strs[k], a)
    &&& forall|k: int| 0 <= k < ints.len() ==> integer_among(#[trigger] ints[k], a)
}

proof fn lemma_another_value(
    a: Seq<Json>,
    i: int,
    strs: Seq<Seq<u8>>,
    ints: Seq<i64>,
    strs_now: Seq<Seq<u8>>,
    ints_now: Seq<i64>,
)
    requires
        0 <= i < a.len(),
        lists_of(a.take(i), strs, ints),
        match a[i] {
            Json::String(s) => strs_now == strs.push(encode_utf8(s@)) && ints_now == ints,
            Json::Number(n) => strs_now == strs && n.signed is Some && ints_now == ints.push(
                n.signed->0,
            ),
            _ => false,
        },
    ensures
        lists_of(a.take(i + 1), strs_now, ints_now),
{
    let before = a.take(i);
    let now = a.take(i + 1);
    assert(now[i] == a[i]);
    assert forall|j: int| 0 <= j < now.len() implies value_listed(
        #[trigger] now[j],
        strs_now,
        ints_now,
    ) by {
        if j < i {
            assert(now[j] == before[j]);
            match now[j] {
                Json::String(s) => {
                    let k = choose|k: int| 0 <= k < strs.len() && strs[k] == encode_utf8(s@);
                    assert(strs_now[k] == strs[k]);
                },
                Json::Number(n) => {
                    let k = choose|k: int| 0 <= k < ints.len() && ints[k] == n.signed->0;
                    assert(ints_now[k] == ints[k]);
                },
                _ => {},
            }
        } else {
            match a[i] {
                Json::String(s) => {
                    assert(strs_now[strs.len() as int] == encode_utf8(s@));
                },
                Json::Number(n) => {
                    assert(ints_now[ints.len() as int] == n.signed->0);
                },
                _ => {},
            }
        }
    }
    assert forall|k: int| 0 <= k < strs_now.len() implies string_among(
        #[trigger] strs_now[k],
        now,
    ) by {
        if k < strs.len() {
            assert(string_among(strs[k], before));
            let j = choose|j: int|
                0 <= j < before.len() && (#[trigger] before[j]) is String && encode_utf8(
                    before[j]->String_0@,
                ) == strs[k];
            assert(now[j] == before[j]);
        }
    }
    assert forall|k: int| 0 <= k < ints_now.len() implies integer_among(
        #[trigger] ints_now[k],
        now,
    ) by {
        if k < ints.len() {
            assert(integer_among(ints[k], before));
            let j = choose|j: int|
                0 <= j < before.len() && (#[trigger] before[j]) is Number
                    && before[j]->Number_0.signed == Some(ints[k]);
            assert(now[j] == before[j]);
        }
    }
}

proof fn lemma_enum_from(a: Seq<Json>, i: int, strs: Seq<Seq<u8>>, ints: Seq<i64>)
    requires
        0 <= i <= a.len(),
        lists_of(a.take(i), strs, ints),
    ensures
        compile::enum_from(a, i, strs, ints) matches Ok((s, n)) ==> lists_of(a, s, n),
    decreases a.len() - i,
{
    if i == a.len() {
        assert(a.take(i) =~= a);
    } else {
        match a[i] {
            Json::String(s) => {
                let next = strs.push(encode_utf8(s@));
                lemma_another_value(a, i, strs, ints, next, ints);
                lemma_enum_from(a, i + 1, next, ints);
            },
            Json::Number(n) => match n.signed {
                Some(x) => {
                    lemma_another_value(a, i, strs, ints, strs, ints.push(x));
                    lemma_enum_from(a, i + 1, strs, ints.push(x));
                },
                None => {},
            },
            _ => {},
        }
    }
}

/// The lists of a compiled schema hold the strings and the integers that `enum` lists, and nothing
/// else. There is at least one, and each fits the type. Without the keyword the lists are empty.
pub proof fn law_listed_values_are_those_of_the_enum(
    o: Vec<(String, Json)>,
    depth: int,
    via: Seq<char>,
    table: Seq<SchemaView>,
)
    requires
        distinct_names(o@),
    ensures
        compile::compiled(Json::Object(o), depth, via, table) matches Ok((t, i)) ==> {
            let s = t[i as int];
            &&& s.has_enum == holds_name(o@, "enum"@)
            &&& (!s.has_enum ==> s.enum_str.len() == 0 && s.enum_int.len() == 0)
            &&& (s.has_enum ==> s.enum_str.len() + s.enum_int.len() > 0)
            &&& (s.ty is String ==> s.enum_int.len() == 0)
            &&& (s.ty is Integer || s.ty is Number ==> s.enum_str.len() == 0)
            &&& forall|v: Json| #[trigger]
                says(o@, "enum"@, v) ==> v is Array && lists_of(
                    v->Array_0@,
                    s.enum_str,
                    s.enum_int,
                )
        },
{
    law_members_are_found_by_name(o@, "enum"@);
    match value::member(o@, "enum"@) {
        Some(Json::Array(a)) => {
            assert(a@.take(0) =~= Seq::empty());
            lemma_enum_from(a@, 0, Seq::empty(), Seq::empty());
        },
        _ => {},
    }
}


/// Word by which `type` names a type.
pub open spec fn names_type(name: Seq<char>, ty: Ty) -> bool {
    match ty {
        Ty::Object => name == "object"@ || name == "json_object"@,
        Ty::Array => name == "array"@,
        Ty::String => name == "string"@,
        Ty::Integer => name == "integer"@,
        Ty::Number => name == "number"@,
        Ty::Boolean => name == "boolean"@,
        Ty::Null => name == "null"@,
        Ty::Any => false,
    }
}

/// A keyword that goes with a type.
pub open spec fn goes_with(ty: Ty, kw: Seq<char>) -> bool {
    ||| kw == "type"@
    ||| ty is Object && (kw == "properties"@ || kw == "required"@ || kw == "additionalProperties"@)
    ||| ty is Array && (kw == "items"@ || kw == "minItems"@ || kw == "maxItems"@)
    ||| ty is String && (kw == "minLength"@ || kw == "maxLength"@)
    ||| (ty is Integer || ty is Number) && (kw == "minimum"@ || kw == "maximum"@ || kw
        == "exclusiveMinimum"@ || kw == "exclusiveMaximum"@)
    ||| (ty is String || ty is Integer || ty is Number || ty is Any) && kw == "enum"@
}

/// A value that an `enum` of a type may list.
pub open spec fn may_be_listed(ty: Ty, v: Json) -> bool {
    match v {
        Json::String(_) => ty is String || ty is Any,
        Json::Number(n) => n.signed is Some && (ty is Integer || ty is Number || ty is Any),
        _ => false,
    }
}

/// A member that counts is a whole number that is not negative.
pub open spec fn count_given(o: Members, kw: Seq<char>) -> bool {
    forall|v: Json| #[trigger]
        says(o, kw, v) ==> v is Number && v->Number_0.unsigned is Some
}

/// A member that bounds is a number.
pub open spec fn bound_given(o: Members, kw: Seq<char>) -> bool {
    forall|v: Json| #[trigger]
        says(o, kw, v) ==> v is Number && v->Number_0.double is Some
}

/// Of two members that count, the first does not exceed the second.
pub open spec fn counts_in_order(o: Members, lo: Seq<char>, hi: Seq<char>) -> bool {
    forall|a: Json, b: Json| #[trigger]
        says(o, lo, a) && #[trigger] says(o, hi, b) && a is Number && b is Number && a->Number_0.unsigned is Some && b->Number_0.unsigned is Some
            ==> a->Number_0.unsigned->0 <= b->Number_0.unsigned->0
}

/// A schema of this type that uses its keywords as they are meant.
pub open spec fn well_used(o: Members, ty: Ty, props: Seq<(Seq<u8>, u32)>) -> bool {
    &&& distinct_names(o)
    &&& (ty is Any ==> !holds_name(o, "type"@))
    &&& (!(ty is Any) ==> exists|s: String| #[trigger]
        says(o, "type"@, Json::String(s)) && names_type(s@, ty))
    &&& forall|j: int| 0 <= j < o.len() ==> goes_with(ty, (#[trigger] o[j]).0@)
    &&& forall|v: Json| #[trigger] says(o, "additionalProperties"@, v) ==> v is Bool
    &&& count_given(o, "minItems"@) && count_given(o, "maxItems"@) && count_given(o, "minLength"@)
        && count_given(o, "maxLength"@)
    &&& counts_in_order(o, "minItems"@, "maxItems"@) && counts_in_order(
        o,
        "minLength"@,
        "maxLength"@,
    )
    &&& bound_given(o, "minimum"@) && bound_given(o, "maximum"@) && bound_given(
        o,
        "exclusiveMinimum"@,
    ) && bound_given(o, "exclusiveMaximum"@)
    &&& forall|v: Json| #[trigger]
        says(o, "enum"@, v) ==> v is Array && v->Array_0@.len() > 0 && forall|i: int|
            0 <= i < v->Array_0@.len() ==> may_be_listed(ty, #[trigger] v->Array_0@[i])
    &&& forall|v: Json| #[trigger]
        says(o, "required"@, v) ==> v is Array && forall|i: int|
            0 <= i < v->Array_0@.len() ==> (#[trigger] v->Array_0@[i]) is String && declared(
                props,
                encode_utf8(v->Array_0@[i]->String_0@),
            )
}

/// A property of this name is declared.
pub open spec fn declared(props: Seq<(Seq<u8>, u32)>, name: Seq<u8>) -> bool {
    exists|k: int| 0 <= k < props.len() && (#[trigger] props[k]).0 == name
}

proof fn lemma_none_unknown(o: Members, ty: Ty, from: int)
    requires
        0 <= from,
        forall|j: int| 0 <= j < o.len() ==> goes_with(ty, (#[trigger] o[j]).0@),
    ensures
        compile::first_unknown(o, from) is None,
        compile::first_misplaced(o, ty, from) is None,
    decreases o.len() - from,
{
    if from < o.len() {
        assert(goes_with(ty, o[from].0@));
        lemma_none_unknown(o, ty, from + 1);
    }
}

proof fn lemma_required_ok(a: Seq<Json>, i: int, props: Seq<(Seq<u8>, u32)>, done: Seq<u32>)
    requires
        0 <= i,
        forall|j: int|
            0 <= j < a.len() ==> (#[trigger] a[j]) is String && declared(
                props,
                encode_utf8(a[j]->String_0@),
            ),
    ensures
        compile::required_from(a, i, props, done) is Ok,
    decreases a.len() - i,
{
    if i < a.len() {
        let name = encode_utf8(a[i]->String_0@);
        assert(declared(props, name));
        law_properties_are_found_by_name(props, name, 0);
        let k = machine::find_prop(props, name, 0)->0;
        lemma_required_ok(
            a,
            i + 1,
            props,
            if done.contains(k as u32) {
                done
            } else {
                done.push(k as u32)
            },
        );
    }
}

proof fn lemma_enum_ok(a: Seq<Json>, i: int, ty: Ty, strs: Seq<Seq<u8>>, ints: Seq<i64>)
    requires
        0 <= i,
        forall|j: int| 0 <= j < a.len() ==> may_be_listed(ty, #[trigger] a[j]),
        compile::enum_fits(ty, strs, ints),
    ensures
        compile::enum_from(a, i, strs, ints) matches Ok((s, n)) && compile::enum_fits(ty, s, n)
            && s.len() >= strs.len() && n.len() >= ints.len() && (i < a.len() ==> s.len() + n.len()
            > 0),
    decreases a.len() - i,
{
    if i < a.len() {
        assert(may_be_listed(ty, a[i]));
        match a[i] {
            Json::String(s) => {
                lemma_enum_ok(a, i + 1, ty, strs.push(encode_utf8(s@)), ints);
            },
            Json::Number(n) => {
                lemma_enum_ok(a, i + 1, ty, strs, ints.push(n.signed->0));
            },
            _ => {},
        }
    }
}

proof fn lemma_type_ok(o: Members, ty: Ty)
    requires
        distinct_names(o),
        ty is Any ==> !holds_name(o, "type"@),
        !(ty is Any) ==> exists|s: String| #[trigger]
            says(o, "type"@, Json::String(s)) && names_type(s@, ty),
    ensures
        compile::declared_type(o) == Ok::<Ty, Seq<char>>(ty),
{
    law_members_are_found_by_name(o, "type"@);
    reveal_strlit("object");
    reveal_strlit("json_object");
    reveal_strlit("array");
    reveal_strlit("string");
    reveal_strlit("integer");
    reveal_strlit("number");
    reveal_strlit("boolean");
    reveal_strlit("null");
    assert("object"@.len() == 6 && "json_object"@.len() == 11 && "array"@.len() == 5);
    assert("string"@.len() == 6 && "integer"@.len() == 7 && "number"@.len() == 6);
    assert("boolean"@.len() == 7 && "null"@.len() == 4);
    assert("object"@[0] == 'o' && "string"@[0] == 's' && "number"@[0] == 'n');
    assert("integer"@[0] == 'i' && "boolean"@[0] == 'b');
    if !(ty is Any) {
        let s = choose|s: String| #[trigger]
            says(o, "type"@, Json::String(s)) && names_type(s@, ty);
        assert(value::member(o, "type"@) == Some(Json::String(s)));
    }
}

proof fn lemma_bounds_ok(o: Members)
    requires
        distinct_names(o),
        count_given(o, "minItems"@) && count_given(o, "maxItems"@) && count_given(o, "minLength"@)
            && count_given(o, "maxLength"@),
        counts_in_order(o, "minItems"@, "maxItems"@),
        counts_in_order(o, "minLength"@, "maxLength"@),
        bound_given(o, "minimum"@) && bound_given(o, "maximum"@) && bound_given(
            o,
            "exclusiveMinimum"@,
        ) && bound_given(o, "exclusiveMaximum"@),
    ensures
        compile::bounds(o) is Ok,
{
    lemma_count_ok(o, "minItems"@, "maxItems"@);
    lemma_count_ok(o, "minLength"@, "maxLength"@);
    lemma_bound_ok(o, "minimum"@);
    lemma_bound_ok(o, "maximum"@);
    lemma_bound_ok(o, "exclusiveMinimum"@);
    lemma_bound_ok(o, "exclusiveMaximum"@);
}

proof fn lemma_count_ok(o: Members, lo: Seq<char>, hi: Seq<char>)
    requires
        distinct_names(o),
        count_given(o, lo),
        count_given(o, hi),
        counts_in_order(o, lo, hi),
    ensures
        compile::count_pair(o, lo, hi) is Ok,
{
    law_members_are_found_by_name(o, lo);
    law_members_are_found_by_name(o, hi);
    if value::member(o, lo) is Some {
        assert(says(o, lo, value::member(o, lo)->0));
    }
    if value::member(o, hi) is Some {
        assert(says(o, hi, value::member(o, hi)->0));
    }
}

proof fn lemma_bound_ok(o: Members, kw: Seq<char>)
    requires
        distinct_names(o),
        bound_given(o, kw),
    ensures
        compile::bound_of(o, kw) is Ok,
{
    law_members_are_found_by_name(o, kw);
    if value::member(o, kw) is Some {
        assert(says(o, kw, value::member(o, kw)->0));
    }
}

/// A schema that uses the keywords of its type as they are meant compiles, to a schema of that type,
/// wherever the schemas below it do and the table has room.
pub proof fn law_well_used_schemas_compile(
    o: Vec<(String, Json)>,
    ty: Ty,
    depth: int,
    via: Seq<char>,
    table: Seq<SchemaView>,
    t1: Seq<SchemaView>,
    props: Seq<(Seq<u8>, u32)>,
    t2: Seq<SchemaView>,
    item: Option<u32>,
)
    requires
        well_used(o@, ty, props),
        depth <= 12,
        compile::properties(o@, depth, table) == Ok::<
            (Seq<SchemaView>, Seq<(Seq<u8>, u32)>),
            Seq<char>,
        >((t1, props)),
        compile::items(o@, depth, t1) == Ok::<(Seq<SchemaView>, Option<u32>), Seq<char>>((t2, item)),
        t2.len() < u32::MAX,
    ensures
        compile::compiled(Json::Object(o), depth, via, table) matches Ok((t, i)) && t[i as int].ty
            == ty && i == t2.len() && t.len() == t2.len() + 1,
{
    lemma_none_unknown(o@, ty, 0);
    lemma_type_ok(o@, ty);
    lemma_bounds_ok(o@);
    law_members_are_found_by_name(o@, "additionalProperties"@);
    law_members_are_found_by_name(o@, "required"@);
    law_members_are_found_by_name(o@, "enum"@);
    if value::member(o@, "additionalProperties"@) is Some {
        assert(says(
            o@,
            "additionalProperties"@,
            value::member(o@, "additionalProperties"@)->0,
        ));
    }
    match value::member(o@, "required"@) {
        Some(v) => {
            assert(says(o@, "required"@, v));
            lemma_required_ok(v->Array_0@, 0, props, Seq::empty());
        },
        None => {},
    }
    match value::member(o@, "enum"@) {
        Some(v) => {
            assert(says(o@, "enum"@, v));
            let a = v->Array_0@;
            assert(may_be_listed(ty, a[0]));
            lemma_enum_ok(a, 0, ty, Seq::empty(), Seq::empty());
        },
        None => {},
    }
    assert(compile::checked_type(o@) == Ok::<Ty, Seq<char>>(ty));
}

} // verus!
