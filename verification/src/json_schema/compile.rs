//! Compiling a schema into a table of schemas, or refusing it.
//!
//! Supported are `type`, `properties`, `required`, `additionalProperties`, `items`, `minItems`,
//! `maxItems`, `minLength`, `maxLength`, `minimum`, `maximum`, `exclusiveMinimum`,
//! `exclusiveMaximum` and `enum` (strings and integers), up to a nesting depth of 12. Everything
//! else is refused by name, never ignored.
//!
//! Where `properties` is present, an absent `additionalProperties` counts as `false`; an object
//! schema without `properties` admits any key.

use vstd::prelude::*;
use vstd::utf8::*;

use crate::json_schema::double::Double;
use crate::json_schema::machine;
use crate::json_schema::messages;
use crate::json_schema::schema;
use crate::json_schema::schema::{SchemaView, Ty};
use crate::json_schema::value;
use crate::json_schema::value::{Json, Members};

verus! {

/// Deepest nesting of schemas.
pub const MAX_DEPTH: usize = 12;

/// A keyword that schemas may use.
pub open spec fn known(kw: Seq<char>) -> bool {
    ||| kw == "type"@
    ||| kw == "properties"@
    ||| kw == "required"@
    ||| kw == "additionalProperties"@
    ||| kw == "items"@
    ||| kw == "minItems"@
    ||| kw == "maxItems"@
    ||| kw == "minLength"@
    ||| kw == "maxLength"@
    ||| kw == "minimum"@
    ||| kw == "maximum"@
    ||| kw == "exclusiveMinimum"@
    ||| kw == "exclusiveMaximum"@
    ||| kw == "enum"@
}

/// A keyword that means something for `ty`. An untyped schema may only constrain through `enum`.
pub open spec fn allowed_for(ty: Ty, kw: Seq<char>) -> bool {
    kw == "type"@ || match ty {
        Ty::Object => kw == "properties"@ || kw == "required"@ || kw == "additionalProperties"@
            || kw == "enum"@,
        Ty::Array => kw == "items"@ || kw == "minItems"@ || kw == "maxItems"@,
        Ty::String => kw == "minLength"@ || kw == "maxLength"@ || kw == "enum"@,
        Ty::Integer | Ty::Number => kw == "minimum"@ || kw == "maximum"@ || kw
            == "exclusiveMinimum"@ || kw == "exclusiveMaximum"@ || kw == "enum"@,
        Ty::Boolean | Ty::Null => false,
        Ty::Any => kw == "enum"@,
    }
}

/// Index of the first member whose name is not known, from `i` on.
pub open spec fn first_unknown(o: Members, i: int) -> Option<int>
    decreases o.len() - i,
{
    if i < 0 || i >= o.len() {
        None
    } else if !known(o[i].0@) {
        Some(i)
    } else {
        first_unknown(o, i + 1)
    }
}

/// Index of the first member whose name means nothing for `ty`, from `i` on.
pub open spec fn first_misplaced(o: Members, ty: Ty, i: int) -> Option<int>
    decreases o.len() - i,
{
    if i < 0 || i >= o.len() {
        None
    } else if !allowed_for(ty, o[i].0@) {
        Some(i)
    } else {
        first_misplaced(o, ty, i + 1)
    }
}

pub open spec fn named_type(name: Seq<char>) -> Option<Ty> {
    if name == "object"@ || name == "json_object"@ {
        Some(Ty::Object)
    } else if name == "array"@ {
        Some(Ty::Array)
    } else if name == "string"@ {
        Some(Ty::String)
    } else if name == "integer"@ {
        Some(Ty::Integer)
    } else if name == "number"@ {
        Some(Ty::Number)
    } else if name == "boolean"@ {
        Some(Ty::Boolean)
    } else if name == "null"@ {
        Some(Ty::Null)
    } else {
        None
    }
}

/// Type that `type` declares.
pub open spec fn declared_type(o: Members) -> Result<Ty, Seq<char>> {
    match value::member(o, "type"@) {
        None => Ok(Ty::Any),
        Some(Json::String(s)) => match named_type(s@) {
            Some(ty) => Ok(ty),
            None => Err(
                messages::around(
                    "keyword 'type' has unsupported value '"@,
                    s@,
                    "' (V1 supports: object/array/string/integer/number/boolean/null/json_object)"@,
                ),
            ),
        },
        Some(Json::Array(_)) => Err(
            messages::prefixed(
                "keyword 'type' with a union type array is not supported in this release"@,
            ),
        ),
        Some(other) => Err(
            messages::around(
                "keyword 'type' must be a string (found "@,
                value::kind_name(other),
                ")"@,
            ),
        ),
    }
}

/// How the declared type is called in messages.
pub open spec fn type_label(o: Members) -> Seq<char> {
    match value::member(o, "type"@) {
        Some(Json::String(s)) => "\"type\":\""@ + s@ + "\""@,
        _ => "no \"type\""@,
    }
}

/// Type of the schema, once its keywords have been checked. Unknown keywords are refused before
/// any value is looked at.
pub open spec fn checked_type(o: Members) -> Result<Ty, Seq<char>> {
    match first_unknown(o, 0) {
        Some(i) => Err(messages::unsupported(o[i].0@)),
        None => match declared_type(o) {
            Err(e) => Err(e),
            Ok(ty) => match first_misplaced(o, ty, 0) {
                Some(i) => Err(messages::unsupported_with(o[i].0@, type_label(o))),
                None => Ok(ty),
            },
        },
    }
}

/// Whether keys that are not declared are admitted.
pub open spec fn additional(o: Members, ty: Ty) -> Result<bool, Seq<char>> {
    match value::member(o, "additionalProperties"@) {
        Some(Json::Bool(b)) => Ok(b),
        Some(other) => Err(
            messages::around(
                "keyword 'additionalProperties' only supports a boolean in this release (found "@,
                value::kind_name(other),
                "); a subschema form is not supported"@,
            ),
        ),
        None => Ok(!(ty is Object) || value::member(o, "properties"@) is None),
    }
}

/// A table and what was compiled into it.
pub type Compiled<T> = Result<(Seq<SchemaView>, T), Seq<char>>;

/// The members of `properties` from `i` on, compiled behind `table`.
pub open spec fn properties_from(
    o: Members,
    i: int,
    depth: int,
    table: Seq<SchemaView>,
    done: Seq<(Seq<u8>, u32)>,
) -> Compiled<Seq<(Seq<u8>, u32)>>
    decreases 14 - depth, 0int, o.len() - i,
{
    if i < 0 || i >= o.len() || depth > MAX_DEPTH {
        Ok((table, done))
    } else {
        match compiled(o[i].1, depth + 1, "properties"@, table) {
            Err(e) => Err(e),
            Ok((t, csi)) => properties_from(
                o,
                i + 1,
                depth,
                t,
                done.push((encode_utf8(o[i].0@), csi)),
            ),
        }
    }
}

pub open spec fn properties(o: Members, depth: int, table: Seq<SchemaView>) -> Compiled<
    Seq<(Seq<u8>, u32)>,
>
    decreases 14 - depth, 1int, 0int,
{
    match value::member(o, "properties"@) {
        None => Ok((table, Seq::empty())),
        Some(Json::Object(p)) => properties_from(p@, 0, depth, table, Seq::empty()),
        Some(_) => Err(messages::prefixed("keyword 'properties' must be an object"@)),
    }
}

/// Indices of the required properties, each once.
pub open spec fn required_from(
    a: Seq<Json>,
    i: int,
    props: Seq<(Seq<u8>, u32)>,
    done: Seq<u32>,
) -> Result<Seq<u32>, Seq<char>>
    decreases a.len() - i,
{
    if i < 0 || i >= a.len() {
        Ok(done)
    } else {
        match a[i] {
            Json::String(name) => match machine::find_prop(props, encode_utf8(name@), 0) {
                Some(k) => required_from(
                    a,
                    i + 1,
                    props,
                    if done.contains(k as u32) {
                        done
                    } else {
                        done.push(k as u32)
                    },
                ),
                None => Err(
                    messages::around(
                        "keyword 'required' names '"@,
                        name@,
                        "' which is not declared in 'properties'"@,
                    ),
                ),
            },
            _ => Err(messages::prefixed("keyword 'required' must contain only strings"@)),
        }
    }
}

pub open spec fn required(o: Members, props: Seq<(Seq<u8>, u32)>) -> Result<Seq<u32>, Seq<char>> {
    match value::member(o, "required"@) {
        None => Ok(Seq::empty()),
        Some(Json::Array(a)) => required_from(a@, 0, props, Seq::empty()),
        Some(_) => Err(
            messages::prefixed("keyword 'required' must be an array of property names"@),
        ),
    }
}

pub open spec fn items(o: Members, depth: int, table: Seq<SchemaView>) -> Compiled<Option<u32>>
    decreases 14 - depth, 1int, 0int,
{
    match value::member(o, "items"@) {
        None => Ok((table, None)),
        Some(v) => if depth > MAX_DEPTH {
            Ok((table, None))
        } else {
            match compiled(v, depth + 1, "items"@, table) {
                Err(e) => Err(e),
                Ok((t, csi)) => Ok((t, Some(csi))),
            }
        },
    }
}

/// Value of a keyword that counts.
pub open spec fn count_of(o: Members, kw: Seq<char>) -> Result<Option<u64>, Seq<char>> {
    match value::member(o, kw) {
        None => Ok(None),
        Some(v) => match v {
            Json::Number(n) if n.unsigned is Some => Ok(n.unsigned),
            _ => Err(
                messages::around_two(
                    "keyword '"@,
                    kw,
                    "' must be a non-negative integer (found "@,
                    value::compact_text(v),
                    ")"@,
                ),
            ),
        },
    }
}

/// Value of a keyword that bounds numbers.
pub open spec fn bound_of(o: Members, kw: Seq<char>) -> Result<Option<Double>, Seq<char>> {
    match value::member(o, kw) {
        None => Ok(None),
        Some(v) => match v {
            Json::Number(n) if n.double is Some => Ok(n.double),
            _ => Err(
                messages::around_two(
                    "keyword '"@,
                    kw,
                    "' must be a number (found "@,
                    value::compact_text(v),
                    ")"@,
                ),
            ),
        },
    }
}

/// Values of a pair of keywords that count, the lower one not above the upper one.
pub open spec fn count_pair(o: Members, lo: Seq<char>, hi: Seq<char>) -> Result<
    (Option<u64>, Option<u64>),
    Seq<char>,
> {
    match count_of(o, lo) {
        Err(e) => Err(e),
        Ok(a) => match count_of(o, hi) {
            Err(e) => Err(e),
            Ok(b) => match (a, b) {
                (Some(x), Some(y)) => if x > y {
                    Err(messages::out_of_order(lo, x, hi, y))
                } else {
                    Ok((a, b))
                },
                _ => Ok((a, b)),
            },
        },
    }
}

/// Lists of an `enum` from item `i` on.
pub open spec fn enum_from(a: Seq<Json>, i: int, strs: Seq<Seq<u8>>, ints: Seq<i64>) -> Result<
    (Seq<Seq<u8>>, Seq<i64>),
    Seq<char>,
>
    decreases a.len() - i,
{
    if i < 0 || i >= a.len() {
        Ok((strs, ints))
    } else {
        match a[i] {
            Json::String(s) => enum_from(a, i + 1, strs.push(encode_utf8(s@)), ints),
            Json::Number(n) => match n.signed {
                Some(x) => enum_from(a, i + 1, strs, ints.push(x)),
                None => Err(
                    messages::prefixed(
                        "keyword 'enum': only string and integer values are supported in this release"@,
                    ),
                ),
            },
            other => Err(
                messages::around(
                    "keyword 'enum': only string and integer values are supported in this release (found "@,
                    value::kind_name(other),
                    ")"@,
                ),
            ),
        }
    }
}

/// The kinds of listed values fit the type.
pub open spec fn enum_fits(ty: Ty, strs: Seq<Seq<u8>>, ints: Seq<i64>) -> bool {
    match ty {
        Ty::Any => true,
        Ty::String => ints.len() == 0,
        Ty::Integer | Ty::Number => strs.len() == 0,
        _ => false,
    }
}

/// Lists of the `enum`; `None` where there is none.
pub open spec fn enum_lists(o: Members, ty: Ty) -> Result<
    Option<(Seq<Seq<u8>>, Seq<i64>)>,
    Seq<char>,
> {
    match value::member(o, "enum"@) {
        None => Ok(None),
        Some(Json::Array(a)) => match enum_from(a@, 0, Seq::empty(), Seq::empty()) {
            Err(e) => Err(e),
            Ok((strs, ints)) => if strs.len() == 0 && ints.len() == 0 {
                Err(messages::prefixed("keyword 'enum' must not be empty"@))
            } else if !enum_fits(ty, strs, ints) {
                Err(
                    messages::around(
                        "keyword 'enum' values do not match "@,
                        type_label(o),
                        " (V1 supports string and integer enum values only)"@,
                    ),
                )
            } else {
                Ok(Some((strs, ints)))
            },
        },
        Some(_) => Err(messages::prefixed("keyword 'enum' must be an array of allowed values"@)),
    }
}

/// The bounds of a schema.
pub ghost struct BoundsView {
    pub items: (Option<u64>, Option<u64>),
    pub len: (Option<u64>, Option<u64>),
    pub minimum: Option<Double>,
    pub maximum: Option<Double>,
    pub excl_min: Option<Double>,
    pub excl_max: Option<Double>,
}

pub open spec fn bounds(o: Members) -> Result<BoundsView, Seq<char>> {
    match count_pair(o, "minItems"@, "maxItems"@) {
        Err(e) => Err(e),
        Ok(items) => match count_pair(o, "minLength"@, "maxLength"@) {
            Err(e) => Err(e),
            Ok(len) => match bound_of(o, "minimum"@) {
                Err(e) => Err(e),
                Ok(minimum) => match bound_of(o, "maximum"@) {
                    Err(e) => Err(e),
                    Ok(maximum) => match bound_of(o, "exclusiveMinimum"@) {
                        Err(e) => Err(e),
                        Ok(excl_min) => match bound_of(o, "exclusiveMaximum"@) {
                            Err(e) => Err(e),
                            Ok(excl_max) => Ok(
                                BoundsView { items, len, minimum, maximum, excl_min, excl_max },
                            ),
                        },
                    },
                },
            },
        },
    }
}

/// The schema that was assembled from its parts.
pub open spec fn assembled(
    ty: Ty,
    depth: int,
    additional: bool,
    props: Seq<(Seq<u8>, u32)>,
    required: Seq<u32>,
    items: Option<u32>,
    b: BoundsView,
    lists: Option<(Seq<Seq<u8>>, Seq<i64>)>,
) -> SchemaView {
    SchemaView {
        ty,
        props,
        required,
        additional,
        items,
        min_items: b.items.0,
        max_items: b.items.1,
        min_len: b.len.0,
        max_len: b.len.1,
        minimum: b.minimum,
        maximum: b.maximum,
        excl_min: b.excl_min,
        excl_max: b.excl_max,
        enum_str: match lists {
            Some((strs, _)) => strs,
            None => Seq::empty(),
        },
        enum_int: match lists {
            Some((_, ints)) => ints,
            None => Seq::empty(),
        },
        has_enum: lists is Some,
        depth: depth as usize,
    }
}

/// The schema object `o` compiled behind `table`, with its index. Indices are 32-bit numbers: a
/// table that cannot hold another schema refuses it.
pub open spec fn compiled_object(o: Members, depth: int, table: Seq<SchemaView>) -> Compiled<u32>
    decreases 14 - depth, 2int, 0int,
{
    match checked_type(o) {
        Err(e) => Err(e),
        Ok(ty) => match additional(o, ty) {
            Err(e) => Err(e),
            Ok(more) => match properties(o, depth, table) {
                Err(e) => Err(e),
                Ok((t1, props)) => match required(o, props) {
                    Err(e) => Err(e),
                    Ok(req) => match items(o, depth, t1) {
                        Err(e) => Err(e),
                        Ok((t2, item)) => match bounds(o) {
                            Err(e) => Err(e),
                            Ok(b) => match enum_lists(o, ty) {
                                Err(e) => Err(e),
                                Ok(lists) => if t2.len() >= u32::MAX {
                                    Err(messages::prefixed("schema is too large"@))
                                } else {
                                    Ok(
                                        (
                                            t2.push(
                                                assembled(
                                                    ty,
                                                    depth,
                                                    more,
                                                    props,
                                                    req,
                                                    item,
                                                    b,
                                                    lists,
                                                ),
                                            ),
                                            t2.len() as u32,
                                        ),
                                    )
                                },
                            },
                        },
                    },
                },
            },
        },
    }
}

/// The schema `v` compiled behind `table`, with its index. `via` is the keyword that led to it.
pub open spec fn compiled(v: Json, depth: int, via: Seq<char>, table: Seq<SchemaView>) -> Compiled<
    u32,
>
    decreases 14 - depth, 3int, 0int,
{
    if depth > MAX_DEPTH {
        Err(
            messages::around(
                "schema is nested deeper than the V1 limit of 12 levels (via keyword '"@,
                via,
                "')"@,
            ),
        )
    } else {
        match v {
            Json::Object(o) => compiled_object(o@, depth, table),
            _ => Err(
                messages::around_two(
                    "schema for keyword '"@,
                    via,
                    "' must be a JSON object (found "@,
                    value::kind_name(v),
                    ")"@,
                ),
            ),
        }
    }
}

/// A schema is refused before anything below it is compiled: it is nested too deep, is no object,
/// or has a keyword that is unknown or does not go with its type.
pub open spec fn refused_at_once(v: Json, depth: int) -> bool {
    depth > MAX_DEPTH || match v {
        Json::Object(o) => match checked_type(o@) {
            Err(_) => true,
            Ok(ty) => additional(o@, ty) is Err,
        },
        _ => true,
    }
}

/// Indices of a growing table are in range.
pub open spec fn growing(t: Seq<SchemaView>) -> bool {
    &&& t.len() <= u32::MAX
    &&& forall|i: int| 0 <= i < t.len() ==> machine::schema_wf(#[trigger] t[i], t.len())
}

/// `after` extends `before`, and its indices are in range.
pub open spec fn grows(before: Seq<SchemaView>, after: Seq<SchemaView>) -> bool {
    before.is_prefix_of(after) && growing(after)
}

/// A schema of a shorter table fits a longer one.
proof fn lemma_growing_push(t: Seq<SchemaView>, s: SchemaView)
    requires
        growing(t),
        t.len() < u32::MAX,
        machine::schema_wf(s, t.len()),
    ensures
        grows(t, t.push(s)),
{
    let u = t.push(s);
    assert forall|i: int| 0 <= i < u.len() implies machine::schema_wf(#[trigger] u[i], u.len()) by {
        if i < t.len() {
            assert(machine::schema_wf(t[i], t.len()));
            assert(forall|k: int|
                0 <= k < u[i].props.len() ==> (#[trigger] u[i].props[k]).1 < t.len());
        } else {
            assert(forall|k: int|
                0 <= k < u[i].props.len() ==> (#[trigger] u[i].props[k]).1 < t.len());
        }
    }
}

proof fn lemma_grows_trans(a: Seq<SchemaView>, b: Seq<SchemaView>, c: Seq<SchemaView>)
    requires
        a.is_prefix_of(b),
        grows(b, c),
    ensures
        grows(a, c),
{
    assert(a =~= c.subrange(0, a.len() as int)) by {
        assert(b =~= c.subrange(0, b.len() as int));
        assert forall|i: int| 0 <= i < a.len() implies a[i] == c[i] by {
            assert(a[i] == b.subrange(0, a.len() as int)[i]);
            assert(b[i] == c.subrange(0, b.len() as int)[i]);
        }
    }
}

proof fn lemma_properties_grow(
    o: Members,
    i: int,
    depth: int,
    table: Seq<SchemaView>,
    done: Seq<(Seq<u8>, u32)>,
)
    requires
        growing(table),
        done.len() <= table.len(),
        forall|k: int| 0 <= k < done.len() ==> (#[trigger] done[k]).1 < table.len(),
    ensures
        properties_from(o, i, depth, table, done) matches Ok((t, props)) ==> {
            &&& grows(table, t)
            &&& props.len() <= t.len()
            &&& forall|k: int| 0 <= k < props.len() ==> (#[trigger] props[k]).1 < t.len()
        },
    decreases 14 - depth, 0int, o.len() - i,
{
    assert(table =~= table.subrange(0, table.len() as int));
    if 0 <= i < o.len() && depth <= MAX_DEPTH {
        lemma_compiled_grows(o[i].1, depth + 1, "properties"@, table);
        match compiled(o[i].1, depth + 1, "properties"@, table) {
            Ok((t, csi)) => {
                let next = done.push((encode_utf8(o[i].0@), csi));
                lemma_properties_grow(o, i + 1, depth, t, next);
                match properties_from(o, i + 1, depth, t, next) {
                    Ok((u, props)) => {
                        lemma_grows_trans(table, t, u);
                    },
                    Err(_) => {},
                }
            },
            Err(_) => {},
        }
    }
}

/// The properties of a schema compile into a table that holds them all.
pub proof fn lemma_object_properties(o: Members, depth: int, table: Seq<SchemaView>)
    requires
        growing(table),
    ensures
        properties(o, depth, table) matches Ok((t, props)) ==> {
            &&& grows(table, t)
            &&& props.len() <= t.len()
            &&& forall|k: int| 0 <= k < props.len() ==> (#[trigger] props[k]).1 < t.len()
        },
    decreases 14 - depth, 1int, 0int,
{
    assert(table =~= table.subrange(0, table.len() as int));
    match value::member(o, "properties"@) {
        Some(Json::Object(p)) => {
            lemma_properties_grow(p@, 0, depth, table, Seq::empty());
        },
        _ => {},
    }
}

/// A schema that compiles extends the table, and every index in the table is in range.
pub proof fn lemma_compiled_grows(v: Json, depth: int, via: Seq<char>, table: Seq<SchemaView>)
    requires
        growing(table),
    ensures
        compiled(v, depth, via, table) matches Ok((t, i)) ==> grows(table, t) && table.len() < t.len()
            && i == t.len() - 1,
    decreases 14 - depth, 3int, 0int,
{
    if depth <= MAX_DEPTH {
        match v {
            Json::Object(ov) => {
                let o = ov@;
                assert(table =~= table.subrange(0, table.len() as int));
                lemma_object_properties(o, depth, table);
                match properties(o, depth, table) {
                    Ok((t1, props)) => {
                        assert(t1 =~= t1.subrange(0, t1.len() as int));
                        match value::member(o, "items"@) {
                            Some(w) => {
                                lemma_compiled_grows(w, depth + 1, "items"@, t1);
                            },
                            None => {},
                        }
                        match items(o, depth, t1) {
                            Ok((t2, item)) => {
                                assert(grows(t1, t2));
                                lemma_grows_trans(table, t1, t2);
                                match compiled_object(o, depth, table) {
                                    Ok((t, i)) => {
                                        let s = t.last();
                                        assert(t =~= t2.push(s));
                                        assert(s.props == props);
                                        assert(s.items == item);
                                        assert(machine::schema_wf(s, t2.len()));
                                        lemma_growing_push(t2, s);
                                        lemma_grows_trans(table, t2, t);
                                    },
                                    Err(_) => {},
                                }
                            },
                            Err(_) => {},
                        }
                    },
                    Err(_) => {},
                }
            },
            _ => {},
        }
    }
}

} // verus!
