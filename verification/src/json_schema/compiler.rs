//! The schema compiler.

use vstd::prelude::*;
use vstd::utf8::*;

use crate::json_schema::bytes;
use crate::json_schema::compile;
use crate::json_schema::compile::MAX_DEPTH;
use crate::json_schema::double::Double;
use crate::json_schema::machine;
use crate::json_schema::messages;
use crate::json_schema::schema;
use crate::json_schema::schema::{Schema, Ty};
use crate::json_schema::value;
use crate::json_schema::value::Json;
use crate::text::same_str;

verus! {

impl Ty {
    pub open spec fn label(self) -> Seq<char> {
        match self {
            Ty::Any => "any"@,
            Ty::Object => "object"@,
            Ty::Array => "array"@,
            Ty::String => "string"@,
            Ty::Integer => "integer"@,
            Ty::Number => "number"@,
            Ty::Boolean => "boolean"@,
            Ty::Null => "null"@,
        }
    }

    pub fn name(self) -> (r: &'static str)
        ensures
            r@ == self.label(),
    {
        match self {
            Ty::Any => "any",
            Ty::Object => "object",
            Ty::Array => "array",
            Ty::String => "string",
            Ty::Integer => "integer",
            Ty::Number => "number",
            Ty::Boolean => "boolean",
            Ty::Null => "null",
        }
    }
}

fn is_known(kw: &str) -> (r: bool)
    ensures
        r == compile::known(kw@),
{
    same_str(kw, "type") || same_str(kw, "properties") || same_str(kw, "required") || same_str(
        kw,
        "additionalProperties",
    ) || same_str(kw, "items") || same_str(kw, "minItems") || same_str(kw, "maxItems") || same_str(
        kw,
        "minLength",
    ) || same_str(kw, "maxLength") || same_str(kw, "minimum") || same_str(kw, "maximum")
        || same_str(kw, "exclusiveMinimum") || same_str(kw, "exclusiveMaximum") || same_str(
        kw,
        "enum",
    )
}

/// True when the keyword means something for the type.
pub fn keyword_allowed_for(ty: Ty, kw: &str) -> (r: bool)
    ensures
        r == compile::allowed_for(ty, kw@),
{
    if same_str(kw, "type") {
        return true;
    }
    match ty {
        Ty::Object => same_str(kw, "properties") || same_str(kw, "required") || same_str(
            kw,
            "additionalProperties",
        ) || same_str(kw, "enum"),
        Ty::Array => same_str(kw, "items") || same_str(kw, "minItems") || same_str(kw, "maxItems"),
        Ty::String => same_str(kw, "minLength") || same_str(kw, "maxLength") || same_str(
            kw,
            "enum",
        ),
        Ty::Integer | Ty::Number => same_str(kw, "minimum") || same_str(kw, "maximum") || same_str(
            kw,
            "exclusiveMinimum",
        ) || same_str(kw, "exclusiveMaximum") || same_str(kw, "enum"),
        Ty::Boolean | Ty::Null => false,
        Ty::Any => same_str(kw, "enum"),
    }
}

fn type_named(name: &str) -> (r: Option<Ty>)
    ensures
        r == compile::named_type(name@),
{
    if same_str(name, "object") || same_str(name, "json_object") {
        Some(Ty::Object)
    } else if same_str(name, "array") {
        Some(Ty::Array)
    } else if same_str(name, "string") {
        Some(Ty::String)
    } else if same_str(name, "integer") {
        Some(Ty::Integer)
    } else if same_str(name, "number") {
        Some(Ty::Number)
    } else if same_str(name, "boolean") {
        Some(Ty::Boolean)
    } else if same_str(name, "null") {
        Some(Ty::Null)
    } else {
        None
    }
}

/// The outcome is what `want` says, with its message.
pub open spec fn outcome<T>(r: Result<T, String>, want: Result<T, Seq<char>>) -> bool {
    match want {
        Ok(x) => r == Ok::<T, String>(x),
        Err(m) => r is Err && r->Err_0@ == m,
    }
}

fn read_type(o: &Vec<(String, Json)>) -> (r: Result<Ty, String>)
    ensures
        outcome(r, compile::declared_type(o@)),
{
    match value::get(o, "type") {
        None => Ok(Ty::Any),
        Some(Json::String(s)) => match type_named(s.as_str()) {
            Some(ty) => Ok(ty),
            None => Err(
                messages::err_around(
                    "keyword 'type' has unsupported value '",
                    s.as_str(),
                    "' (V1 supports: object/array/string/integer/number/boolean/null/json_object)",
                ),
            ),
        },
        Some(Json::Array(_)) => Err(
            messages::err_msg(
                "keyword 'type' with a union type array is not supported in this release",
            ),
        ),
        Some(other) => Err(
            messages::err_around(
                "keyword 'type' must be a string (found ",
                value::kind_of(other),
                ")",
            ),
        ),
    }
}

fn label_of(o: &Vec<(String, Json)>) -> (r: String)
    ensures
        r@ == compile::type_label(o@),
{
    match value::get(o, "type") {
        Some(Json::String(s)) => String::from_str("\"type\":\"").concat(s.as_str()).concat("\""),
        _ => String::from_str("no \"type\""),
    }
}

/// Checks the keywords of a schema and returns its type.
fn check_keywords(o: &Vec<(String, Json)>) -> (r: Result<Ty, String>)
    ensures
        outcome(r, compile::checked_type(o@)),
{
    let mut i: usize = 0;
    while i < o.len()
        invariant
            i <= o.len(),
            compile::first_unknown(o@, 0) == compile::first_unknown(o@, i as int),
        decreases o.len() - i,
    {
        if !is_known(o[i].0.as_str()) {
            return Err(messages::err_unsupported(o[i].0.as_str()));
        }
        i += 1;
    }
    let ty = match read_type(o) {
        Ok(ty) => ty,
        Err(e) => return Err(e),
    };
    let mut k: usize = 0;
    while k < o.len()
        invariant
            k <= o.len(),
            compile::first_unknown(o@, 0) is None,
            compile::declared_type(o@) == Ok::<Ty, Seq<char>>(ty),
            compile::first_misplaced(o@, ty, 0) == compile::first_misplaced(o@, ty, k as int),
        decreases o.len() - k,
    {
        if !keyword_allowed_for(ty, o[k].0.as_str()) {
            let label = label_of(o);
            return Err(messages::err_unsupported_with(o[k].0.as_str(), label.as_str()));
        }
        k += 1;
    }
    Ok(ty)
}

fn read_additional(o: &Vec<(String, Json)>, ty: Ty) -> (r: Result<bool, String>)
    ensures
        outcome(r, compile::additional(o@, ty)),
{
    match value::get(o, "additionalProperties") {
        Some(Json::Bool(b)) => Ok(*b),
        Some(other) => Err(
            messages::err_around(
                "keyword 'additionalProperties' only supports a boolean in this release (found ",
                value::kind_of(other),
                "); a subschema form is not supported",
            ),
        ),
        None => Ok(ty != Ty::Object || value::get(o, "properties").is_none()),
    }
}

/// Contents of a list of properties.
pub open spec fn props_view(p: Seq<(Vec<u8>, u32)>) -> Seq<(Seq<u8>, u32)> {
    Seq::new(p.len(), |i: int| (p[i].0@, p[i].1))
}

/// Index of the property named `name`.
fn position_of(props: &Vec<(Vec<u8>, u32)>, name: &Vec<u8>) -> (r: Option<usize>)
    ensures
        machine::find_prop(props_view(props@), name@, 0) is None ==> r is None,
        machine::find_prop(props_view(props@), name@, 0) matches Some(i) ==> r is Some && r->0 == i
            && i < props.len(),
{
    let ghost views = props_view(props@);
    let mut i: usize = 0;
    while i < props.len()
        invariant
            i <= props.len(),
            views == props_view(props@),
            machine::find_prop(views, name@, 0) == machine::find_prop(views, name@, i as int),
        decreases props.len() - i,
    {
        assert(views[i as int].0 == props@[i as int].0@);
        if bytes::same_bytes(&props[i].0, name) {
            return Some(i);
        }
        i += 1;
    }
    None
}

fn read_required(o: &Vec<(String, Json)>, props: &Vec<(Vec<u8>, u32)>) -> (r: Result<
    Vec<u32>,
    String,
>)
    requires
        props.len() <= u32::MAX,
    ensures
        match compile::required(o@, props_view(props@)) {
            Ok(list) => r is Ok && r->Ok_0@ == list,
            Err(m) => r is Err && r->Err_0@ == m,
        },
{
    let mut done: Vec<u32> = Vec::new();
    let a = match value::get(o, "required") {
        None => {
            assert(done@ =~= Seq::empty());
            return Ok(done);
        },
        Some(Json::Array(a)) => a,
        Some(_) => return Err(
            messages::err_msg("keyword 'required' must be an array of property names"),
        ),
    };
    let ghost views = props_view(props@);
    let mut i: usize = 0;
    assert(done@ =~= Seq::empty());
    while i < a.len()
        invariant
            i <= a.len(),
            props.len() <= u32::MAX,
            views == props_view(props@),
            compile::required(o@, views) == compile::required_from(a@, i as int, views, done@),
        decreases a.len() - i,
    {
        match &a[i] {
            Json::String(name) => {
                let name_bytes = name.as_str().as_bytes_vec();
                match position_of(props, &name_bytes) {
                    Some(k) => {
                        if !bytes::contains_u32(&done, k as u32) {
                            done.push(k as u32);
                        }
                    },
                    None => return Err(
                        messages::err_around(
                            "keyword 'required' names '",
                            name.as_str(),
                            "' which is not declared in 'properties'",
                        ),
                    ),
                }
            },
            _ => return Err(messages::err_msg("keyword 'required' must contain only strings")),
        }
        i += 1;
    }
    Ok(done)
}

/// Value of a keyword that counts.
fn non_neg_u64(o: &Vec<(String, Json)>, kw: &str) -> (r: Result<Option<u64>, String>)
    ensures
        outcome(r, compile::count_of(o@, kw@)),
{
    let v = match value::get(o, kw) {
        None => return Ok(None),
        Some(v) => v,
    };
    if let Json::Number(n) = v {
        if n.unsigned.is_some() {
            return Ok(n.unsigned);
        }
    }
    let found = value::json_text(v);
    Err(
        messages::err_around_two(
            "keyword '",
            kw,
            "' must be a non-negative integer (found ",
            found.as_str(),
            ")",
        ),
    )
}

/// Value of a keyword that bounds numbers.
fn num_bound(o: &Vec<(String, Json)>, kw: &str) -> (r: Result<Option<Double>, String>)
    ensures
        outcome(r, compile::bound_of(o@, kw@)),
{
    let v = match value::get(o, kw) {
        None => return Ok(None),
        Some(v) => v,
    };
    if let Json::Number(n) = v {
        if n.double.is_some() {
            return Ok(n.double);
        }
    }
    let found = value::json_text(v);
    Err(
        messages::err_around_two(
            "keyword '",
            kw,
            "' must be a number (found ",
            found.as_str(),
            ")",
        ),
    )
}

fn read_count_pair(o: &Vec<(String, Json)>, lo: &str, hi: &str) -> (r: Result<
    (Option<u64>, Option<u64>),
    String,
>)
    ensures
        outcome(r, compile::count_pair(o@, lo@, hi@)),
{
    let a = match non_neg_u64(o, lo) {
        Ok(a) => a,
        Err(e) => return Err(e),
    };
    let b = match non_neg_u64(o, hi) {
        Ok(b) => b,
        Err(e) => return Err(e),
    };
    if let (Some(x), Some(y)) = (a, b) {
        if x > y {
            return Err(messages::err_out_of_order(lo, x, hi, y));
        }
    }
    Ok((a, b))
}

fn push_bytes(list: &mut Vec<Vec<u8>>, s: &String)
    ensures
        schema::byte_lists(final(list)@) == schema::byte_lists(old(list)@).push(encode_utf8(s@)),
{
    list.push(s.as_str().as_bytes_vec());
    assert(schema::byte_lists(list@) =~= schema::byte_lists(old(list)@).push(encode_utf8(s@)));
}

/// The lists of an `enum`, and whether there is one.
fn read_enum(o: &Vec<(String, Json)>, ty: Ty) -> (r: Result<(Vec<Vec<u8>>, Vec<i64>, bool), String>)
    ensures
        match compile::enum_lists(o@, ty) {
            Ok(Some((strs, ints))) => r is Ok && schema::byte_lists((r->Ok_0).0@) == strs && (
            r->Ok_0).1@ == ints && (r->Ok_0).2,
            Ok(None) => r is Ok && schema::byte_lists((r->Ok_0).0@) == Seq::<Seq<u8>>::empty() && (
            r->Ok_0).1@ == Seq::<i64>::empty() && !(r->Ok_0).2,
            Err(m) => r is Err && r->Err_0@ == m,
        },
{
    let mut strs: Vec<Vec<u8>> = Vec::new();
    let mut ints: Vec<i64> = Vec::new();
    assert(schema::byte_lists(strs@) =~= Seq::<Seq<u8>>::empty());
    assert(ints@ =~= Seq::<i64>::empty());
    let a = match value::get(o, "enum") {
        None => return Ok((strs, ints, false)),
        Some(Json::Array(a)) => a,
        Some(_) => return Err(
            messages::err_msg("keyword 'enum' must be an array of allowed values"),
        ),
    };
    let mut i: usize = 0;
    while i < a.len()
        invariant
            i <= a.len(),
            value::member(o@, "enum"@) == Some(Json::Array(*a)),
            compile::enum_from(a@, 0, Seq::empty(), Seq::empty()) == compile::enum_from(
                a@,
                i as int,
                schema::byte_lists(strs@),
                ints@,
            ),
        decreases a.len() - i,
    {
        match &a[i] {
            Json::String(s) => {
                push_bytes(&mut strs, s);
            },
            Json::Number(n) => match n.signed {
                Some(x) => {
                    ints.push(x);
                },
                None => return Err(
                    messages::err_msg(
                        "keyword 'enum': only string and integer values are supported in this release",
                    ),
                ),
            },
            other => return Err(
                messages::err_around(
                    "keyword 'enum': only string and integer values are supported in this release (found ",
                    value::kind_of(other),
                    ")",
                ),
            ),
        }
        i += 1;
    }
    if strs.len() == 0 && ints.len() == 0 {
        return Err(messages::err_msg("keyword 'enum' must not be empty"));
    }
    let fits = match ty {
        Ty::Any => true,
        Ty::String => ints.len() == 0,
        Ty::Integer | Ty::Number => strs.len() == 0,
        _ => false,
    };
    if !fits {
        let label = label_of(o);
        return Err(
            messages::err_around(
                "keyword 'enum' values do not match ",
                label.as_str(),
                " (V1 supports string and integer enum values only)",
            ),
        );
    }
    Ok((strs, ints, true))
}

/// The bounds of a schema.
struct Bounds {
    items: (Option<u64>, Option<u64>),
    len: (Option<u64>, Option<u64>),
    minimum: Option<Double>,
    maximum: Option<Double>,
    excl_min: Option<Double>,
    excl_max: Option<Double>,
}

impl Bounds {
    spec fn view(&self) -> compile::BoundsView {
        compile::BoundsView {
            items: self.items,
            len: self.len,
            minimum: self.minimum,
            maximum: self.maximum,
            excl_min: self.excl_min,
            excl_max: self.excl_max,
        }
    }
}

fn read_bounds(o: &Vec<(String, Json)>) -> (r: Result<Bounds, String>)
    ensures
        match compile::bounds(o@) {
            Ok(b) => r is Ok && r->Ok_0.view() == b,
            Err(m) => r is Err && r->Err_0@ == m,
        },
{
    let items = match read_count_pair(o, "minItems", "maxItems") {
        Ok(x) => x,
        Err(e) => return Err(e),
    };
    let len = match read_count_pair(o, "minLength", "maxLength") {
        Ok(x) => x,
        Err(e) => return Err(e),
    };
    let minimum = match num_bound(o, "minimum") {
        Ok(x) => x,
        Err(e) => return Err(e),
    };
    let maximum = match num_bound(o, "maximum") {
        Ok(x) => x,
        Err(e) => return Err(e),
    };
    let excl_min = match num_bound(o, "exclusiveMinimum") {
        Ok(x) => x,
        Err(e) => return Err(e),
    };
    let excl_max = match num_bound(o, "exclusiveMaximum") {
        Ok(x) => x,
        Err(e) => return Err(e),
    };
    Ok(Bounds { items, len, minimum, maximum, excl_min, excl_max })
}

fn read_properties(o: &Vec<(String, Json)>, depth: usize, table: &mut Vec<Schema>) -> (r: Result<
    Vec<(Vec<u8>, u32)>,
    String,
>)
    requires
        depth <= MAX_DEPTH,
        compile::growing(schema::table_view(old(table)@)),
    ensures
        match compile::properties(o@, depth as int, schema::table_view(old(table)@)) {
            Ok((t, props)) => r is Ok && props_view(r->Ok_0@) == props && schema::table_view(
                final(table)@,
            ) == t,
            Err(m) => r is Err && r->Err_0@ == m,
        },
        old(table)@.is_prefix_of(final(table)@),
    decreases 14 - depth, 0int,
{
    let mut done: Vec<(Vec<u8>, u32)> = Vec::new();
    assert(props_view(done@) =~= Seq::<(Seq<u8>, u32)>::empty());
    let p = match value::get(o, "properties") {
        None => return Ok(done),
        Some(Json::Object(p)) => p,
        Some(_) => return Err(messages::err_msg("keyword 'properties' must be an object")),
    };
    let ghost first = schema::table_view(table@);
    let mut i: usize = 0;
    while i < p.len()
        invariant
            i <= p.len(),
            depth <= MAX_DEPTH,
            first == schema::table_view(old(table)@),
            old(table)@.is_prefix_of(table@),
            compile::growing(schema::table_view(table@)),
            compile::properties(o@, depth as int, first) == compile::properties_from(
                p@,
                i as int,
                depth as int,
                schema::table_view(table@),
                props_view(done@),
            ),
        decreases p.len() - i,
    {
        let name = p[i].0.as_str().as_bytes_vec();
        let ghost before = props_view(done@);
        proof {
            compile::lemma_compiled_grows(
                p@[i as int].1,
                depth + 1,
                "properties"@,
                schema::table_view(table@),
            );
        }
        match compile_schema(&p[i].1, depth + 1, "properties", table) {
            Ok(csi) => {
                let ghost name_view = name@;
                done.push((name, csi));
                assert(props_view(done@) =~= before.push((name_view, csi)));
            },
            Err(e) => return Err(e),
        }
        i += 1;
    }
    Ok(done)
}

/// Compiles one schema behind `table` and returns its index. `via` is the keyword that led to
/// it. On failure the message names the keyword to change; what stood in the table stays, and a
/// schema that is refused at once adds nothing.
pub fn compile_schema(v: &Json, depth: usize, via: &str, table: &mut Vec<Schema>) -> (r: Result<
    u32,
    String,
>)
    requires
        compile::growing(schema::table_view(old(table)@)),
    ensures
        match compile::compiled(*v, depth as int, via@, schema::table_view(old(table)@)) {
            Ok((t, i)) => r == Ok::<u32, String>(i) && schema::table_view(final(table)@) == t,
            Err(m) => r is Err && r->Err_0@ == m,
        },
        compile::refused_at_once(*v, depth as int) ==> final(table)@ == old(table)@,
        old(table)@.is_prefix_of(final(table)@),
    decreases 14 - depth, 1int,
{
    let ghost first = schema::table_view(table@);
    if depth > MAX_DEPTH {
        return Err(
            messages::err_around(
                "schema is nested deeper than the V1 limit of 12 levels (via keyword '",
                via,
                "')",
            ),
        );
    }
    let o = match v {
        Json::Object(o) => o,
        other => return Err(
            messages::err_around_two(
                "schema for keyword '",
                via,
                "' must be a JSON object (found ",
                value::kind_of(other),
                ")",
            ),
        ),
    };
    let ty = match check_keywords(o) {
        Ok(ty) => ty,
        Err(e) => return Err(e),
    };
    let additional = match read_additional(o, ty) {
        Ok(b) => b,
        Err(e) => return Err(e),
    };
    let props = match read_properties(o, depth, table) {
        Ok(p) => p,
        Err(e) => return Err(e),
    };
    let ghost t1 = schema::table_view(table@);
    proof {
        compile::lemma_object_properties(o@, depth as int, first);
        assert(props_view(props@).len() == props.len());
    }
    let required = match read_required(o, &props) {
        Ok(list) => list,
        Err(e) => return Err(e),
    };
    let items: Option<u32> = match value::get(o, "items") {
        None => None,
        Some(i) => match compile_schema(i, depth + 1, "items", table) {
            Ok(csi) => Some(csi),
            Err(e) => return Err(e),
        },
    };
    let ghost t2 = schema::table_view(table@);
    assert(compile::items(o@, depth as int, t1) == Ok::<_, Seq<char>>((t2, items)));
    let b = match read_bounds(o) {
        Ok(b) => b,
        Err(e) => return Err(e),
    };
    let (enum_str, enum_int, has_enum) = match read_enum(o, ty) {
        Ok(x) => x,
        Err(e) => return Err(e),
    };
    if table.len() >= u32::MAX as usize {
        return Err(messages::err_msg("schema is too large"));
    }
    let s = Schema {
        ty,
        props,
        required,
        additional,
        items,
        min_items: b.items.0,
        max_items: b.items.1,
        min_len: b.len.0,
        max_len: b.len.1,
        minimum: b.minimum,
        maximum: b.maximum,
        excl_min: b.excl_min,
        excl_max: b.excl_max,
        enum_str,
        enum_int,
        has_enum,
        depth,
    };
    let idx: u32 = table.len() as u32;
    let ghost sv = s@;
    let ghost filled = table@;
    table.push(s);
    assert(filled.is_prefix_of(table@));
    assert(schema::table_view(table@) =~= t2.push(sv));
    Ok(idx)
}

} // verus!
