//! The `response_format` of a request.

use vstd::prelude::*;

use crate::json_schema::compile;
use crate::json_schema::compiler;
use crate::json_schema::keywords;
use crate::json_schema::machine;
use crate::json_schema::mask::SchemaMask;
use crate::json_schema::messages;
use crate::json_schema::schema;
use crate::json_schema::schema::{Schema, SchemaView, Ty};
use crate::json_schema::value;
use crate::json_schema::value::{Json, Members};
use crate::text::same_str;

verus! {

/// Which fields an object of the format may have.
#[derive(Clone, Copy, PartialEq, Eq, Structural, Debug)]
pub enum Fields {
    /// `type`.
    TypeOnly,
    /// Those of the format that carries a schema.
    Outer,
    /// Those of the object around a schema.
    Inner,
}

pub open spec fn field_ok(f: Fields, k: Seq<char>) -> bool {
    match f {
        Fields::TypeOnly => k == "type"@,
        Fields::Outer => k == "type"@ || k == "json_schema"@ || k == "schema"@,
        Fields::Inner => k == "name"@ || k == "description"@ || k == "strict"@ || k == "schema"@,
    }
}

/// Index of the first member that may not stand there, from `i` on.
pub open spec fn first_extra(o: Members, f: Fields, i: int) -> Option<int>
    decreases o.len() - i,
{
    if i < 0 || i >= o.len() {
        None
    } else if !field_ok(f, o[i].0@) {
        Some(i)
    } else {
        first_extra(o, f, i + 1)
    }
}

pub open spec fn extra_message(f: Fields, k: Seq<char>) -> Seq<char> {
    match f {
        Fields::Inner => messages::around(
            "json_schema field '"@,
            k,
            "' is not supported in this release (supported: name/description/strict/schema)"@,
        ),
        _ => messages::around(
            "response_format field '"@,
            k,
            "' is not supported in this release"@,
        ),
    }
}

/// The table that schemas are compiled behind: the schema that admits any value, at index 0.
pub open spec fn base_table() -> Seq<SchemaView> {
    seq![schema::any_schema()]
}

/// The table of the format that admits any object.
pub open spec fn object_table() -> Seq<SchemaView> {
    base_table().push(SchemaView { ty: Ty::Object, depth: 1, ..schema::any_schema() })
}

/// The schema of a format that carries one, beside the fields that are accepted and ignored.
pub open spec fn schema_member(o: Members) -> Result<Json, Seq<char>> {
    let missing = messages::prefixed(
        "keyword 'schema' is required: send {\"type\":\"json_schema\",\"json_schema\":{\"name\":...,\"schema\":{...}}}"@,
    );
    match value::member(o, "json_schema"@) {
        Some(Json::Object(inner)) => match first_extra(inner@, Fields::Inner, 0) {
            Some(i) => Err(extra_message(Fields::Inner, inner@[i].0@)),
            None => match value::member(inner@, "name"@) {
                Some(Json::String(_)) | None => match value::member(inner@, "schema"@) {
                    Some(v) => Ok(v),
                    None => Err(missing),
                },
                Some(other) => Err(
                    messages::around(
                        "json_schema 'name' must be a string (found "@,
                        value::kind_name(other),
                        ")"@,
                    ),
                ),
            },
        },
        Some(other) => Err(
            messages::around(
                "'json_schema' must be an object (found "@,
                value::kind_name(other),
                ")"@,
            ),
        ),
        None => match value::member(o, "schema"@) {
            Some(v) => Ok(v),
            None => Err(missing),
        },
    }
}

/// What a `response_format` asks for: nothing to enforce, or a table and the index of its root.
pub open spec fn requested(rf: Json) -> Result<Option<(Seq<SchemaView>, u32)>, Seq<char>> {
    match rf {
        Json::Null => Ok(None),
        Json::Object(ov) => {
            let o = ov@;
            match value::member(o, "type"@) {
                None => Err(messages::prefixed("response_format is missing 'type'"@)),
                Some(Json::String(s)) => if s@ == "text"@ || s@ == "json_object"@ {
                    match first_extra(o, Fields::TypeOnly, 0) {
                        Some(i) => Err(extra_message(Fields::TypeOnly, o[i].0@)),
                        None => if s@ == "text"@ {
                            Ok(None)
                        } else {
                            Ok(Some((object_table(), 1)))
                        },
                    }
                } else if s@ == "json_schema"@ {
                    match first_extra(o, Fields::Outer, 0) {
                        Some(i) => Err(extra_message(Fields::Outer, o[i].0@)),
                        None => match schema_member(o) {
                            Err(e) => Err(e),
                            Ok(v) => match compile::compiled(v, 1, "schema"@, base_table()) {
                                Err(e) => Err(e),
                                Ok(x) => Ok(Some(x)),
                            },
                        },
                    }
                } else {
                    Err(
                        messages::around(
                            "response_format 'type' = '"@,
                            s@,
                            "' is not supported in this release (V1 supports: text/json_object/json_schema)"@,
                        ),
                    )
                },
                Some(other) => Err(
                    messages::around(
                        "response_format 'type' must be a string (found "@,
                        value::kind_name(other),
                        ")"@,
                    ),
                ),
            }
        },
        _ => Err(
            messages::around(
                "response_format must be an object (found "@,
                value::kind_name(rf),
                ")"@,
            ),
        ),
    }
}

/// A fresh mask over `table` with root `root`: one state, no vocabulary.
pub open spec fn fresh(m: SchemaMask, table: Seq<SchemaView>, root: u32) -> bool {
    &&& m.wf()
    &&& m.table() == table
    &&& m.root_index() == root
    &&& m.states() == seq![machine::start_stack(root)]
    &&& m.start_id() == 0
    &&& m.pieces() == Seq::<(u32, Seq<u8>)>::empty()
    &&& m.cached() == Set::<u32>::empty()
}

fn is_field(f: Fields, k: &str) -> (r: bool)
    ensures
        r == field_ok(f, k@),
{
    match f {
        Fields::TypeOnly => same_str(k, "type"),
        Fields::Outer => same_str(k, "type") || same_str(k, "json_schema") || same_str(k, "schema"),
        Fields::Inner => same_str(k, "name") || same_str(k, "description") || same_str(k, "strict")
            || same_str(k, "schema"),
    }
}

fn check_fields(o: &Vec<(String, Json)>, f: Fields) -> (r: Result<(), String>)
    ensures
        match first_extra(o@, f, 0) {
            Some(i) => r is Err && r->Err_0@ == extra_message(f, o@[i].0@),
            None => r is Ok,
        },
{
    let mut i: usize = 0;
    while i < o.len()
        invariant
            i <= o.len(),
            first_extra(o@, f, 0) == first_extra(o@, f, i as int),
        decreases o.len() - i,
    {
        let k = o[i].0.as_str();
        if !is_field(f, k) {
            return match f {
                Fields::Inner => Err(
                    messages::err_around(
                        "json_schema field '",
                        k,
                        "' is not supported in this release (supported: name/description/strict/schema)",
                    ),
                ),
                _ => Err(
                    messages::err_around(
                        "response_format field '",
                        k,
                        "' is not supported in this release",
                    ),
                ),
            };
        }
        i += 1;
    }
    Ok(())
}

fn missing_schema() -> (r: String)
    ensures
        r@ == messages::prefixed(
            "keyword 'schema' is required: send {\"type\":\"json_schema\",\"json_schema\":{\"name\":...,\"schema\":{...}}}"@,
        ),
{
    messages::err_msg(
        "keyword 'schema' is required: send {\"type\":\"json_schema\",\"json_schema\":{\"name\":...,\"schema\":{...}}}",
    )
}

fn find_schema<'a>(o: &'a Vec<(String, Json)>) -> (r: Result<&'a Json, String>)
    ensures
        match schema_member(o@) {
            Ok(v) => r is Ok && *r->Ok_0 == v,
            Err(m) => r is Err && r->Err_0@ == m,
        },
{
    let found = match value::get(o, "json_schema") {
        Some(Json::Object(inner)) => {
            match check_fields(inner, Fields::Inner) {
                Ok(_) => {},
                Err(e) => return Err(e),
            }
            match value::get(inner, "name") {
                Some(Json::String(_)) | None => {},
                Some(other) => return Err(
                    messages::err_around(
                        "json_schema 'name' must be a string (found ",
                        value::kind_of(other),
                        ")",
                    ),
                ),
            }
            value::get(inner, "schema")
        },
        Some(other) => return Err(
            messages::err_around(
                "'json_schema' must be an object (found ",
                value::kind_of(other),
                ")",
            ),
        ),
        None => value::get(o, "schema"),
    };
    match found {
        Some(v) => Ok(v),
        None => Err(missing_schema()),
    }
}

/// Compiles a schema into a mask. A schema that is not supported is an error, never a mask that
/// does not enforce it.
pub fn build_mask(schema: &Json, depth: usize, via: &str) -> (r: Result<SchemaMask, String>)
    ensures
        match compile::compiled(*schema, depth as int, via@, base_table()) {
            Ok((table, root)) => r is Ok && fresh(r->Ok_0, table, root),
            Err(m) => r is Err && r->Err_0@ == m,
        },
{
    let mut table: Vec<Schema> = Vec::new();
    table.push(Schema::any());
    assert(schema::table_view(table@) =~= base_table());
    proof {
        assert(compile::growing(base_table()));
        compile::lemma_compiled_grows(*schema, depth as int, via@, base_table());
    }
    match compiler::compile_schema(schema, depth, via, &mut table) {
        Ok(root) => Ok(SchemaMask::over(table, root)),
        Err(e) => Err(e),
    }
}

fn object_mask() -> (m: SchemaMask)
    ensures
        fresh(m, object_table(), 1),
{
    let mut table: Vec<Schema> = Vec::new();
    table.push(Schema::any());
    table.push(Schema::plain(Ty::Object, 1));
    assert(schema::table_view(table@) =~= object_table());
    SchemaMask::over(table, 1)
}

/// Validates a `response_format` and compiles its schema. `Ok(None)` where there is nothing to
/// enforce; on failure the message names the field or keyword to change.
pub fn compile_response_format(rf: &Json) -> (r: Result<Option<SchemaMask>, String>)
    ensures
        match requested(*rf) {
            Ok(None) => r is Ok && r->Ok_0 is None,
            Ok(Some((table, root))) => r is Ok && r->Ok_0 is Some && fresh(
                r->Ok_0->0,
                table,
                root,
            ),
            Err(m) => r is Err && r->Err_0@ == m,
        },
{
    let o = match rf {
        Json::Null => return Ok(None),
        Json::Object(o) => o,
        other => return Err(
            messages::err_around(
                "response_format must be an object (found ",
                value::kind_of(other),
                ")",
            ),
        ),
    };
    let ty = match value::get(o, "type") {
        Some(Json::String(s)) => s.as_str(),
        Some(other) => return Err(
            messages::err_around(
                "response_format 'type' must be a string (found ",
                value::kind_of(other),
                ")",
            ),
        ),
        None => return Err(messages::err_msg("response_format is missing 'type'")),
    };
    if same_str(ty, "text") {
        return match check_fields(o, Fields::TypeOnly) {
            Ok(_) => Ok(None),
            Err(e) => Err(e),
        };
    }
    if same_str(ty, "json_object") {
        return match check_fields(o, Fields::TypeOnly) {
            Ok(_) => Ok(Some(object_mask())),
            Err(e) => Err(e),
        };
    }
    if same_str(ty, "json_schema") {
        match check_fields(o, Fields::Outer) {
            Ok(_) => {},
            Err(e) => return Err(e),
        }
        let v = match find_schema(o) {
            Ok(v) => v,
            Err(e) => return Err(e),
        };
        return match build_mask(v, 1, "schema") {
            Ok(m) => Ok(Some(m)),
            Err(e) => Err(e),
        };
    }
    Err(
        messages::err_around(
            "response_format 'type' = '",
            ty,
            "' is not supported in this release (V1 supports: text/json_object/json_schema)",
        ),
    )
}


proof fn lemma_first_extra(o: Members, f: Fields, from: int)
    requires
        0 <= from,
    ensures
        match first_extra(o, f, from) {
            Some(i) => from <= i < o.len() && !field_ok(f, o[i].0@) && forall|k: int|
                from <= k < i ==> field_ok(f, (#[trigger] o[k]).0@),
            None => forall|k: int| from <= k < o.len() ==> field_ok(f, (#[trigger] o[k]).0@),
        },
    decreases o.len() - from,
{
    if from < o.len() && field_ok(f, o[from].0@) {
        lemma_first_extra(o, f, from + 1);
    }
}

/// Formats without a schema: none at all, and plain text, ask for nothing, and a JSON object may be
/// any object.
pub proof fn law_plain_formats(o: Vec<(String, Json)>, s: String)
    requires
        keywords::distinct_names(o@),
        o@.len() == 1,
        keywords::says(o@, "type"@, Json::String(s)),
    ensures
        requested(Json::Null) == Ok::<Option<(Seq<SchemaView>, u32)>, Seq<char>>(None),
        s@ == "text"@ ==> requested(Json::Object(o)) == Ok::<
            Option<(Seq<SchemaView>, u32)>,
            Seq<char>,
        >(None),
        s@ == "json_object"@ ==> (requested(Json::Object(o)) matches Ok(Some((t, root))) && t.len()
            == 2 && root == 1 && t[1].ty is Object && t[1].additional && t[1].props.len() == 0
            && t[1].required.len() == 0 && t[0] == schema::any_schema()),
        s@ != "text"@ && s@ != "json_object"@ ==> requested(Json::Object(o)) is Err,
{
    keywords::law_members_are_found_by_name(o@, "type"@);
    keywords::law_members_are_found_by_name(o@, "json_schema"@);
    keywords::law_members_are_found_by_name(o@, "schema"@);
    lemma_first_extra(o@, Fields::TypeOnly, 0);
    lemma_first_extra(o@, Fields::Outer, 0);
    assert(o@[0].0@ == "type"@);
    reveal_strlit("type");
    reveal_strlit("json_schema");
    reveal_strlit("schema");
    reveal_strlit("text");
    reveal_strlit("json_object");
    assert("type"@.len() == 4 && "json_schema"@.len() == 11 && "schema"@.len() == 6);
    assert("text"@.len() == 4 && "json_object"@.len() == 11);
}

/// A schema is taken from `json_schema` where that is there, and from the top level otherwise, and
/// is compiled behind the schema that admits anything.
pub proof fn law_the_schema_is_taken_from_its_member(
    o: Vec<(String, Json)>,
    s: String,
    inner: Vec<(String, Json)>,
    v: Json,
)
    requires
        keywords::distinct_names(o@),
        keywords::distinct_names(inner@),
        keywords::says(o@, "type"@, Json::String(s)),
        s@ == "json_schema"@,
    ensures
        keywords::says(o@, "json_schema"@, Json::Object(inner)) && keywords::says(
            inner@,
            "schema"@,
            v,
        ) ==> (requested(Json::Object(o)) matches Ok(x) ==> x is Some && compile::compiled(
            v,
            1,
            "schema"@,
            seq![schema::any_schema()],
        ) == Ok::<(Seq<SchemaView>, u32), Seq<char>>(x->0)),
        !keywords::holds_name(o@, "json_schema"@) && keywords::says(o@, "schema"@, v) ==> (requested(
            Json::Object(o),
        ) matches Ok(x) ==> x is Some && compile::compiled(
            v,
            1,
            "schema"@,
            seq![schema::any_schema()],
        ) == Ok::<(Seq<SchemaView>, u32), Seq<char>>(x->0)),
        !keywords::holds_name(o@, "json_schema"@) && !keywords::holds_name(o@, "schema"@)
            ==> requested(Json::Object(o)) is Err,
{
    keywords::law_members_are_found_by_name(o@, "type"@);
    keywords::law_members_are_found_by_name(o@, "json_schema"@);
    keywords::law_members_are_found_by_name(o@, "schema"@);
    keywords::law_members_are_found_by_name(inner@, "schema"@);
    reveal_strlit("text");
    reveal_strlit("json_object");
    reveal_strlit("json_schema");
    assert("text"@.len() == 4);
    assert("json_object"@[5] == 'o' && "json_schema"@[5] == 's');
}

/// A format with a field that is not known is refused, wherever the field stands.
pub proof fn law_unknown_fields_are_refused(o: Vec<(String, Json)>, i: int)
    requires
        0 <= i < o@.len(),
        o@[i].0@ != "type"@,
        o@[i].0@ != "json_schema"@,
        o@[i].0@ != "schema"@,
    ensures
        requested(Json::Object(o)) is Err,
{
    lemma_first_extra(o@, Fields::TypeOnly, 0);
    lemma_first_extra(o@, Fields::Outer, 0);
    assert(!field_ok(Fields::TypeOnly, o@[i].0@) && !field_ok(Fields::Outer, o@[i].0@));
}

/// Anything but an object or nothing is refused, and so is an object without a type.
pub proof fn law_formats_are_objects_with_a_type(rf: Json)
    ensures
        !(rf is Null) && !(rf is Object) ==> requested(rf) is Err,
        rf matches Json::Object(o) ==> (keywords::distinct_names(o@) && !keywords::holds_name(
            o@,
            "type"@,
        ) ==> requested(rf) is Err),
{
    match rf {
        Json::Object(o) => {
            if keywords::distinct_names(o@) {
                keywords::law_members_are_found_by_name(o@, "type"@);
            }
        },
        _ => {},
    }
}

} // verus!
