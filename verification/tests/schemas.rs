use gb10_infer::json_schema::compiler::compile_schema;
use gb10_infer::json_schema::response::build_mask;
use gb10_infer::json_schema::numbers::{num_advance, num_ok, num_start, NumState};
use gb10_infer::json_schema::schema::Schema;
use gb10_infer::json_schema::strings::{str_advance, Step, StrState};
use gb10_infer::json_schema::{compile_response_format, parse_json, Json, SchemaMask};

fn refused(rf: &str) -> String {
    match compile_response_format(&parse_json(rf).expect("a JSON text")) {
        Ok(_) => panic!("must be refused: {rf}"),
        Err(e) => e,
    }
}

fn schema_refused(schema: &str) -> String {
    refused(&format!("{{\"type\":\"json_schema\",\"schema\":{schema}}}"))
}

fn mask(schema: &str) -> SchemaMask {
    let rf = format!("{{\"type\":\"json_schema\",\"schema\":{schema}}}");
    let mut m = match compile_response_format(&parse_json(&rf).expect("a JSON text")) {
        Ok(m) => m.expect("a schema is enforced"),
        Err(e) => panic!("{e}"),
    };
    m.set_vocab((0u32..256).map(|b| (b, vec![b as u8])).collect());
    m
}

fn walk(m: &mut SchemaMask, from: u32, text: &str) -> Option<u32> {
    let mut s = from;
    for &b in text.as_bytes() {
        s = m.step(s, b as u32)?;
    }
    Some(s)
}

fn accepts(m: &mut SchemaMask, text: &str) -> bool {
    let s0 = m.start_state();
    match walk(m, s0, text) {
        Some(s) => m.is_complete(s),
        None => false,
    }
}

fn allows(m: &mut SchemaMask, s: u32, tok: u32) -> bool {
    let words = m.allowed(s);
    words[(tok >> 5) as usize] >> (tok & 31) & 1 == 1
}

const P: &str = "response_format json_schema: ";

#[test]
fn each_fault_of_a_schema_is_told() {
    let cases = [
        (r#"{"type":"date"}"#, "keyword 'type' has unsupported value 'date'"),
        (r#"{"type":["string","null"]}"#, "keyword 'type' with a union type array is not supported in this release"),
        (r#"{"type":3}"#, "keyword 'type' must be a string (found number)"),
        (r#"{"type":"object","additionalProperties":{}}"#, "keyword 'additionalProperties' only supports a boolean in this release (found object)"),
        (r#"{"type":"object","properties":[]}"#, "keyword 'properties' must be an object"),
        (r#"{"type":"object","required":["a"]}"#, "keyword 'required' names 'a'"),
        (r#"{"type":"object","required":[1]}"#, "keyword 'required' must contain only strings"),
        (r#"{"type":"object","required":"a"}"#, "keyword 'required' must be an array of property names"),
        (r#"{"type":"array","minItems":-1}"#, "keyword 'minItems' must be a non-negative integer (found -1)"),
        (r#"{"type":"array","maxItems":[true, null]}"#, "keyword 'maxItems' must be a non-negative integer (found [true,null])"),
        (r#"{"type":"array","minItems":3,"maxItems":2}"#, "keyword 'minItems' (3) exceeds 'maxItems' (2)"),
        (r#"{"type":"string","minLength":10,"maxLength":9}"#, "keyword 'minLength' (10) exceeds 'maxLength' (9)"),
        (r#"{"type":"number","minimum":"x"}"#, "keyword 'minimum' must be a number (found \"x\")"),
        (r#"{"type":"number","maximum":{"b": 1.50}}"#, "keyword 'maximum' must be a number (found {\"b\":1.5})"),
        (r#"{"enum":[]}"#, "keyword 'enum' must not be empty"),
        (r#"{"enum":"a"}"#, "keyword 'enum' must be an array of allowed values"),
        (r#"{"enum":[1.5]}"#, "keyword 'enum': only string and integer values are supported in this release"),
        (r#"{"enum":[null]}"#, "keyword 'enum': only string and integer values are supported in this release (found null)"),
        (r#"{"type":"string","enum":[1]}"#, "keyword 'enum' values do not match "),
        (r#"{"type":"object","properties":{"a":1}}"#, "schema for keyword 'properties'"),
    ];
    for (schema, why) in cases {
        let e = schema_refused(schema);
        assert!(e.starts_with(&format!("{P}{why}")), "{schema}: {e}");
    }
}

#[test]
fn each_fault_of_a_response_format_is_told() {
    let cases = [
        (r#"3"#, "response_format must be an object (found number)"),
        (r#"{"type":null}"#, "response_format 'type' must be a string (found null)"),
        (r#"{"x":1}"#, "response_format is missing 'type'"),
        (r#"{"type":"xml"}"#, "response_format 'type' = 'xml' is not supported in this release (V1 supports: text/json_object/json_schema)"),
        (r#"{"type":"text","x":1}"#, "response_format field 'x' is not supported in this release"),
        (r#"{"type":"json_schema","json_schema":7}"#, "'json_schema' must be an object (found number)"),
        (r#"{"type":"json_schema","json_schema":{"name":7,"schema":{}}}"#, "json_schema 'name' must be a string (found number)"),
        (r#"{"type":"json_schema","json_schema":{"zz":7}}"#, "json_schema field 'zz' is not supported in this release (supported: name/description/strict/schema)"),
        (r#"{"type":"json_schema"}"#, "keyword 'schema' is required: send "),
    ];
    for (rf, why) in cases {
        let e = refused(rf);
        assert!(e.starts_with(&format!("{P}{why}")), "{rf}: {e}");
    }
}

#[test]
fn texts_are_parsed() {
    assert!(parse_json("{").is_none());
    assert!(parse_json("1 2").is_none());
    match parse_json("[-3, 2.5, \"a\\u0062\"]") {
        Some(Json::Array(a)) => {
            assert!(matches!(&a[0], Json::Number(n) if n.signed == Some(-3) && n.unsigned.is_none()));
            assert!(matches!(&a[1], Json::Number(n)
                if n.signed.is_none() && n.double.map(|d| f64::from_bits(d.bits)) == Some(2.5)));
            assert!(matches!(&a[2], Json::String(s) if s == "ab"));
        }
        _ => panic!("an array"),
    }
}

#[test]
fn bounds_compare_decimals() {
    let mut m = mask(r#"{"type":"number","minimum":-1.5,"exclusiveMaximum":2}"#);
    assert!(accepts(&mut m, "-1.5"));
    assert!(accepts(&mut m, "-15e-1"));
    assert!(!accepts(&mut m, "-1.5000001"));
    assert!(accepts(&mut m, "1.999"));
    assert!(!accepts(&mut m, "2"));
    assert!(!accepts(&mut m, "2.0e0"));
    let mut e = mask(r#"{"type":"number","enum":[3,-7]}"#);
    assert!(accepts(&mut e, "3"));
    assert!(accepts(&mut e, "-7"));
    assert!(!accepts(&mut e, "7"));
}

#[test]
fn unfinished_characters_take_only_their_continuation() {
    let mut m = mask(r#"{"type":"string"}"#);
    let s0 = m.start_state();
    let s = walk(&mut m, s0, "\"").unwrap();
    let s = m.step(s, 0xC3).unwrap();
    assert!(m.step(s, b'a' as u32).is_none());
    assert!(m.step(s, b'\\' as u32).is_none());
    let s = m.step(s, 0xA9).unwrap();
    assert!(m.step(s, b'a' as u32).is_some());
}

#[test]
fn listed_values_are_no_containers() {
    let mut m = mask(r#"{"enum":["a",5]}"#);
    let s0 = m.start_state();
    assert!(!allows(&mut m, s0, b'{' as u32));
    assert!(!allows(&mut m, s0, b'[' as u32));
    assert!(accepts(&mut m, "\"a\""));
}

#[test]
fn how_a_text_is_cut_does_not_matter() {
    let rf = r#"{"type":"json_schema","schema":{"type":"object","properties":{"ab":{"type":"integer"}},"required":["ab"]}}"#;
    let mut m = compile_response_format(&parse_json(rf).unwrap()).unwrap().unwrap();
    m.set_vocab(vec![
        (1, b"{\"a".to_vec()),
        (2, b"b\":1".to_vec()),
        (3, b"2}".to_vec()),
        (4, b"{\"ab\":12}".to_vec()),
        (5, vec![]),
        (6, b" ".to_vec()),
    ]);
    let s0 = m.start_state();
    let whole = m.step(s0, 4).unwrap();
    let a = m.step(s0, 1).unwrap();
    let b = m.step(a, 2).unwrap();
    let c = m.step(b, 3).unwrap();
    assert_eq!(c, whole);
    assert!(m.is_complete(c) && !m.is_complete(b));
    assert_eq!(m.step(c, 6), Some(c));
    assert_eq!(m.step(c, 1), None);
    assert_eq!(m.step(s0, 5), None);
    assert_eq!(m.step(s0, 77), None);
    for s in [s0, a, b, c] {
        for t in 0..8u32 {
            assert_eq!(allows(&mut m, s, t), m.step(s, t).is_some());
        }
    }
    assert_eq!(m.step(s0, 3), None);
    let dead = 1000;
    assert_eq!(m.step(dead, 1), None);
}

#[test]
fn an_empty_vocabulary_allows_nothing() {
    let rf = r#"{"type":"json_object"}"#;
    let mut m = compile_response_format(&parse_json(rf).unwrap()).unwrap().unwrap();
    let s0 = m.start_state();
    assert!(m.allowed(s0).iter().all(|&w| w == 0));
}

#[test]
fn mixed_lists_hold_strings_and_integers() {
    let mut m = mask(r#"{"enum":["a",1]}"#);
    assert!(accepts(&mut m, "1"));
    assert!(accepts(&mut m, "1.0"));
    assert!(accepts(&mut m, "\"a\""));
    assert!(!accepts(&mut m, "2"));
    assert!(!accepts(&mut m, "\"1\""));
    let mut s = Schema::any();
    s.has_enum = true;
    s.enum_str = vec![b"a".to_vec()];
    s.enum_int = vec![1];
    assert!(num_ok(&s, &b"1".to_vec(), NumState::Int));
    assert!(!num_ok(&s, &b"2".to_vec(), NumState::Int));
}

#[test]
fn listed_integers_are_compared_exactly() {
    let mut m = mask(r#"{"type":"integer","enum":[9007199254740993,-9223372036854775808,0]}"#);
    assert!(accepts(&mut m, "9007199254740993"));
    assert!(!accepts(&mut m, "9007199254740992"));
    assert!(!accepts(&mut m, "9007199254740994"));
    assert!(accepts(&mut m, "-9223372036854775808"));
    assert!(!accepts(&mut m, "9223372036854775808"));
    assert!(!accepts(&mut m, "-9223372036854775809"));
    assert!(!accepts(&mut m, "18446744073709551616"));
    assert!(accepts(&mut m, "0"));
    assert!(accepts(&mut m, "-0"));
    let mut n = mask(r#"{"type":"number","enum":[100]}"#);
    assert!(accepts(&mut n, "1e2"));
    assert!(accepts(&mut n, "100.0"));
    assert!(!accepts(&mut n, "1e3"));
}

#[test]
fn a_refused_keyword_leaves_the_table() {
    let mut table = vec![Schema::any()];
    let v = parse_json(r#"{"properties":{"a":{}},"pattern":"x","type":"object"}"#).unwrap();
    let e = compile_schema(&v, 1, "schema", &mut table).unwrap_err();
    assert!(e.contains("'pattern'") && e.contains("not supported") && e.contains("V1 supports"));
    assert_eq!(table.len(), 1);
}

#[test]
fn plain_text_is_read_as_it_is() {
    let text = "a\u{e9}\u{20ac}\u{1F600} z";
    let mut st = StrState::new();
    for &b in text.as_bytes() {
        assert_eq!(str_advance(&mut st, b, true), Step::Open);
    }
    assert_eq!(st.dec, text.as_bytes());
    assert_eq!(st.cp as usize, text.chars().count());
    assert!(st.is_closed_interior());
    assert_eq!(str_advance(&mut st, b'"', true), Step::Closed);
    assert_eq!(st.dec, text.as_bytes());
}

#[test]
fn the_reader_takes_the_numbers_of_json() {
    let reads = |w: &str| {
        let b = w.as_bytes();
        let mut st = b.first().and_then(|&b| num_start(b)).map(|s| s.0);
        for &b in b.iter().skip(1) {
            st = st.and_then(|s| num_advance(s, b));
        }
        st.is_some_and(|s| s.terminal())
    };
    for w in ["0", "-0", "12", "-3.05", "1e9", "1E+9", "0.0e-00", "10.5"] {
        assert!(reads(w), "{w}");
    }
    for w in ["", "-", "01", "1.", ".5", "1e", "1e+", "+1", "1.e1", "0x1", "1 "] {
        assert!(!reads(w), "{w}");
    }
}

#[test]
fn any_depth_beyond_the_limit_is_told() {
    let v = parse_json("{}").unwrap();
    for depth in [13, 14, 1000, usize::MAX] {
        let e = compile_schema(&v, depth, "items", &mut vec![Schema::any()]).unwrap_err();
        assert!(e.contains("deeper than the V1 limit of 12 levels (via keyword 'items')"), "{e}");
        assert!(build_mask(&v, depth, "items").is_err());
    }
    assert!(compile_schema(&v, 12, "items", &mut vec![Schema::any()]).is_ok());
}

#[test]
fn unknown_states_allow_and_step_nowhere() {
    let mut m = mask(r#"{"type":"boolean"}"#);
    for state in [1u32, 77, u32::MAX] {
        let words = m.allowed(state);
        assert_eq!(words.len(), 8);
        assert!(words.iter().all(|&w| w == 0));
        for t in 0..256 {
            assert_eq!(m.step(state, t), None);
        }
    }
}
