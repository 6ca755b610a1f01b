use std::sync::Arc;

use gb10_infer::json_schema::vocab_words;
use gb10_infer::json_schema::{compile_response_format, parse_json, Json, SchemaMask};

fn json(text: &str) -> Json {
    parse_json(text).expect("test value is valid JSON")
}

fn byte_vocab() -> Vec<(u32, Vec<u8>)> {
    (0u32..256).map(|b| (b, vec![b as u8])).collect()
}

fn enforced(schema_json: &str) -> Json {
    json(&format!(
        "{{\"type\":\"json_schema\",\"json_schema\":{{\"name\":\"t\",\"strict\":true,\"schema\":{schema_json}}}}}"
    ))
}

fn refusal(rf: &Json, why: &str) -> String {
    match compile_response_format(rf) {
        Ok(_) => panic!("{why}"),
        Err(e) => e,
    }
}

fn compile_err(schema_json: &str) -> String {
    refusal(&enforced(schema_json), "schema must be refused")
}

fn mask(schema_json: &str) -> SchemaMask {
    let mut m = compile_response_format(&enforced(schema_json))
        .unwrap_or_else(|e| panic!("schema unexpectedly refused: {e}"))
        .expect("schema must be enforced");
    m.set_vocab(byte_vocab());
    m
}

/// Feeds a byte string as a sequence of one-byte tokens; `None` = refused.
fn walk(m: &mut SchemaMask, s: &str) -> Option<u32> {
    let mut st = m.start_state();
    for &b in s.as_bytes() {
        st = m.step(st, b as u32)?;
    }
    Some(st)
}

/// Full-document acceptance: every byte feeds and the document is finished.
fn ok(m: &mut SchemaMask, s: &str) -> bool {
    match walk(m, s) {
        Some(st) => m.is_complete(st),
        None => false,
    }
}

fn bits(ids: &[u32], words: usize) -> Vec<u32> {
    let mut v = vec![0u32; words];
    for &i in ids {
        v[(i >> 5) as usize] |= 1u32 << (i & 31);
    }
    v
}

#[test]
fn rejected_keywords_are_named_loudly() {
    let cases: &[(&str, &str)] = &[
        ("pattern", r#"{"type":"string","pattern":"^a$"}"#),
        ("format", r#"{"type":"string","format":"date-time"}"#),
        ("oneOf", r#"{"oneOf":[{"type":"string"}]}"#),
        ("anyOf", r#"{"anyOf":[{"type":"string"}]}"#),
        ("allOf", r#"{"allOf":[{"type":"string"}]}"#),
        ("not", r#"{"not":{"type":"string"}}"#),
        ("$ref", r##"{"$ref":"#/defs/x"}"##),
        ("patternProperties", r#"{"type":"object","patternProperties":{"a":{"type":"string"}}}"#),
        ("minProperties", r#"{"type":"object","minProperties":1}"#),
        ("maxProperties", r#"{"type":"object","maxProperties":3}"#),
        ("$defs", r#"{"$defs":{"a":{"type":"string"}}}"#),
        ("definitions", r#"{"definitions":{"a":{"type":"string"}}}"#),
        ("if", r#"{"if":{"type":"string"}}"#),
        ("then", r#"{"then":{"type":"string"}}"#),
        ("else", r#"{"else":{"type":"string"}}"#),
        ("const", r#"{"const":1}"#),
        ("uniqueItems", r#"{"type":"array","uniqueItems":true}"#),
        ("contains", r#"{"type":"array","contains":{"type":"string"}}"#),
        ("prefixItems", r#"{"type":"array","prefixItems":[{"type":"string"}]}"#),
        ("additionalItems", r#"{"type":"array","additionalItems":false}"#),
        ("propertyNames", r#"{"type":"object","propertyNames":{"type":"string"}}"#),
        ("dependencies", r#"{"type":"object","dependencies":{"a":["b"]}}"#),
        ("dependentSchemas", r#"{"type":"object","dependentSchemas":{"a":{}}}"#),
        ("dependentRequired", r#"{"type":"object","dependentRequired":{"a":["b"]}}"#),
        ("unevaluatedProperties", r#"{"type":"object","unevaluatedProperties":false}"#),
        ("unevaluatedItems", r#"{"type":"array","unevaluatedItems":false}"#),
        // unknown keywords are refused just as loudly
        ("title", r#"{"type":"string","title":"nope"}"#),
        ("x-vendor", r#"{"type":"string","x-vendor":true}"#),
    ];
    for (kw, js) in cases {
        let e = compile_err(js);
        assert!(e.contains(&format!("'{kw}'")), "error must name '{kw}': {e}");
        assert!(e.contains("not supported"), "error for '{kw}' must say so: {e}");
    }
    // ... and the message tells the caller what to do instead.
    let e = compile_err(r#"{"type":"string","pattern":"^a$"}"#);
    assert!(e.contains("V1 supports"), "must list the supported keywords: {e}");
}

#[test]
fn type_dependent_keywords_are_named_loudly() {
    // A supported keyword on the wrong type is refused by name, never ignored.
    for (kw, js) in [
        ("minLength", r#"{"minLength":3}"#),
        ("minItems", r#"{"type":"string","minItems":1}"#),
        ("minimum", r#"{"type":"string","minimum":1}"#),
        ("properties", r#"{"type":"array","properties":{"a":{"type":"string"}}}"#),
        ("enum", r#"{"type":"boolean","enum":["a"]}"#),
    ] {
        let e = compile_err(js);
        assert!(e.contains(&format!("'{kw}'")), "error must name '{kw}': {e}");
    }
    let e = compile_err(r#"{"type":"union_thing"}"#);
    assert!(e.contains("'type'"), "{e}");
    let e = compile_err(r#"{"type":["string","null"]}"#);
    assert!(e.contains("'type'"), "{e}");
}

// ---- 2: basic object ---------------------------------------------------------------------

#[test]
fn object_required_and_additional_properties() {
    let mut m = mask(r#"{"type":"object","properties":{"a":{"type":"string"}},"required":["a"]}"#);
    assert!(ok(&mut m, r#"{"a":"x"}"#));
    assert!(ok(&mut m, r#"{ "a" : "x" }"#)); // whitespace is free
    assert!(ok(&mut m, r#"{"a":"\u0078"}"#)); // escapes decode to the same string
    assert!(!ok(&mut m, r#"{"a":1}"#), "string property must reject a number");
    assert!(!ok(&mut m, r#"{}"#), "missing required key");
    assert!(!ok(&mut m, r#"{"a":"x","b":1}"#), "additionalProperties defaults to false");
    assert!(!ok(&mut m, r#"{"a":"x"}extra"#), "trailing junk after the document");
    assert!(!ok(&mut m, r#"{"a":"x","a":"x"}"#), "duplicate key");
    assert!(!ok(&mut m, r#"{"a":"x",}"#), "trailing comma in object");
    assert!(!ok(&mut m, r#"{"a":"x""#), "unterminated document is not complete");
    assert!(!ok(&mut m, r#"{"b":"x"}"#), "unknown key with additionalProperties false");
    assert!(!ok(&mut m, r#"[]"#), "wrong value kind");

    // explicit additionalProperties: true re-opens the key set (each at most once)
    let mut open = mask(r#"{"type":"object","properties":{"a":{"type":"string"}},"required":["a"],"additionalProperties":true}"#);
    assert!(ok(&mut open, r#"{"a":"x","b":1}"#));
    assert!(ok(&mut open, r#"{"b":null,"a":"x"}"#));
    assert!(!ok(&mut open, r#"{"a":"x","a":"y"}"#), "duplicates are rejected even for declared keys");
    assert!(!ok(&mut open, r#"{"b":1,"b":2}"#), "duplicates are rejected for extra keys too");
    assert!(!ok(&mut open, r#"{"b":1}"#), "required still applies");

    // a bare object / json_object accepts any shape of object
    let mut any_obj = mask(r#"{"type":"json_object"}"#);
    assert!(ok(&mut any_obj, r#"{}"#));
    assert!(ok(&mut any_obj, r#"{"anything":[1,{"x":null}]}"#));
    assert!(!ok(&mut any_obj, r#"[]"#));
    assert!(ok(&mut mask(r#"{"type":"object"}"#), r#"{"z":1}"#));
}

// ---- 3: enum -----------------------------------------------------------------------------

#[test]
fn enum_prefix_rule() {
    let mut m = mask(r#"{"enum":["alpha","beta"]}"#);
    assert!(ok(&mut m, r#""alpha""#));
    assert!(ok(&mut m, r#""beta""#));
    assert!(!ok(&mut m, r#""gamma""#), "must die as soon as the prefix leaves the enum");
    assert!(!ok(&mut m, r#""alph""#), "an unterminated string is not a complete value");
    // the prefix rule is visible at the byte level: after `"` only a/b may start
    let st = walk(&mut m, r#"""#).unwrap();
    assert!(m.step(st, b'a' as u32).is_some());
    assert!(m.step(st, b'b' as u32).is_some());
    assert!(m.step(st, b'g' as u32).is_none());

    let mut typed = mask(r#"{"type":"string","enum":["a","b"]}"#);
    assert!(ok(&mut typed, r#""a""#));
    assert!(!ok(&mut typed, r#""c""#));
    assert!(!ok(&mut typed, r#"1"#), "declared type still applies");

    let mut ints = mask(r#"{"type":"integer","enum":[1,2]}"#);
    assert!(ok(&mut ints, "1"));
    assert!(ok(&mut ints, "2"));
    assert!(!ok(&mut ints, "3"));
    assert!(!ok(&mut ints, "12"));
    assert!(!ok(&mut ints, "1.0"), "integer forbids a fraction");
    assert!(!ok(&mut ints, r#""1""#));
}

// ---- 4: array bounds ---------------------------------------------------------------------

#[test]
fn array_item_bounds() {
    let mut m = mask(r#"{"type":"array","items":{"type":"integer"},"minItems":1,"maxItems":2}"#);
    assert!(!ok(&mut m, "[]"), "minItems 1");
    assert!(ok(&mut m, "[1]"));
    assert!(ok(&mut m, "[1,2]"));
    assert!(ok(&mut m, "[ 1 , 2 ]"));
    assert!(!ok(&mut m, "[1,2,3]"), "maxItems 2");
    assert!(!ok(&mut m, "[[1]]"), "items must be integers");
    assert!(!ok(&mut m, "[1,]"), "trailing comma");
    assert!(!ok(&mut m, "[1")); // unterminated
    let mut unbounded = mask(r#"{"type":"array"}"#);
    assert!(ok(&mut unbounded, "[]"));
    assert!(ok(&mut unbounded, r#"[1,"a",null,{"b":[]}]"#));
}

// ---- 5: nesting --------------------------------------------------------------------------

#[test]
fn nested_object_array_object() {
    let mut m = mask(
        r#"{"type":"object","properties":{"xs":{"type":"array","items":{"type":"object",
           "properties":{"n":{"type":"integer","minimum":0}},"required":["n"],
           "additionalProperties":false}}},"required":["xs"],"additionalProperties":false}"#,
    );
    assert!(ok(&mut m, r#"{"xs":[{"n":1},{"n":2}]}"#));
    assert!(ok(&mut m, r#"{"xs":[]}"#));
    assert!(!ok(&mut m, r#"{"xs":[{"n":-1}]}"#), "minimum applies at depth 3");
    assert!(!ok(&mut m, r#"{"xs":[{"n":1,"z":0}]}"#), "additionalProperties applies at depth 3");
    assert!(!ok(&mut m, r#"{"xs":[{"z":1}]}"#), "required applies at depth 3");
    assert!(!ok(&mut m, r#"{"xs":[{"n":1}]"#), "unterminated nesting");
    assert!(!ok(&mut m, r#"{"xs":{"n":1}}"#), "object where the array belongs");
    assert!(m.summary().contains("root=object"), "{}", m.summary());
    assert!(m.summary().contains("max_depth=4"), "{}", m.summary());
}

#[test]
fn depth_cap_is_loud() {
    let deep = |levels: usize| {
        let mut v = String::from(r#"{"type":"string"}"#);
        for _ in 0..levels {
            v = format!("{{\"type\":\"object\",\"properties\":{{\"x\":{v}}}}}");
        }
        v
    };
    let rf = |levels: usize| {
        json(&format!(
            "{{\"type\":\"json_schema\",\"json_schema\":{{\"name\":\"deep\",\"schema\":{}}}}}",
            deep(levels)
        ))
    };
    // 12 nested property levels are fine; 13 are refused by name.
    assert!(compile_response_format(&rf(11)).is_ok());
    let e = refusal(&rf(13), "13 levels must be refused");
    assert!(e.contains("'properties'"), "{e}");
    assert!(e.contains("deeper than the V1 limit"), "{e}");
}

// ---- 6: token-level layer ----------------------------------------------------------------

#[test]
fn tiny_vocab_allowed_and_step_agree() {
    let mut m = mask(r#"{"type":"object","properties":{"a":{"type":"string"}},"required":["a"]}"#);
    // Pieces exercise the trie: single bytes, mid-document fragments, and whole documents.
    let pieces: Vec<(u32, Vec<u8>)> = vec![
        (1, b"{".to_vec()),
        (2, b"\"a\"".to_vec()),
        (3, b"}".to_vec()),
        (4, b"1".to_vec()),
        (5, b"\"x\"".to_vec()),
        (6, b":".to_vec()),
        (7, b",".to_vec()),
        (8, b"{\"".to_vec()),
        (9, b"a\":".to_vec()),
        (10, b"\"x\"}".to_vec()),
        (11, b" ".to_vec()),
        (12, b"{\"a\":\"x\"}".to_vec()),
    ];
    m.set_vocab(pieces);
    let words = vocab_words(13);
    assert_eq!(words, 1);

    let s0 = m.start_state();
    // At the start only tokens whose whole byte run is accepted may fire: `{`, `{"`, a space
    // (leading whitespace is legal) and the complete document.
    assert_eq!(m.allowed(s0).as_slice(), bits(&[1, 8, 11, 12], words).as_slice());
    for bad in [2u32, 3, 4, 5, 6, 7, 9, 10] {
        assert_eq!(m.step(s0, bad), None, "token {bad} must not be usable at the start");
    }

    // Walk a full document with the tokenizer's pieces, asserting each use was allowed.
    let used = [1u32, 2, 6, 5, 3];
    let mut st = s0;
    let mut produced = String::new();
    for tok in used {
        let allowed = m.allowed(st);
        assert!(allowed[(tok >> 5) as usize] & (1u32 << (tok & 31)) != 0, "token {tok} was not allowed");
        st = m.step(st, tok).expect("used token must be steppable");
        produced.push_str(match tok {
            1 => "{",
            2 => "\"a\"",
            6 => ":",
            5 => "\"x\"",
            3 => "}",
            _ => unreachable!(),
        });
    }
    assert_eq!(produced, r#"{"a":"x"}"#);
    assert!(m.is_complete(st), "document finished");

    // State-specific expectations (also shows required-key handling inside `allowed`).
    let after_brace = m.step(s0, 1).unwrap();
    assert_eq!(m.allowed(after_brace).as_slice(), bits(&[2, 11], words).as_slice());
    assert_eq!(m.step(after_brace, 3), None, "cannot close before 'a' is present");

    let after_key = m.step(after_brace, 2).unwrap();
    assert_eq!(m.allowed(after_key).as_slice(), bits(&[6, 11], words).as_slice());

    let after_colon = m.step(after_key, 6).unwrap();
    assert_eq!(m.allowed(after_colon).as_slice(), bits(&[2, 5, 10, 11], words).as_slice());
    assert_eq!(m.step(after_colon, 4), None, "1 is not a string");

    let after_value = m.step(after_colon, 5).unwrap();
    assert_eq!(m.allowed(after_value).as_slice(), bits(&[3, 7, 11], words).as_slice());

    let done = m.step(after_value, 3).unwrap();
    assert!(m.is_complete(done));
    // Trailing whitespace keeps the machine in the same (interned) completed state.
    assert_eq!(m.step(done, 11), Some(done));
    assert_eq!(m.allowed(done).as_slice(), bits(&[11], words).as_slice());

    // End-of-generation tokens are only ever reachable through end_mask.
    let em = m.end_mask(&[3]);
    assert_eq!(em.as_slice(), bits(&[3], words).as_slice());
    assert_eq!(m.allowed(done).as_slice(), bits(&[11], words).as_slice());
}

#[test]
fn unknown_and_empty_tokens_are_never_allowed() {
    let mut m = mask(r#"{"type":"integer"}"#);
    m.set_vocab(vec![(0, Vec::new()), (1, b"4".to_vec()), (2, b"2".to_vec())]);
    let s0 = m.start_state();
    let a = m.allowed(s0);
    assert_eq!(a.as_slice(), bits(&[1, 2], 1).as_slice());
    assert_eq!(m.step(s0, 0), None, "empty piece cannot advance the machine");
    assert_eq!(m.step(s0, 7), None, "token missing from the table");
    assert_eq!(m.step(s0, 9999), None);
}

#[test]
fn vocab_not_set_fails_closed() {
    // A mask with no vocabulary attached must emit nothing, not everything.
    let mut bare = compile_response_format(&json(
        r#"{"type":"json_schema","json_schema":{"name":"t","schema":{"type":"string"}}}"#,
    ))
    .unwrap()
    .expect("schema is enforced");
    assert!(!bare.is_dead(bare.start_state()), "the machine itself is alive");
    assert!(bare.allowed(bare.start_state()).is_empty(), "no vocab: nothing may be emitted");
    // ... and an explicitly empty vocabulary behaves the same way.
    let mut empty = mask(r#"{"type":"string"}"#);
    empty.set_vocab(Vec::new());
    assert!(empty.allowed(empty.start_state()).is_empty());
}

// ---- 7: completeness ---------------------------------------------------------------------

#[test]
fn complete_state_tracks_document_end() {
    let mut m = mask(r#"{"type":"object","properties":{"a":{"type":"integer"}},"required":["a"]}"#);
    let s0 = m.start_state();
    assert!(!m.is_complete(s0), "empty output is not a document");
    for prefix in [r#"{"#, r#"{"a"#, r#"{"a":"#, "{\"a\":1"] {
        let st = walk(&mut m, prefix).unwrap_or_else(|| panic!("prefix {prefix} should be steppable"));
        assert!(!m.is_complete(st), "{prefix} is not finished");
    }
    let mid = walk(&mut m, r#"{"a":1"#).unwrap();
    assert!(!m.is_complete(mid), "the object is still open");
    // A pending number IS finished at the top level: `is_complete` finalizes it.
    let mut nums = mask(r#"{"type":"integer","maximum":10}"#);
    let at = walk(&mut nums, "7").unwrap();
    assert!(nums.is_complete(at));
    let at = walk(&mut nums, "70").unwrap();
    assert!(!nums.is_complete(at), "over the bound");
    let finished = walk(&mut m, r#"{"a":1}"#).unwrap();
    assert!(m.is_complete(finished));
    let at = walk(&mut m, "{\"a\":1} \n\t").unwrap();
    assert!(m.is_complete(at), "trailing whitespace");
    assert!(walk(&mut m, r#"{"a":1} x"#).is_none(), "junk is refused outright");
    assert!(walk(&mut m, r#"{"a":false}"#).is_none(), "wrong value kind is refused");
    assert!(!m.is_dead(finished), "a finished document is alive");
    assert!(m.is_dead(12345), "unknown states report dead (fail closed)");
}

// ---- 8: cache ----------------------------------------------------------------------------

#[test]
fn allowed_is_cached_and_idempotent() {
    let mut m = mask(r#"{"type":"integer","minimum":5,"maximum":10}"#);
    let s0 = m.start_state();
    let a = m.allowed(s0);
    let b = m.allowed(s0);
    assert_eq!(a, b, "same bitset");
    assert!(Arc::ptr_eq(&a, &b), "second call must be the cached Arc");
    let before = m.summary();
    assert!(before.contains("cached_masks=1"), "{before}");
    assert!(before.contains("vocab=256 tokens/8 words"), "{before}");
    let _ = m.allowed(s0);
    assert!(m.summary().contains("cached_masks=1"), "no growth on repeat");
}

// ---- additional coverage: numbers, strings, response_format shapes ------------------------

#[test]
fn number_grammar_and_bounds() {
    let mut m = mask(r#"{"type":"integer","minimum":5,"maximum":10}"#);
    assert!(ok(&mut m, "5"));
    assert!(ok(&mut m, "10"));
    assert!(!ok(&mut m, "4"));
    assert!(!ok(&mut m, "11"));
    assert!(!ok(&mut m, "05"), "leading zero");
    assert!(!ok(&mut m, "-5"));
    assert!(!ok(&mut m, "5.0"), "integer forbids fraction");
    assert!(!ok(&mut m, "1e1"), "integer forbids exponent");
    assert!(!ok(&mut m, "5x"));
    assert!(!ok(&mut m, "-"));

    let mut n = mask(r#"{"type":"number","exclusiveMinimum":0,"exclusiveMaximum":1}"#);
    assert!(ok(&mut n, "0.5"));
    assert!(ok(&mut n, "1e-3"));
    assert!(!ok(&mut n, "0"), "exclusive bound");
    assert!(!ok(&mut n, "1"), "exclusive bound");
    assert!(!ok(&mut n, "-1"));
    assert!(!ok(&mut n, "1."), "dangling fraction point");
    assert!(!ok(&mut n, "1e"), "dangling exponent");

    let mut e = mask(r#"{"type":"number","maximum":2,"exclusiveMaximum":2}"#);
    assert!(!ok(&mut e, "2"));
}

#[test]
fn string_lengths_are_code_points() {
    let mut m = mask(r#"{"type":"string","minLength":2,"maxLength":3}"#);
    assert!(ok(&mut m, r#""ab""#));
    assert!(ok(&mut m, r#""abc""#));
    assert!(!ok(&mut m, r#""a""#));
    assert!(!ok(&mut m, r#""abcd""#));
    assert!(ok(&mut m, r#""\u0041B""#), "an escape is one code point");
    assert!(ok(&mut m, r#""\ud83d\ude00x""#), "a surrogate pair is one code point");
    assert!(!ok(&mut m, r#""\ud83d\ude00""#), "one code point < minLength 2");
    let mut one = mask(r#"{"type":"string","maxLength":1}"#);
    assert!(ok(&mut one, "\"\u{1F600}\""), "4 UTF-8 bytes, 1 code point");
    assert!(!ok(&mut one, r#""ab""#));
    assert!(!ok(&mut m, "\"a\nb\""), "raw newline must be escaped");
    assert!(ok(&mut m, r#""a\nb""#), "escaped newline is fine");
    assert!(!ok(&mut m, r#""\ud83d""#), "lone high surrogate");
    assert!(!ok(&mut m, r#""\q""#), "unknown escape");
}

#[test]
fn response_format_shapes() {
    // nothing to enforce
    assert!(compile_response_format(&Json::Null).unwrap().is_none());
    assert!(compile_response_format(&json(r#"{"type":"text"}"#)).unwrap().is_none());
    // json_object = any object
    let m = compile_response_format(&json(r#"{"type":"json_object"}"#))
        .unwrap()
        .expect("json_object is enforced");
    assert!(m.summary().contains("root=object"), "{}", m.summary());
    // bare form: {"type":"json_schema","schema":{...}}
    let bare = compile_response_format(&json(
        r#"{"type":"json_schema","schema":{"type":"string"}}"#,
    ))
    .unwrap()
    .expect("bare form is enforced");
    assert!(bare.summary().contains("root=string"), "{}", bare.summary());
    // strict/name/description are accepted and ignored
    assert!(compile_response_format(&json(
        r#"{"type":"json_schema","json_schema":{"name":"n","description":"d","strict":true,"schema":{"type":"null"}}}"#
    ))
    .is_ok());
    // loud failures
    let e = refusal(
        &json(r#"{"type":"json_schema","json_schema":{"name":"n"}}"#),
        "missing schema",
    );
    assert!(e.contains("'schema'"), "{e}");
    let e = refusal(&json(r#"{"type":"yaml"}"#), "bad type");
    assert!(e.contains("'type'"), "{e}");
    let e = refusal(&json(r#"{"nope":1}"#), "no type");
    assert!(e.contains("'type'"), "{e}");
    assert!(compile_response_format(&json(r#"[1,2]"#)).is_err());
    assert!(compile_response_format(&json(r#"{"type":"json_schema","json_schema":{"name":"n","schema":{"type":"string"}},"extra":1}"#)).is_err());
}

#[test]
fn permissive_and_literal_values() {
    let mut m = mask("{}");
    assert!(ok(&mut m, "123"));
    assert!(ok(&mut m, "-1.5e3"));
    assert!(ok(&mut m, r#""s""#));
    assert!(ok(&mut m, "true"));
    assert!(ok(&mut m, "null"));
    assert!(ok(&mut m, r#"[1,"a"]"#));
    assert!(!ok(&mut m, "tru"));
    assert!(!ok(&mut m, "[1,]"));
    assert!(ok(&mut mask(r#"{"type":"boolean"}"#), "false"));
    assert!(!ok(&mut mask(r#"{"type":"boolean"}"#), "truex"));
    assert!(ok(&mut mask(r#"{"type":"null"}"#), "null"));
    assert!(!ok(&mut mask(r#"{"type":"null"}"#), "nul"));
}
