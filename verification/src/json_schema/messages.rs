//! The messages of refused schemas. Each names the keyword that the caller has to change.

use vstd::prelude::*;

use crate::text;

verus! {

/// `msg` behind the prefix that every message has.
pub open spec fn prefixed(msg: Seq<char>) -> Seq<char> {
    "response_format json_schema: "@ + msg
}

/// The keywords that a schema may use.
pub open spec fn supported_list() -> Seq<char> {
    "type/properties/required/enum/items/minItems/maxItems/minLength/maxLength/minimum/maximum/exclusiveMinimum/exclusiveMaximum/additionalProperties"@
}

pub open spec fn quoted(kw: Seq<char>) -> Seq<char> {
    "keyword '"@ + kw + "'"@
}

pub open spec fn unsupported(kw: Seq<char>) -> Seq<char> {
    prefixed(
        quoted(kw) + " is not supported in this release (V1 supports: "@ + supported_list() + ")"@,
    )
}

pub open spec fn unsupported_with(kw: Seq<char>, label: Seq<char>) -> Seq<char> {
    prefixed(
        quoted(kw) + " is not supported with "@ + label + " in this release (V1 supports: "@
            + supported_list() + ")"@,
    )
}

/// `before`, a name, and `after`, behind the prefix.
pub open spec fn around(before: Seq<char>, name: Seq<char>, after: Seq<char>) -> Seq<char> {
    prefixed(before + name + after)
}

/// A message with two names in it.
pub open spec fn around_two(
    a: Seq<char>,
    x: Seq<char>,
    b: Seq<char>,
    y: Seq<char>,
    c: Seq<char>,
) -> Seq<char> {
    prefixed(a + x + b + y + c)
}

/// `msg` behind the prefix that every message has.
pub fn err_msg(msg: &str) -> (r: String)
    ensures
        r@ == prefixed(msg@),
{
    String::from_str("response_format json_schema: ").concat(msg)
}

/// A message with one name in it.
pub fn err_around(before: &str, name: &str, after: &str) -> (r: String)
    ensures
        r@ == around(before@, name@, after@),
{
    let msg = String::from_str(before).concat(name).concat(after);
    err_msg(msg.as_str())
}

/// A message with two names in it.
pub fn err_around_two(a: &str, x: &str, b: &str, y: &str, c: &str) -> (r: String)
    ensures
        r@ == around_two(a@, x@, b@, y@, c@),
{
    let msg = String::from_str(a).concat(x).concat(b).concat(y).concat(c);
    err_msg(msg.as_str())
}

fn supported() -> (r: &'static str)
    ensures
        r@ == supported_list(),
{
    "type/properties/required/enum/items/minItems/maxItems/minLength/maxLength/minimum/maximum/exclusiveMinimum/exclusiveMaximum/additionalProperties"
}

/// The keyword is not supported.
pub fn err_unsupported(kw: &str) -> (r: String)
    ensures
        r@ == unsupported(kw@),
{
    let msg = String::from_str("keyword '").concat(kw).concat("'").concat(
        " is not supported in this release (V1 supports: ",
    ).concat(supported()).concat(")");
    err_msg(msg.as_str())
}

/// The keyword is not supported with this type.
pub fn err_unsupported_with(kw: &str, label: &str) -> (r: String)
    ensures
        r@ == unsupported_with(kw@, label@),
{
    let msg = String::from_str("keyword '").concat(kw).concat("'").concat(
        " is not supported with ",
    ).concat(label).concat(" in this release (V1 supports: ").concat(supported()).concat(")");
    err_msg(msg.as_str())
}

/// The lower bound exceeds the upper one.
pub open spec fn out_of_order(lo_kw: Seq<char>, lo: u64, hi_kw: Seq<char>, hi: u64) -> Seq<char> {
    prefixed(
        quoted(lo_kw) + " ("@ + text::decimal(lo as nat) + ") exceeds '"@ + hi_kw + "' ("@
            + text::decimal(hi as nat) + ")"@,
    )
}

pub fn err_out_of_order(lo_kw: &str, lo: u64, hi_kw: &str, hi: u64) -> (r: String)
    ensures
        r@ == out_of_order(lo_kw@, lo, hi_kw@, hi),
{
    let a = text::to_decimal(lo);
    let b = text::to_decimal(hi);
    let msg = String::from_str("keyword '").concat(lo_kw).concat("'").concat(" (").concat(
        a.as_str(),
    ).concat(") exceeds '").concat(hi_kw).concat("' (").concat(b.as_str()).concat(")");
    err_msg(msg.as_str())
}


/// `part` stands in `msg`.
pub open spec fn mentions(msg: Seq<char>, part: Seq<char>) -> bool {
    exists|a: Seq<char>, b: Seq<char>| msg == #[trigger] (a + part + b)
}

/// A message that says that a keyword is not supported names it, and with which type.
pub proof fn law_unsupported_keywords_are_named(kw: Seq<char>, label: Seq<char>)
    ensures
        mentions(unsupported(kw), kw),
        mentions(unsupported_with(kw, label), kw),
        mentions(unsupported_with(kw, label), label),
{
    let q = "response_format json_schema: "@ + "keyword '"@;
    let tail = "'"@ + " is not supported in this release (V1 supports: "@ + supported_list() + ")"@;
    assert(unsupported(kw) =~= q + kw + tail);
    let with = "'"@ + " is not supported with "@;
    let rest = " in this release (V1 supports: "@ + supported_list() + ")"@;
    assert(unsupported_with(kw, label) =~= q + kw + (with + label + rest));
    assert(unsupported_with(kw, label) =~= (q + kw + with) + label + rest);
}

/// A message that is written around names holds them.
pub proof fn law_messages_hold_their_names(
    a: Seq<char>,
    x: Seq<char>,
    b: Seq<char>,
    y: Seq<char>,
    c: Seq<char>,
)
    ensures
        mentions(around(a, x, b), x),
        mentions(around_two(a, x, b, y, c), x),
        mentions(around_two(a, x, b, y, c), y),
{
    let p = "response_format json_schema: "@;
    assert(around(a, x, b) =~= (p + a) + x + b);
    assert(around_two(a, x, b, y, c) =~= (p + a) + x + (b + y + c));
    assert(around_two(a, x, b, y, c) =~= (p + a + x + b) + y + c);
}

/// A message about limits that are out of order names both keywords.
pub proof fn law_limits_out_of_order_are_named(lo_kw: Seq<char>, lo: u64, hi_kw: Seq<char>, hi: u64)
    ensures
        mentions(out_of_order(lo_kw, lo, hi_kw, hi), lo_kw),
        mentions(out_of_order(lo_kw, lo, hi_kw, hi), hi_kw),
{
    let q = "response_format json_schema: "@ + "keyword '"@;
    let (x, y) = (text::decimal(lo as nat), text::decimal(hi as nat));
    let m = out_of_order(lo_kw, lo, hi_kw, hi);
    let tail = "' ("@ + y + ")"@;
    let mid = "'"@ + " ("@ + x + ") exceeds '"@;
    assert(m =~= q + lo_kw + (mid + hi_kw + tail));
    assert(m =~= (q + lo_kw + mid) + hi_kw + tail);
}

} // verus!
