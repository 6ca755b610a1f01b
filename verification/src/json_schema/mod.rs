//! JSON-schema constrained decoding.

use vstd::prelude::*;

pub mod ascii;
pub mod compile;
pub mod compiler;
pub mod double;
pub mod messages;
pub mod bits;
pub mod bytes;
pub mod documents;
pub mod feed;
pub mod grammar;
pub mod keywords;
pub mod laws;
pub mod machine;
pub mod mask;
pub mod number_grammar;
pub mod numbers;
pub mod response;
pub mod roll;
pub mod schema;
pub mod state;
pub mod string_grammar;
pub mod strings;
pub mod utf8;
pub mod value;
pub mod vocab;
pub mod walk;

pub use mask::SchemaMask;
pub use response::compile_response_format;
pub use value::{parse_json, Json, JsonNumber};

verus! {

/// Number of `u32` words needed for a bitset of `n` tokens: `n / 32`, rounded up.
pub open spec fn words_for(n: int) -> int {
    (n + 31) / 32
}

/// Number of `u32` words needed for a bitset over `n` tokens (bit `t` stands for token `t`).
pub fn vocab_words(n: usize) -> (words: usize)
    ensures
        words == words_for(n as int),
{
    n / 32 + if n % 32 == 0 { 0 } else { 1 }
}

} // verus!
