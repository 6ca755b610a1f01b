//! Random draws of a lane.
//!
//! A lane holds a 64-bit key. Every draw of a step is an independent mix of the key, a domain and
//! an index, and the key advances once per step. Domains keep the host's accept draws apart from
//! the seeds that the device gets.

use vstd::arithmetic::div_mod::*;
use vstd::prelude::*;

verus! {

/// Domain of the seeds for the columns of a stochastic verify.
pub const RNG_DOM_VERIFY: u64 = 0x5645_5249_4659_0001;

/// Domain of the accept draws.
pub const RNG_DOM_ACCEPT: u64 = 0x4143_4345_5054_0001;

/// Domain of the seeds for plain sampling.
pub const RNG_DOM_SAMPLE: u64 = 0x5341_4D50_4C45_0001;

/// Domain of the seeds for the sampled selector walk.
pub const RNG_DOM_DF2_SEL: u64 = 0x4446_3253_454C_0001;

/// Increment of the generator.
pub const GOLDEN: u64 = 0x9E37_79B9_7F4A_7C15;

/// One step of the splitmix64 generator.
pub open spec fn mixed(z: u64) -> u64 {
    let a = z.wrapping_add(GOLDEN);
    let b = (a ^ (a >> 30)).wrapping_mul(0xBF58_476D_1CE4_E5B9);
    let c = (b ^ (b >> 27)).wrapping_mul(0x94D0_49BB_1331_11EB);
    c ^ (c >> 31)
}

/// One step of the splitmix64 generator.
pub fn splitmix64(z: u64) -> (r: u64)
    ensures
        r == mixed(z),
{
    let a: u64 = z.wrapping_add(GOLDEN);
    let b: u64 = (a ^ (a >> 30)).wrapping_mul(0xBF58_476D_1CE4_E5B9);
    let c: u64 = (b ^ (b >> 27)).wrapping_mul(0x94D0_49BB_1331_11EB);
    c ^ (c >> 31)
}

/// The state of the generator behind the draw with index `idx` of a domain.
pub open spec fn state_of(key: u64, domain: u64, idx: u64) -> u64 {
    mixed(key ^ domain ^ idx.wrapping_mul(GOLDEN))
}

/// The draw with index `idx` of a domain: the upper half of the state.
pub open spec fn draw(key: u64, domain: u64, idx: u64) -> u32 {
    (state_of(key, domain, idx) >> 32) as u32
}

/// One 32-bit draw from the key of a step.
pub fn rng_u32(key: u64, domain: u64, idx: usize) -> (r: u32)
    ensures
        r == draw(key, domain, idx as u64),
{
    (splitmix64(key ^ domain ^ (idx as u64).wrapping_mul(GOLDEN)) >> 32) as u32
}

/// The 24-bit mantissa of a uniform draw in `[0, 1)`: the uniform is this over two to the 24th.
pub fn rng_mantissa(key: u64, domain: u64, idx: usize) -> (r: u32)
    ensures
        r == draw(key, domain, idx as u64) >> 8,
        r < 0x100_0000,
{
    let d: u32 = rng_u32(key, domain, idx);
    assert(d >> 8 < 0x100_0000) by (bit_vector);
    d >> 8
}

/// The draws with indices `0..n` of a domain.
pub open spec fn draws(key: u64, domain: u64, n: nat) -> Seq<u32> {
    Seq::new(n, |j: int| draw(key, domain, j as u64))
}

/// Seeds `0..n` of a domain.
pub fn seeds(key: u64, domain: u64, n: usize) -> (r: Vec<u32>)
    ensures
        r@ == draws(key, domain, n as nat),
{
    let mut r: Vec<u32> = Vec::new();
    let mut j: usize = 0;
    while j < n
        invariant
            j <= n,
            r@ == draws(key, domain, j as nat),
        decreases n - j,
    {
        r.push(rng_u32(key, domain, j));
        j += 1;
        assert(r@ =~= draws(key, domain, j as nat));
    }
    r
}

/// Multiplying by `c` and then by its inverse changes nothing.
proof fn lemma_inverse(x: u64, c: u64, inv: u64)
    requires
        (c as int * inv as int) % 0x1_0000_0000_0000_0000 == 1,
    ensures
        x.wrapping_mul(c).wrapping_mul(inv) == x,
{
    let m = 0x1_0000_0000_0000_0000int;
    let (a, p, q) = (x as int, c as int, inv as int);
    lemma_mul_mod_noop_left(a * p, q, m);
    assert((a * p) * q == a * (p * q)) by (nonlinear_arith);
    lemma_mul_mod_noop_right(a, p * q, m);
    lemma_small_mod(x as nat, m as nat);
}

/// Inverse of `GOLDEN`.
pub const GOLDEN_INVERSE: u64 = 0xF1DE_83E1_9937_733D;

/// Inverse of the first multiplier of the generator.
pub const FIRST_INVERSE: u64 = 0x96DE_1B17_3F11_9089;

/// Inverse of the second multiplier of the generator.
pub const SECOND_INVERSE: u64 = 0x3196_42B2_D24D_8EC3;

/// One step of the generator, undone.
spec fn unmixed(r: u64) -> u64 {
    let c = r ^ (r >> 31) ^ (r >> 62);
    let d = c.wrapping_mul(SECOND_INVERSE);
    let b = d ^ (d >> 27) ^ (d >> 54);
    let e = b.wrapping_mul(FIRST_INVERSE);
    let a = e ^ (e >> 30) ^ (e >> 60);
    if a >= GOLDEN {
        (a - GOLDEN) as u64
    } else {
        (a + 0x1_0000_0000_0000_0000 - GOLDEN) as u64
    }
}

proof fn lemma_inverses()
    ensures
        (GOLDEN as int * GOLDEN_INVERSE as int) % 0x1_0000_0000_0000_0000 == 1,
        (0xBF58_476D_1CE4_E5B9int * FIRST_INVERSE as int) % 0x1_0000_0000_0000_0000 == 1,
        (0x94D0_49BB_1331_11EBint * SECOND_INVERSE as int) % 0x1_0000_0000_0000_0000 == 1,
        (FIRST_INVERSE as int * 0xBF58_476D_1CE4_E5B9int) % 0x1_0000_0000_0000_0000 == 1,
        (SECOND_INVERSE as int * 0x94D0_49BB_1331_11EBint) % 0x1_0000_0000_0000_0000 == 1,
{
}

/// A step of the generator can be undone: it maps the states one to one onto the states.
pub proof fn law_the_generator_is_a_permutation(x: u64, y: u64)
    ensures
        mixed(x) == mixed(y) ==> x == y,
        exists|z: u64| #[trigger] mixed(z) == x,
{
    lemma_undone(x);
    lemma_undone(y);
    lemma_redone(x);
    assert(mixed(unmixed(x)) == x);
}

proof fn lemma_undone(z: u64)
    ensures
        unmixed(mixed(z)) == z,
{
    lemma_inverses();
    let a = z.wrapping_add(GOLDEN);
    let e = a ^ (a >> 30);
    let b = e.wrapping_mul(0xBF58_476D_1CE4_E5B9);
    let d = b ^ (b >> 27);
    let c = d.wrapping_mul(0x94D0_49BB_1331_11EB);
    let r = c ^ (c >> 31);
    assert(r ^ (r >> 31) ^ (r >> 62) == c) by (bit_vector)
        requires
            r == c ^ (c >> 31),
    ;
    lemma_inverse(d, 0x94D0_49BB_1331_11EB, SECOND_INVERSE);
    assert(d ^ (d >> 27) ^ (d >> 54) == b) by (bit_vector)
        requires
            d == b ^ (b >> 27),
    ;
    lemma_inverse(e, 0xBF58_476D_1CE4_E5B9, FIRST_INVERSE);
    assert(e ^ (e >> 30) ^ (e >> 60) == a) by (bit_vector)
        requires
            e == a ^ (a >> 30),
    ;
}

proof fn lemma_redone(r: u64)
    ensures
        mixed(unmixed(r)) == r,
{
    lemma_inverses();
    let c = r ^ (r >> 31) ^ (r >> 62);
    let d = c.wrapping_mul(SECOND_INVERSE);
    let b = d ^ (d >> 27) ^ (d >> 54);
    let e = b.wrapping_mul(FIRST_INVERSE);
    let a = e ^ (e >> 30) ^ (e >> 60);
    assert(unmixed(r).wrapping_add(GOLDEN) == a);
    assert(a ^ (a >> 30) == e) by (bit_vector)
        requires
            a == e ^ (e >> 30) ^ (e >> 60),
    ;
    lemma_inverse(b, FIRST_INVERSE, 0xBF58_476D_1CE4_E5B9);
    assert(b ^ (b >> 27) == d) by (bit_vector)
        requires
            b == d ^ (d >> 27) ^ (d >> 54),
    ;
    lemma_inverse(c, SECOND_INVERSE, 0x94D0_49BB_1331_11EB);
    assert(c ^ (c >> 31) == r) by (bit_vector)
        requires
            c == r ^ (r >> 31) ^ (r >> 62),
    ;
}

/// No two indices of a step share a draw: the state behind a draw differs with the index, with the
/// domain and with the key, and a draw is the upper half of its state.
pub proof fn law_draws_come_from_different_states(
    key: u64,
    domain: u64,
    i: u64,
    other_key: u64,
    other_domain: u64,
    j: u64,
)
    ensures
        i != j ==> state_of(key, domain, i) != state_of(key, domain, j),
        domain != other_domain ==> state_of(key, domain, i) != state_of(key, other_domain, i),
        key != other_key ==> state_of(key, domain, i) != state_of(other_key, domain, i),
        draw(key, domain, i) as int == state_of(key, domain, i) as int / 0x1_0000_0000,
{
    lemma_inverses();
    lemma_inverse(i, GOLDEN, GOLDEN_INVERSE);
    lemma_inverse(j, GOLDEN, GOLDEN_INVERSE);
    let p = i.wrapping_mul(GOLDEN);
    let q = j.wrapping_mul(GOLDEN);
    law_the_generator_is_a_permutation(key ^ domain ^ p, key ^ domain ^ q);
    law_the_generator_is_a_permutation(key ^ domain ^ p, key ^ other_domain ^ p);
    law_the_generator_is_a_permutation(key ^ domain ^ p, other_key ^ domain ^ p);
    assert((p != q ==> key ^ domain ^ p != key ^ domain ^ q) && (domain != other_domain ==> key
        ^ domain ^ p != key ^ other_domain ^ p) && (key != other_key ==> key ^ domain ^ p
        != other_key ^ domain ^ p)) by (bit_vector);
    let s = state_of(key, domain, i);
    assert(s >> 32 == s / 0x1_0000_0000 && s >> 32 <= 0xFFFF_FFFF) by (bit_vector);
}

/// Every state is reached: for each domain and index there is one key, and only one, whose draw has
/// a given state behind it. So over all keys every 32-bit draw is as frequent as any other.
pub proof fn law_draws_are_uniform_over_the_keys(domain: u64, i: u64, x: u64)
    ensures
        exists|key: u64| #[trigger] state_of(key, domain, i) == x,
        forall|a: u64, b: u64|
            #[trigger] state_of(a, domain, i) == x && #[trigger] state_of(b, domain, i) == x ==> a
                == b,
{
    law_the_generator_is_a_permutation(x, x);
    let z = choose|z: u64| #[trigger] mixed(z) == x;
    let p = i.wrapping_mul(GOLDEN);
    let key = z ^ domain ^ p;
    assert(key ^ domain ^ p == z) by (bit_vector)
        requires
            key == z ^ domain ^ p,
    ;
    assert(state_of(key, domain, i) == x);
    assert forall|a: u64, b: u64|
        #[trigger] state_of(a, domain, i) == x && #[trigger] state_of(b, domain, i) == x implies a
        == b by {
        law_draws_come_from_different_states(a, domain, i, b, domain, i);
    }
}

/// The draw of an index is the first draw of a key that is the given one but for a multiple of the
/// increment: index and domain enter the state in no other way.
pub proof fn law_indices_and_domains_move_the_key(key: u64, domain: u64, i: u64)
    ensures
        state_of(key, domain, i) == state_of(
            key ^ domain ^ ((i as int * GOLDEN as int) % 0x1_0000_0000_0000_0000) as u64,
            0,
            0,
        ),
        state_of(key, 0, 0) == mixed(key),
{
    let p = i.wrapping_mul(GOLDEN);
    assert(0u64.wrapping_mul(GOLDEN) == 0);
    let k = key ^ domain ^ p;
    assert(k ^ 0u64 ^ 0u64 == k && key ^ 0u64 ^ 0u64 == key) by (bit_vector);
}

} // verus!
