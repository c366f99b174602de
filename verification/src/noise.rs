//! Deterministic integer hashing for the value noise and random seeds.
use vstd::prelude::*;

verus! {

/// The splitmix-style finalizer of the 64-bit hash.
pub open spec fn mix64(h0: u64) -> u64 {
    let h1 = h0 ^ (h0 >> 30u64);
    let h2 = h1.wrapping_mul(0xBF58_476D_1CE4_E5B9);
    let h3 = h2 ^ (h2 >> 27u64);
    let h4 = h3.wrapping_mul(0x94D0_49BB_1331_11EB);
    h4 ^ (h4 >> 31u64)
}

/// The hash of the lattice point (`x`, `y`) under `seed`.
pub open spec fn hash2_spec(x: i64, y: i64, seed: u64) -> u64 {
    mix64((x as u64).wrapping_mul(0x9E37_79B9_7F4A_7C15) ^ (y as u64).wrapping_mul(0xC2B2_AE3D_27D4_EB4F) ^ seed)
}

/// splitmix-style 64-bit integer hash.
pub fn hash2i(x: i64, y: i64, seed: u64) -> (r: u64)
    ensures
        r == hash2_spec(x, y, seed),
{
    let mut h = (x as u64).wrapping_mul(0x9E37_79B9_7F4A_7C15) ^ (y as u64).wrapping_mul(0xC2B2_AE3D_27D4_EB4F) ^ seed;
    h ^= h >> 30;
    h = h.wrapping_mul(0xBF58_476D_1CE4_E5B9);
    h ^= h >> 27;
    h = h.wrapping_mul(0x94D0_49BB_1331_11EB);
    h ^= h >> 31;
    h
}

/// The hash of the lattice point (`x`, `y`, `z`) under `seed`: `y` and `z`
/// hashed first under a derived seed.
pub open spec fn hash3_spec(x: i64, y: i64, z: i64, seed: u64) -> u64 {
    hash2_spec(x, hash2_spec(y, z, seed ^ 0x1234_5678_9ABC_DEF0) as i64, seed)
}

/// Three-dimensional integer hash.
pub fn hash3i(x: i64, y: i64, z: i64, seed: u64) -> (r: u64)
    ensures
        r == hash3_spec(x, y, z, seed),
{
    hash2i(x, hash2i(y, z, seed ^ 0x1234_5678_9ABC_DEF0) as i64, seed)
}

/// Reads the system clock: nanoseconds and whole seconds since the Unix
/// epoch (zero when the clock is before it). What comes back depends on the
/// time, so nothing is stated of it.
#[verifier::external_body]
fn clock_now() -> (r: (u128, u64)) {
    let d = std::time::SystemTime::now().duration_since(std::time::UNIX_EPOCH).unwrap_or_default();
    (d.as_nanos(), d.as_secs())
}

/// The seed made from a clock reading of `nanos` nanoseconds and `secs`
/// seconds.
pub fn seed_from_clock(nanos: u128, secs: u64) -> (r: u64)
    ensures
        r == hash2_spec(nanos as i64, secs as i64, 0xCAFE_BABE),
{
    hash2i(nanos as i64, secs as i64, 0xCAFE_BABE)
}

/// Random seed from the system clock.
pub fn rand_seed() -> (r: u64)
    ensures
        exists|n: u128, s: u64| #![trigger hash2_spec(n as i64, s as i64, 0xCAFE_BABE)]
            r == hash2_spec(n as i64, s as i64, 0xCAFE_BABE),
{
    let (n, s) = clock_now();
    seed_from_clock(n, s)
}

/// Bit facts behind the hash: the xor-shifts it uses lose no information,
/// nor does xor with a fixed word or reading an i64 as its u64 bits.
proof fn lemma_hash_bits(a: u64, b: u64, c: u64, x: i64, y: i64)
    by (bit_vector)
    ensures
        a ^ (a >> 30u64) == b ^ (b >> 30u64) ==> a == b,
        a ^ (a >> 27u64) == b ^ (b >> 27u64) ==> a == b,
        a ^ (a >> 31u64) == b ^ (b >> 31u64) ==> a == b,
        (a ^ c) == (b ^ c) ==> a == b,
        (c ^ a) == (c ^ b) ==> a == b,
        (x as u64) == (y as u64) ==> x == y,
        (0u64 >> 30u64) == 0u64 && (0u64 >> 27u64) == 0u64 && (0u64 >> 31u64) == 0u64,
        (0u64 ^ 0u64) == 0u64,
{
}

/// Multiplying by an odd constant `c`, modulo 2^64, is undone by its
/// inverse `ci` (`c * ci == 1 + k * 2^64`).
proof fn lemma_mul_undo(a: u64, c: u64, ci: u64, k: int)
    requires
        c as int * ci as int == 1 + k * 0x1_0000_0000_0000_0000,
    ensures
        (a.wrapping_mul(c) as int * ci as int) % 0x1_0000_0000_0000_0000 == a as int,
{
    let m: int = 0x1_0000_0000_0000_0000;
    let w = a.wrapping_mul(c);
    assert(w as int == (a as int * c as int) % m);
    vstd::arithmetic::div_mod::lemma_mul_mod_noop_left(a as int * c as int, ci as int, m);
    assert((a as int * c as int) * ci as int == a as int * (c as int * ci as int)) by (nonlinear_arith);
    assert(a as int * (1 + k * m) == m * (a as int * k) + a as int) by (nonlinear_arith);
    vstd::arithmetic::div_mod::lemma_mod_multiples_vanish(a as int * k, a as int, m);
    vstd::arithmetic::div_mod::lemma_small_mod(a as nat, m as nat);
}

proof fn lemma_mul_injective(a: u64, b: u64, c: u64, ci: u64, k: int)
    requires
        c as int * ci as int == 1 + k * 0x1_0000_0000_0000_0000,
        a.wrapping_mul(c) == b.wrapping_mul(c),
    ensures
        a == b,
{
    lemma_mul_undo(a, c, ci, k);
    lemma_mul_undo(b, c, ci, k);
}

proof fn lemma_mix_injective(a: u64, b: u64)
    requires
        mix64(a) == mix64(b),
    ensures
        a == b,
{
    let a1 = a ^ (a >> 30u64);
    let a2 = a1.wrapping_mul(0xBF58_476D_1CE4_E5B9);
    let a3 = a2 ^ (a2 >> 27u64);
    let a4 = a3.wrapping_mul(0x94D0_49BB_1331_11EB);
    let b1 = b ^ (b >> 30u64);
    let b2 = b1.wrapping_mul(0xBF58_476D_1CE4_E5B9);
    let b3 = b2 ^ (b2 >> 27u64);
    let b4 = b3.wrapping_mul(0x94D0_49BB_1331_11EB);
    lemma_hash_bits(a4, b4, 0, 0, 0);
    assert(a4 == b4);
    lemma_mul_injective(a3, b3, 0x94D0_49BB_1331_11EB, 0x3196_42B2_D24D_8EC3, 0x1CD3_36ED_A85F_1453);
    lemma_hash_bits(a2, b2, 0, 0, 0);
    lemma_mul_injective(a1, b1, 0xBF58_476D_1CE4_E5B9, 0x96DE_1B17_3F11_9089, 0x70C3_BCA7_8F27_F46C);
    lemma_hash_bits(a, b, 0, 0, 0);
}

/// The hash of the origin under seed 0 is 0.
pub proof fn hash2_zero()
    ensures
        hash2_spec(0, 0, 0) == 0,
{
    lemma_hash_bits(0, 0, 0, 0, 0);
    assert((0i64 as u64) == 0u64);
    assert((0u64).wrapping_mul(0x9E37_79B9_7F4A_7C15) == 0);
    assert((0u64).wrapping_mul(0xC2B2_AE3D_27D4_EB4F) == 0);
    assert((0u64).wrapping_mul(0xBF58_476D_1CE4_E5B9) == 0);
    assert((0u64).wrapping_mul(0x94D0_49BB_1331_11EB) == 0);
}

/// The hash tells apart any two values of each argument, the others fixed.
pub proof fn hash2_injective(x: i64, x2: i64, y: i64, y2: i64, s: u64, s2: u64)
    ensures
        hash2_spec(x, y, s) == hash2_spec(x2, y, s) ==> x == x2,
        hash2_spec(x, y, s) == hash2_spec(x, y2, s) ==> y == y2,
        hash2_spec(x, y, s) == hash2_spec(x, y, s2) ==> s == s2,
{
    let xa = (x as u64).wrapping_mul(0x9E37_79B9_7F4A_7C15);
    let xb = (x2 as u64).wrapping_mul(0x9E37_79B9_7F4A_7C15);
    let ya = (y as u64).wrapping_mul(0xC2B2_AE3D_27D4_EB4F);
    let yb = (y2 as u64).wrapping_mul(0xC2B2_AE3D_27D4_EB4F);
    if hash2_spec(x, y, s) == hash2_spec(x2, y, s) {
        lemma_mix_injective(xa ^ ya ^ s, xb ^ ya ^ s);
        lemma_hash_bits(xa ^ ya, xb ^ ya, s, 0, 0);
        lemma_hash_bits(xa, xb, ya, 0, 0);
        lemma_mul_injective(x as u64, x2 as u64, 0x9E37_79B9_7F4A_7C15, 0xF1DE_83E1_9937_733D, 0x957B_BF35_006E_D677);
        lemma_hash_bits(0, 0, 0, x, x2);
    }
    if hash2_spec(x, y, s) == hash2_spec(x, y2, s) {
        lemma_mix_injective(xa ^ ya ^ s, xa ^ yb ^ s);
        lemma_hash_bits(xa ^ ya, xa ^ yb, s, 0, 0);
        lemma_hash_bits(ya, yb, 0, 0, 0);
        lemma_hash_bits(0, 0, xa, 0, 0);
        assert((xa ^ ya) == (xa ^ yb) ==> ya == yb) by {
            lemma_hash_bits(ya, yb, xa, 0, 0);
        }
        lemma_mul_injective(y as u64, y2 as u64, 0xC2B2_AE3D_27D4_EB4F, 0x0BA7_9078_168D_4BAF, 0x08DD_1DEC_2186_0607);
        lemma_hash_bits(0, 0, 0, y, y2);
    }
    if hash2_spec(x, y, s) == hash2_spec(x, y, s2) {
        lemma_mix_injective(xa ^ ya ^ s, xa ^ ya ^ s2);
        lemma_hash_bits(s, s2, xa ^ ya, 0, 0);
    }
}

} // verus!
