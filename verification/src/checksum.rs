//! Per-shard checksums: the 64-bit FNV-1a hash, a fast non-cryptographic
//! content hash.
//!
//! Every step of FNV-1a multiplies by an odd prime, which is invertible
//! modulo 2^64, so each step is injective in the running state and in the
//! incoming byte. Flipping any single byte of the input therefore always
//! changes the checksum — the property the integrity checker's corruption
//! detection rests on.

use vstd::prelude::*;

verus! {

/// The FNV-1a 64-bit offset basis.
pub const FNV_OFFSET_BASIS: u64 = 0xcbf29ce484222325;

/// The FNV-1a 64-bit prime.
pub const FNV_PRIME: u64 = 0x100000001b3;

/// The inverse of `FNV_PRIME` modulo 2^64.
const FNV_PRIME_INVERSE: u64 = 0xce965057aff6957b;

/// One FNV-1a step: fold a byte into the running state.
pub open spec fn fnv_step(h: u64, b: u8) -> u64 {
    ((((h ^ (b as u64)) as int) * (FNV_PRIME as int)) % 0x1_0000_0000_0000_0000) as u64
}

/// The FNV-1a state after folding in every byte of `s`, starting from `h`.
pub open spec fn fnv1a_acc(h: u64, s: Seq<u8>) -> u64
    decreases s.len(),
{
    if s.len() == 0 {
        h
    } else {
        fnv1a_acc(fnv_step(h, s[0]), s.drop_first())
    }
}

/// The FNV-1a 64-bit checksum of a byte string.
pub open spec fn fnv1a(s: Seq<u8>) -> u64 {
    fnv1a_acc(FNV_OFFSET_BASIS, s)
}

/// The FNV prime is odd, so multiplying by its inverse undoes it modulo
/// 2^64.
proof fn lemma_mul_prime_inverse(x: u64)
    ensures
        ((((x as int) * (FNV_PRIME as int)) % 0x1_0000_0000_0000_0000) * (
        FNV_PRIME_INVERSE as int)) % 0x1_0000_0000_0000_0000 == x as int,
{
    let m: int = 0x1_0000_0000_0000_0000;
    let p: int = FNV_PRIME as int;
    let q: int = FNV_PRIME_INVERSE as int;
    let k: int = 0xce9650590f;
    assert(p * q == 1 + k * m);
    vstd::arithmetic::div_mod::lemma_mul_mod_noop_left((x as int) * p, q, m);
    vstd::arithmetic::mul::lemma_mul_is_associative(x as int, p, q);
    vstd::arithmetic::mul::lemma_mul_is_distributive_add(x as int, 1, k * m);
    vstd::arithmetic::mul::lemma_mul_is_associative(x as int, k, m);
    assert((x as int) * (k * m) == m * ((x as int) * k)) by (nonlinear_arith);
    vstd::arithmetic::div_mod::lemma_mod_multiples_vanish((x as int) * k, x as int, m);
    vstd::arithmetic::div_mod::lemma_small_mod(x as nat, m as nat);
    assert((x as int) * (p * q) == (x as int) * 1 + (x as int) * (k * m));
}

/// Multiplication by the FNV prime is injective modulo 2^64.
proof fn lemma_mul_prime_cancel(a: u64, b: u64)
    requires
        ((a as int) * (FNV_PRIME as int)) % 0x1_0000_0000_0000_0000 == ((b as int) * (
        FNV_PRIME as int)) % 0x1_0000_0000_0000_0000,
    ensures
        a == b,
{
    lemma_mul_prime_inverse(a);
    lemma_mul_prime_inverse(b);
}

/// One FNV-1a step is injective in its folded input.
proof fn lemma_step_inject(h1: u64, b1: u8, h2: u64, b2: u8)
    requires
        fnv_step(h1, b1) == fnv_step(h2, b2),
    ensures
        h1 ^ (b1 as u64) == h2 ^ (b2 as u64),
{
    lemma_mul_prime_cancel(h1 ^ (b1 as u64), h2 ^ (b2 as u64));
}

/// Two different states stay different, whatever bytes are folded in after.
proof fn lemma_acc_inject(h1: u64, h2: u64, s: Seq<u8>)
    requires
        h1 != h2,
    ensures
        fnv1a_acc(h1, s) != fnv1a_acc(h2, s),
    decreases s.len(),
{
    if s.len() > 0 {
        let b = s[0];
        if fnv_step(h1, b) == fnv_step(h2, b) {
            lemma_step_inject(h1, b, h2, b);
            assert(h1 ^ (b as u64) == h2 ^ (b as u64) ==> h1 == h2) by (bit_vector);
        }
        lemma_acc_inject(fnv_step(h1, b), fnv_step(h2, b), s.drop_first());
    }
}

/// Changing one byte changes the state that comes out, from any state in.
proof fn lemma_acc_flip(h: u64, s: Seq<u8>, i: int, b: u8)
    requires
        0 <= i < s.len(),
        s[i] != b,
    ensures
        fnv1a_acc(h, s) != fnv1a_acc(h, s.update(i, b)),
    decreases i,
{
    let t = s.update(i, b);
    if i == 0 {
        if fnv_step(h, s[0]) == fnv_step(h, b) {
            lemma_step_inject(h, s[0], h, b);
            let b1 = s[0];
            assert(h ^ (b1 as u64) == h ^ (b as u64) ==> b1 == b) by (bit_vector);
        }
        assert(t.drop_first() =~= s.drop_first());
        lemma_acc_inject(fnv_step(h, s[0]), fnv_step(h, b), s.drop_first());
    } else {
        assert(t[0] == s[0]);
        assert(t.drop_first() =~= s.drop_first().update(i - 1, b));
        lemma_acc_flip(fnv_step(h, s[0]), s.drop_first(), i - 1, b);
    }
}

/// Corruption detection: flipping any single byte of a byte string to a
/// different value always changes its FNV-1a checksum.
pub proof fn lemma_checksum_detects_flip(s: Seq<u8>, i: int, b: u8)
    requires
        0 <= i < s.len(),
        s[i] != b,
    ensures
        fnv1a(s) != fnv1a(s.update(i, b)),
{
    lemma_acc_flip(FNV_OFFSET_BASIS, s, i, b);
}

/// Computes the FNV-1a 64-bit checksum of `data`.
pub fn checksum(data: &[u8]) -> (r: u64)
    ensures
        r == fnv1a(data@),
{
    let mut h: u64 = FNV_OFFSET_BASIS;
    let mut i: usize = 0;
    proof {
        assert(data@.skip(0) =~= data@);
    }
    while i < data.len()
        invariant
            i <= data@.len(),
            fnv1a_acc(h, data@.skip(i as int)) == fnv1a(data@),
        decreases data@.len() - i,
    {
        let ghost rest = data@.skip(i as int);
        let b = data[i];
        proof {
            assert(rest[0] == b);
            assert(rest.drop_first() =~= data@.skip(i as int + 1));
        }
        let ghost h0 = h;
        h = (h ^ (b as u64)).wrapping_mul(FNV_PRIME);
        proof {
            assert(h == fnv_step(h0, b));
        }
        i += 1;
    }
    proof {
        assert(data@.skip(data@.len() as int) =~= Seq::<u8>::empty());
    }
    h
}

} // verus!
