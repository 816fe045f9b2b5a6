//! Byte-level cryptographic primitives: the XOR stream cipher, the
//! reversible obfuscation pipeline, the modular inverse they rely on, and
//! the per-shard encryption built from them.

use vstd::prelude::*;
use vstd::arithmetic::div_mod::{
    lemma_fundamental_div_mod, lemma_mod_multiples_vanish, lemma_small_mod,
};
use sha2::{Digest, Sha256};
use crate::elf::{find_section, section_lookup, SectionLookup};
use crate::error::Error;
use crate::params::CryptoParams;

verus! {

// ---------------------------------------------------------------------
// Wrapping byte arithmetic, as specification functions and as small
// executable helpers proved against them.
// ---------------------------------------------------------------------

/// Byte addition mod 256.
pub open spec fn wadd(a: u8, b: u8) -> u8 {
    ((a + b) % 256) as u8
}

/// Byte subtraction mod 256.
pub open spec fn wsub(a: u8, b: u8) -> u8 {
    ((a + 256 - b) % 256) as u8
}

/// Byte multiplication mod 256.
pub open spec fn wmul(a: u8, b: u8) -> u8 {
    ((a * b) % 256) as u8
}

pub(crate) fn byte_add(a: u8, b: u8) -> (r: u8)
    ensures
        r == wadd(a, b),
{
    (((a as u16) + (b as u16)) % 256) as u8
}

fn byte_sub(a: u8, b: u8) -> (r: u8)
    ensures
        r == wsub(a, b),
{
    (((a as u16) + 256 - (b as u16)) % 256) as u8
}

fn byte_mul(a: u8, b: u8) -> (r: u8)
    ensures
        r == wmul(a, b),
{
    proof {
        assert((a as int) * (b as int) <= 255 * 255) by (nonlinear_arith)
            requires
                a <= 255,
                b <= 255,
        ;
    }
    (((a as u16) * (b as u16)) % 256) as u8
}

/// The byte mixed into position `i` of a buffer: the index truncated mod 256.
pub open spec fn index_byte(i: int) -> u8 {
    (i % 256) as u8
}

pub(crate) fn index_byte_of(i: usize) -> (r: u8)
    ensures
        r == index_byte(i as int),
{
    (i % 256) as u8
}

/// Rotate a byte left by `k` bits, `1 <= k <= 7`.
pub open spec fn rot_left(b: u8, k: u8) -> u8
    recommends
        1 <= k <= 7,
{
    (b << k) | (b >> ((8 - k) as u8))
}

/// Rotate a byte right by `k` bits, `1 <= k <= 7`.
pub open spec fn rot_right(b: u8, k: u8) -> u8
    recommends
        1 <= k <= 7,
{
    (b >> k) | (b << ((8 - k) as u8))
}

proof fn lemma_rot_roundtrip(b: u8, k: u8)
    requires
        1 <= k <= 7,
    ensures
        rot_right(rot_left(b, k), k) == b,
{
    assert(rot_right(rot_left(b, k), k) == b) by (bit_vector)
        requires
            1 <= k <= 7,
    ;
}

proof fn lemma_byte_cancel(x: u8, y: u8)
    ensures
        wsub(wadd(x, y), y) == x,
{
    assert(wsub(wadd(x, y), y) == x) by (bit_vector);
}

// ---------------------------------------------------------------------
// The XOR stream cipher.
// ---------------------------------------------------------------------

/// What the XOR stream cipher produces: each output byte is the input byte
/// XORed with the key byte at the same position, the key repeating.
pub open spec fn spec_xor_cipher(data: Seq<u8>, key: Seq<u8>) -> Seq<u8>
    recommends
        data.len() > 0 ==> key.len() > 0,
{
    Seq::new(data.len(), |i: int| data[i] ^ key[i % key.len() as int])
}

/// XOR encryption and decryption: one function for both directions, since
/// XOR with the repeating key is its own inverse.
pub fn xor_cipher(data: &[u8], key: &[u8]) -> (r: Vec<u8>)
    requires
        data@.len() > 0 ==> key@.len() > 0,
    ensures
        r@ == spec_xor_cipher(data@, key@),
{
    let mut out: Vec<u8> = Vec::new();
    let mut i: usize = 0;
    while i < data.len()
        invariant
            i <= data@.len(),
            data@.len() > 0 ==> key@.len() > 0,
            out@.len() == i,
            forall|j: int| 0 <= j < i ==> out@[j] == data@[j] ^ key@[j % key@.len() as int],
        decreases data@.len() - i,
    {
        out.push(data[i] ^ key[i % key.len()]);
        i += 1;
    }
    proof {
        assert(out@ =~= spec_xor_cipher(data@, key@));
    }
    out
}

/// XOR with the same non-empty key twice gives the data back.
pub proof fn lemma_xor_cipher_inverse(data: Seq<u8>, key: Seq<u8>)
    requires
        key.len() > 0,
    ensures
        spec_xor_cipher(spec_xor_cipher(data, key), key) == data,
{
    let once = spec_xor_cipher(data, key);
    let twice = spec_xor_cipher(once, key);
    assert forall|i: int| 0 <= i < data.len() implies twice[i] == data[i] by {
        let k = key[i % key.len() as int];
        let d = data[i];
        assert((d ^ k) ^ k == d) by (bit_vector);
    }
    assert(twice =~= data);
}

// ---------------------------------------------------------------------
// The modular inverse, by the extended Euclidean algorithm.
// ---------------------------------------------------------------------

/// The multiplicative inverse of a byte mod 256, as an abstract value: some
/// byte whose product with `m` is 1 mod 256. It exists exactly when `m` is
/// odd, and is then unique.
pub open spec fn inverse_multiplier(m: u8) -> u8 {
    choose|x: u8| wmul(m, x) == 1
}

/// Every odd byte has a multiplicative inverse mod 256.
pub proof fn lemma_inverse_multiplier(m: u8)
    requires
        m % 2 == 1,
    ensures
        wmul(m, inverse_multiplier(m)) == 1,
{
    // A Newton-style witness: starting from m (its own inverse mod 8),
    // each step doubles the number of correct low bits.
    let x1 = wmul(m, wsub(2, wmul(m, m)));
    let x2 = wmul(x1, wsub(2, wmul(m, x1)));
    assert(wmul(m, x2) == 1) by (bit_vector)
        requires
            m % 2 == 1,
            x1 == wmul(m, wsub(2, wmul(m, m))),
            x2 == wmul(x1, wsub(2, wmul(m, x1))),
    ;
    assert(exists|x: u8| wmul(m, x) == 1);
}

/// A byte has at most one multiplicative inverse mod 256.
pub proof fn lemma_inverse_unique(m: u8, x: u8, y: u8)
    requires
        wmul(m, x) == 1,
        wmul(m, y) == 1,
    ensures
        x == y,
{
    assert(x == y) by (bit_vector)
        requires
            wmul(m, x) == 1,
            wmul(m, y) == 1,
    ;
}

/// An odd number at least 1 that divides a power of two is 1.
proof fn lemma_odd_factor_of_two_power(d: int, m: int, p: int)
    requires
        d >= 1,
        d % 2 == 1,
        d * m == p,
        p == 1 || p == 2 || p == 4 || p == 8 || p == 16 || p == 32 || p == 64 || p == 128 || p
            == 256,
    ensures
        d == 1,
    decreases p,
{
    if m <= 0 {
        assert(d * m <= 0) by (nonlinear_arith)
            requires
                d >= 1,
                m <= 0,
        ;
    }
    if p == 1 {
        if d >= 2 {
            assert(d * m >= 2) by (nonlinear_arith)
                requires
                    d >= 2,
                    m >= 1,
            ;
        }
    } else {
        // p is even, so m must be even: an odd times an odd is odd.
        let dd = (d - 1) / 2;
        if m % 2 == 1 {
            let mm = (m - 1) / 2;
            assert(d * m == 2 * (2 * dd * mm + dd + mm) + 1) by (nonlinear_arith)
                requires
                    d == 2 * dd + 1,
                    m == 2 * mm + 1,
            ;
        }
        lemma_fundamental_div_mod(m, 2);
        let m2 = m / 2;
        assert(d * m == 2 * (d * m2)) by (nonlinear_arith)
            requires
                m == 2 * m2,
        ;
        lemma_odd_factor_of_two_power(d, m2, p / 2);
    }
}

/// The multiplicative inverse of an odd byte mod 256, computed by the
/// extended Euclidean algorithm on 256 and the byte.
pub fn mod_inverse(a: u8) -> (r: u8)
    requires
        a % 2 == 1,
    ensures
        ((a as int) * (r as int)) % 256 == 1,
        r == inverse_multiplier(a),
{
    let mut t: u32 = 0;
    let mut new_t: u32 = 1;
    let mut r_val: u32 = 256;
    let mut new_r: u32 = a as u32;

    // t * a is congruent to r_val mod 256 (witness jr), and likewise for
    // the `new` pair (witness jn); 256 is an integer combination of the
    // pair, so at the end the final remainder divides 256.
    let ghost mut jr: int = -1int;
    let ghost mut jn: int = 0int;
    let ghost mut c1: int = 1int;
    let ghost mut c2: int = 0int;

    proof {
        assert(t * a == r_val + 256 * jr);
        assert(new_t * a == new_r + 256 * jn);
    }

    while new_r != 0
        invariant
            a % 2 == 1,
            1 <= a < 256,
            t < 256,
            new_t < 256,
            0 < r_val <= 256,
            new_r < r_val,
            t * a == r_val + 256 * jr,
            new_t * a == new_r + 256 * jn,
            r_val % 2 == 1 || new_r % 2 == 1,
            256 == c1 * r_val + c2 * new_r,
        decreases new_r,
    {
        let q = r_val / new_r;
        proof {
            lemma_fundamental_div_mod(r_val as int, new_r as int);
        }
        let rem = r_val - q * new_r;

        // Reduce the new coefficient into [0, 256).
        let qm = q % 256;
        proof {
            assert((qm as int) * (new_t as int) <= 255 * 255) by (nonlinear_arith)
                requires
                    qm <= 255,
                    new_t <= 255,
            ;
        }
        let prod = (qm * new_t) % 256;
        let next_t = (t + 256 - prod) % 256;

        proof {
            // next_t is congruent to t - q * new_t mod 256; recover the
            // exact multiple of 256 that separates them.
            let qq = q as int;
            let k0 = qq / 256;
            lemma_fundamental_div_mod(qq, 256);
            let k1 = (qm as int * new_t as int) / 256;
            lemma_fundamental_div_mod(qm as int * new_t as int, 256);
            let k2 = (t as int + 256 - prod as int) / 256;
            lemma_fundamental_div_mod(t as int + 256 - prod as int, 256);
            assert(qq * new_t == 256 * (k0 * new_t) + qm * new_t) by (nonlinear_arith)
                requires
                    qq == 256 * k0 + qm,
            ;
            // next_t == t - q*new_t + 256*w for this w:
            let w = k0 * new_t + k1 + 1 - k2;
            assert(next_t == t - qq * new_t + 256 * w) by (nonlinear_arith)
                requires
                    qq * new_t == 256 * (k0 * new_t) + qm * new_t,
                    qm * new_t == 256 * k1 + prod,
                    t + 256 - prod == 256 * k2 + next_t,
                    w == k0 * new_t + k1 + 1 - k2,
            ;
            // Carry the two congruence witnesses forward.
            let jn_next = jr - qq * jn + w * a;
            assert(next_t * a == rem + 256 * jn_next) by (nonlinear_arith)
                requires
                    next_t == t - qq * new_t + 256 * w,
                    t * a == r_val + 256 * jr,
                    new_t * a == new_r + 256 * jn,
                    rem == r_val - qq * new_r,
                    jn_next == jr - qq * jn + w * a,
            ;
            // Parity: r_val and new_r are never both even.
            if new_r % 2 == 0 {
                let h = new_r as int / 2;
                lemma_fundamental_div_mod(new_r as int, 2);
                assert(qq * new_r == 2 * (qq * h)) by (nonlinear_arith)
                    requires
                        new_r == 2 * h,
                ;
                assert(rem % 2 == 1);
            }
            // 256 stays an integer combination of the pair.
            let c1_next = c1 * qq + c2;
            assert(256 == c1_next * new_r + c1 * rem) by (nonlinear_arith)
                requires
                    256 == c1 * r_val + c2 * new_r,
                    rem == r_val - qq * new_r,
                    c1_next == c1 * qq + c2,
            ;
            jr = jn;
            jn = jn_next;
            let c_keep = c1;
            c1 = c1_next;
            c2 = c_keep;
        }

        r_val = new_r;
        new_r = rem;
        t = new_t;
        new_t = next_t;
    }

    proof {
        // new_r == 0: 256 == c1 * r_val with r_val odd, so r_val == 1.
        assert(256 == c1 * r_val + c2 * 0);
        assert(r_val * c1 == 256) by (nonlinear_arith)
            requires
                256 == c1 * r_val,
        ;
        lemma_odd_factor_of_two_power(r_val as int, c1, 256);
        assert(r_val == 1);
        // t * a == 1 + 256 * jr, hence the product is 1 mod 256.
        lemma_mod_multiples_vanish(jr, 1, 256);
        lemma_small_mod(1, 256);
        assert((t as int) * (a as int) == 256 * jr + 1);
        assert(((t as int) * (a as int)) % 256 == 1);
        assert((a as int) * (t as int) == (t as int) * (a as int)) by (nonlinear_arith);
    }
    let result = t as u8;
    proof {
        assert(wmul(a, result) == 1);
        lemma_inverse_multiplier(a);
        lemma_inverse_unique(a, result, inverse_multiplier(a));
    }
    result
}

// ---------------------------------------------------------------------
// The obfuscation pipeline, per byte and per buffer.
// ---------------------------------------------------------------------

/// The main obfuscation layer on one byte: rotate, substitute through the
/// S-box, mix arithmetically with the multiplier, base, seed and index,
/// then mask with XOR.
pub open spec fn obf_stage_byte(p: CryptoParams, seed: u8, iu: u8, b: u8) -> u8
    recommends
        p.wf(),
{
    let rot = rot_left(b, p.rotation_bits as u8);
    let sb = p.obfuscate_table@[rot as int];
    wadd(wadd(wadd(wmul(sb, p.multiplier), p.base), seed), iu) ^ p.xor_mask
}

/// The inverse of the main layer: unmask, strip the arithmetic mixing,
/// multiply by the inverse of the multiplier, substitute back, rotate back.
pub open spec fn deob_stage_byte(p: CryptoParams, seed: u8, iu: u8, b: u8) -> u8
    recommends
        p.wf(),
{
    let unmasked = b ^ p.xor_mask;
    let stripped = wsub(wsub(wsub(unmasked, iu), seed), p.base);
    let sb = wmul(stripped, inverse_multiplier(p.multiplier));
    rot_right(p.deobfuscate_table@[sb as int], p.rotation_bits as u8)
}

/// `n` extra rounds applied to one byte, round `r` adding `r * seed + i`.
pub open spec fn rounds_forward(seed: u8, iu: u8, n: nat, b: u8) -> u8
    recommends
        n <= 3,
    decreases n,
{
    if n == 0 {
        b
    } else {
        wadd(wadd(rounds_forward(seed, iu, (n - 1) as nat, b), wmul((n - 1) as u8, seed)), iu)
    }
}

/// The extra rounds undone, last round first.
pub open spec fn rounds_backward(seed: u8, iu: u8, n: nat, b: u8) -> u8
    recommends
        n <= 3,
    decreases n,
{
    if n == 0 {
        b
    } else {
        rounds_backward(seed, iu, (n - 1) as nat, wsub(wsub(b, iu), wmul((n - 1) as u8, seed)))
    }
}

/// The whole forward pipeline on the byte at index `i` (as `iu`).
pub open spec fn obfuscate_byte(p: CryptoParams, seed: u8, iu: u8, b: u8) -> u8
    recommends
        p.wf(),
{
    rounds_forward(seed, iu, p.extra_rounds as nat, obf_stage_byte(p, seed, iu, b))
}

/// The whole inverse pipeline on the byte at index `i` (as `iu`).
pub open spec fn deobfuscate_byte(p: CryptoParams, seed: u8, iu: u8, b: u8) -> u8
    recommends
        p.wf(),
{
    deob_stage_byte(p, seed, iu, rounds_backward(seed, iu, p.extra_rounds as nat, b))
}

/// What `obfuscate` produces on a whole buffer.
pub open spec fn spec_obfuscate(p: CryptoParams, data: Seq<u8>, seed: u8) -> Seq<u8>
    recommends
        p.wf(),
{
    Seq::new(data.len(), |i: int| obfuscate_byte(p, seed, index_byte(i), data[i]))
}

/// What `deobfuscate` produces on a whole buffer.
pub open spec fn spec_deobfuscate(p: CryptoParams, data: Seq<u8>, seed: u8) -> Seq<u8>
    recommends
        p.wf(),
{
    Seq::new(data.len(), |i: int| deobfuscate_byte(p, seed, index_byte(i), data[i]))
}

/// Obfuscate a buffer: every byte runs through the rotation, S-box,
/// arithmetic and XOR layers, then the extra rounds run over the buffer.
pub fn obfuscate(p: &CryptoParams, data: &[u8], seed: u8) -> (r: Vec<u8>)
    requires
        p.wf(),
    ensures
        r@ == spec_obfuscate(*p, data@, seed),
{
    let k = (p.rotation_bits % 8) as u8;
    let mut out: Vec<u8> = Vec::new();
    let mut i: usize = 0;
    while i < data.len()
        invariant
            p.wf(),
            k == p.rotation_bits as u8,
            i <= data@.len(),
            out@.len() == i,
            forall|j: int|
                0 <= j < i ==> out@[j] == obf_stage_byte(*p, seed, index_byte(j), data@[j]),
        decreases data@.len() - i,
    {
        let b = data[i];
        let rot = (b << k) | (b >> (8 - k));
        let sb = p.obfuscate_table[rot as usize];
        let mixed = byte_add(byte_add(byte_add(byte_mul(sb, p.multiplier), p.base), seed),
            index_byte_of(i));
        out.push(mixed ^ p.xor_mask);
        i += 1;
    }

    let mut round: usize = 0;
    while round < p.extra_rounds
        invariant
            p.wf(),
            round <= p.extra_rounds,
            out@.len() == data@.len(),
            forall|j: int|
                0 <= j < out@.len() ==> out@[j] == rounds_forward(
                    seed,
                    index_byte(j),
                    round as nat,
                    obf_stage_byte(*p, seed, index_byte(j), data@[j]),
                ),
        decreases p.extra_rounds - round,
    {
        let rb = round as u8;
        let step = byte_mul(rb, seed);
        let mut j: usize = 0;
        while j < out.len()
            invariant
                p.wf(),
                round < p.extra_rounds,
                rb == round as u8,
                step == wmul(round as u8, seed),
                j <= out@.len(),
                out@.len() == data@.len(),
                forall|x: int|
                    j <= x < out@.len() ==> out@[x] == rounds_forward(
                        seed,
                        index_byte(x),
                        round as nat,
                        obf_stage_byte(*p, seed, index_byte(x), data@[x]),
                    ),
                forall|x: int|
                    0 <= x < j ==> out@[x] == rounds_forward(
                        seed,
                        index_byte(x),
                        (round + 1) as nat,
                        obf_stage_byte(*p, seed, index_byte(x), data@[x]),
                    ),
            decreases out@.len() - j,
        {
            let v = out[j];
            out[j] = byte_add(byte_add(v, step), index_byte_of(j));
            j += 1;
        }
        round += 1;
    }
    proof {
        assert(out@ =~= spec_obfuscate(*p, data@, seed));
    }
    out
}

/// Deobfuscate a buffer: undo the extra rounds in reverse order, then undo
/// the main layer on every byte.
pub fn deobfuscate(p: &CryptoParams, data: &[u8], seed: u8) -> (r: Vec<u8>)
    requires
        p.wf(),
    ensures
        r@ == spec_deobfuscate(*p, data@, seed),
{
    let mut out: Vec<u8> = Vec::new();
    let mut i: usize = 0;
    while i < data.len()
        invariant
            i <= data@.len(),
            out@.len() == i,
            forall|j: int| 0 <= j < i ==> out@[j] == data@[j],
        decreases data@.len() - i,
    {
        out.push(data[i]);
        i += 1;
    }

    let mut round: usize = p.extra_rounds;
    while round > 0
        invariant
            p.wf(),
            round <= p.extra_rounds,
            out@.len() == data@.len(),
            forall|j: int|
                0 <= j < out@.len() ==> rounds_backward(seed, index_byte(j), round as nat, out@[j])
                    == rounds_backward(seed, index_byte(j), p.extra_rounds as nat, data@[j]),
        decreases round,
    {
        let rb = (round - 1) as u8;
        let step = byte_mul(rb, seed);
        let mut j: usize = 0;
        while j < out.len()
            invariant
                p.wf(),
                0 < round <= p.extra_rounds,
                rb == (round - 1) as u8,
                step == wmul((round - 1) as u8, seed),
                j <= out@.len(),
                out@.len() == data@.len(),
                forall|x: int|
                    j <= x < out@.len() ==> rounds_backward(
                        seed,
                        index_byte(x),
                        round as nat,
                        out@[x],
                    ) == rounds_backward(seed, index_byte(x), p.extra_rounds as nat, data@[x]),
                forall|x: int|
                    0 <= x < j ==> rounds_backward(seed, index_byte(x), (round - 1) as nat, out@[x])
                        == rounds_backward(seed, index_byte(x), p.extra_rounds as nat, data@[x]),
            decreases out@.len() - j,
        {
            let v = out[j];
            out[j] = byte_sub(byte_sub(v, index_byte_of(j)), step);
            j += 1;
        }
        round -= 1;
    }

    let inv_m = mod_inverse(p.multiplier);
    let k = (p.rotation_bits % 8) as u8;
    let mut i: usize = 0;
    while i < out.len()
        invariant
            p.wf(),
            k == p.rotation_bits as u8,
            inv_m == inverse_multiplier(p.multiplier),
            i <= out@.len(),
            out@.len() == data@.len(),
            forall|x: int|
                i <= x < out@.len() ==> out@[x] == rounds_backward(
                    seed,
                    index_byte(x),
                    p.extra_rounds as nat,
                    data@[x],
                ),
            forall|x: int|
                0 <= x < i ==> out@[x] == deobfuscate_byte(*p, seed, index_byte(x), data@[x]),
        decreases out@.len() - i,
    {
        let v = out[i];
        let unmasked = v ^ p.xor_mask;
        let stripped = byte_sub(byte_sub(byte_sub(unmasked, index_byte_of(i)), seed), p.base);
        let sb = byte_mul(stripped, inv_m);
        let d = p.deobfuscate_table[sb as usize];
        out[i] = (d >> k) | (d << (8 - k));
        i += 1;
    }
    proof {
        assert(out@ =~= spec_deobfuscate(*p, data@, seed));
    }
    out
}

// ---------------------------------------------------------------------
// Round-trip laws.
// ---------------------------------------------------------------------

proof fn lemma_rounds_roundtrip(seed: u8, iu: u8, n: nat, b: u8)
    ensures
        rounds_backward(seed, iu, n, rounds_forward(seed, iu, n, b)) == b,
    decreases n,
{
    if n > 0 {
        let fwd = rounds_forward(seed, iu, (n - 1) as nat, b);
        let m = wmul((n - 1) as u8, seed);
        lemma_byte_cancel(wadd(fwd, m), iu);
        lemma_byte_cancel(fwd, m);
        lemma_rounds_roundtrip(seed, iu, (n - 1) as nat, b);
    }
}

proof fn lemma_stage_roundtrip(p: CryptoParams, seed: u8, iu: u8, b: u8)
    requires
        p.wf(),
    ensures
        deob_stage_byte(p, seed, iu, obf_stage_byte(p, seed, iu, b)) == b,
{
    let m = p.multiplier;
    let mask = p.xor_mask;
    let k = p.rotation_bits as u8;
    lemma_inverse_multiplier(m);
    let im = inverse_multiplier(m);

    let rot = rot_left(b, k);
    let sb = p.obfuscate_table@[rot as int];
    let mixed = wadd(wadd(wadd(wmul(sb, m), p.base), seed), iu);
    let z = mixed ^ mask;

    assert((z ^ mask) == mixed) by (bit_vector)
        requires
            z == mixed ^ mask,
    ;
    lemma_byte_cancel(wadd(wadd(wmul(sb, m), p.base), seed), iu);
    lemma_byte_cancel(wadd(wmul(sb, m), p.base), seed);
    lemma_byte_cancel(wmul(sb, m), p.base);
    assert(wmul(wmul(sb, m), im) == sb) by (bit_vector)
        requires
            wmul(m, im) == 1,
    ;
    assert(p.deobfuscate_table@[sb as int] == rot);
    lemma_rot_roundtrip(b, k);
}

/// Obfuscating one byte and deobfuscating it with the same parameters,
/// seed and index gives the byte back.
pub proof fn lemma_obfuscate_byte_roundtrip(p: CryptoParams, seed: u8, iu: u8, b: u8)
    requires
        p.wf(),
    ensures
        deobfuscate_byte(p, seed, iu, obfuscate_byte(p, seed, iu, b)) == b,
{
    let staged = obf_stage_byte(p, seed, iu, b);
    lemma_rounds_roundtrip(seed, iu, p.extra_rounds as nat, staged);
    lemma_stage_roundtrip(p, seed, iu, b);
}

/// Deobfuscating an obfuscated buffer with the same parameters and seed
/// gives the buffer back.
pub proof fn lemma_obfuscate_roundtrip(p: CryptoParams, data: Seq<u8>, seed: u8)
    requires
        p.wf(),
    ensures
        spec_deobfuscate(p, spec_obfuscate(p, data, seed), seed) == data,
{
    let ob = spec_obfuscate(p, data, seed);
    let back = spec_deobfuscate(p, ob, seed);
    assert forall|i: int| 0 <= i < data.len() implies back[i] == data[i] by {
        lemma_obfuscate_byte_roundtrip(p, seed, index_byte(i), data[i]);
    }
    assert(back =~= data);
}

// ---------------------------------------------------------------------
// Key derivation from a section's hash.
// ---------------------------------------------------------------------

/// The SHA-256 digest of a byte sequence, as an abstract value: a pure
/// function of the bytes.
pub uninterp spec fn sha256_of(data: Seq<u8>) -> Seq<u8>;

/// Relies on `sha2::Sha256` through the `Digest` interface: the digest
/// depends on the input bytes alone and is 32 bytes long.
#[verifier::external_body]
fn sha256_digest(data: &[u8]) -> (r: Vec<u8>)
    ensures
        r@ == sha256_of(data@),
        r@.len() == 32,
{
    let mut hasher = Sha256::new();
    hasher.update(data);
    hasher.finalize().to_vec()
}

/// How many bytes a derived key of requested length `key_len` has: the
/// digest is 32 bytes, so the key is capped there.
pub open spec fn derived_key_len(key_len: int) -> int {
    if key_len < 32 {
        key_len
    } else {
        32
    }
}

/// Derive an encryption key from a named section of the image: the first
/// `key_len` bytes (at most 32) of the SHA-256 digest of the section's
/// bytes.
///
/// Fails with `Parse` when the image cannot be parsed, the section has no
/// file range, or its range reaches outside the image; fails with
/// `SectionNotFound` when the section is absent.
pub fn derive_key_from_section(image: &[u8], section_name: &str, key_len: usize) -> (r: Result<
    Vec<u8>,
    Error,
>)
    ensures
        match r {
            Ok(key) => {
                &&& key@.len() == derived_key_len(key_len as int)
                &&& section_lookup(image@, section_name@) matches SectionLookup::Found(off, sz)
                    && off + sz <= image@.len()
                    && key@ == sha256_of(image@.subrange(off as int, off + sz)).take(
                        derived_key_len(key_len as int),
                    )
            },
            Err(e) => match section_lookup(image@, section_name@) {
                SectionLookup::Found(off, sz) => e is Parse && off + sz > image@.len(),
                SectionLookup::NoFileRange => e is Parse,
                SectionLookup::NotFound => e is SectionNotFound,
                SectionLookup::BadImage => e is Parse,
            },
        },
{
    let img_len = image.len();
    let (offset, size) = match find_section(image, section_name) {
        Ok(range) => range,
        Err(e) => {
            proof {
                // A range that does not fit in usize cannot lie inside an
                // image whose length is a usize.
                match section_lookup(image@, section_name@) {
                    SectionLookup::Found(off, sz) => {
                        assert(img_len <= usize::MAX);
                        assert(off + sz > image@.len());
                    },
                    _ => {},
                }
            }
            return Err(e);
        },
    };
    if offset > image.len() || size > image.len() - offset {
        return Err(Error::Parse("section range reaches outside the image".to_owned()));
    }
    let section_bytes = &image[offset..offset + size];
    let hash = sha256_digest(section_bytes);
    let take_len = if key_len < 32 {
        key_len
    } else {
        32
    };
    let mut key: Vec<u8> = Vec::new();
    let mut i: usize = 0;
    while i < take_len
        invariant
            take_len <= hash@.len(),
            i <= take_len,
            key@.len() == i,
            forall|j: int| 0 <= j < i ==> key@[j] == hash@[j],
        decreases take_len - i,
    {
        key.push(hash[i]);
        i += 1;
    }
    proof {
        assert(key@ =~= hash@.take(take_len as int));
        assert(section_bytes@ == image@.subrange(offset as int, offset + size));
    }
    Ok(key)
}

// ---------------------------------------------------------------------
// Per-shard encryption and decryption.
// ---------------------------------------------------------------------

/// What `encrypt_shard` produces: the buffer obfuscated, then XORed with
/// the derived key.
pub open spec fn spec_encrypt_shard(p: CryptoParams, data: Seq<u8>, key: Seq<u8>, seed: u8) -> Seq<
    u8,
>
    recommends
        p.wf(),
        data.len() > 0 ==> key.len() > 0,
{
    spec_xor_cipher(spec_obfuscate(p, data, seed), key)
}

/// What `decrypt_shard` produces: the buffer XORed with the derived key,
/// then deobfuscated.
pub open spec fn spec_decrypt_shard(p: CryptoParams, data: Seq<u8>, key: Seq<u8>, seed: u8) -> Seq<
    u8,
>
    recommends
        p.wf(),
        data.len() > 0 ==> key.len() > 0,
{
    spec_deobfuscate(p, spec_xor_cipher(data, key), seed)
}

/// Encrypt one shard: obfuscate with the seed, then XOR with the derived key.
pub fn encrypt_shard(p: &CryptoParams, data: &[u8], derive_key: &[u8], seed: u8) -> (r: Vec<u8>)
    requires
        p.wf(),
        data@.len() > 0 ==> derive_key@.len() > 0,
    ensures
        r@ == spec_encrypt_shard(*p, data@, derive_key@, seed),
{
    let obfuscated = obfuscate(p, data, seed);
    xor_cipher(obfuscated.as_slice(), derive_key)
}

/// Decrypt one shard: XOR with the derived key, then deobfuscate.
pub fn decrypt_shard(p: &CryptoParams, encrypted_data: &[u8], derive_key: &[u8], seed: u8) -> (r:
    Vec<u8>)
    requires
        p.wf(),
        encrypted_data@.len() > 0 ==> derive_key@.len() > 0,
    ensures
        r@ == spec_decrypt_shard(*p, encrypted_data@, derive_key@, seed),
{
    let xored = xor_cipher(encrypted_data, derive_key);
    deobfuscate(p, xored.as_slice(), seed)
}

/// Decrypting an encrypted shard with the same parameters, key and seed
/// gives the plaintext back.
pub proof fn lemma_shard_roundtrip(p: CryptoParams, data: Seq<u8>, key: Seq<u8>, seed: u8)
    requires
        p.wf(),
        key.len() > 0,
    ensures
        spec_decrypt_shard(p, spec_encrypt_shard(p, data, key, seed), key, seed) == data,
{
    let ob = spec_obfuscate(p, data, seed);
    lemma_xor_cipher_inverse(ob, key);
    lemma_obfuscate_roundtrip(p, data, seed);
}

} // verus!
