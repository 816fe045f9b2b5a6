//! The obfuscation parameters: a build-randomized, reversible set of
//! constants that the crypto primitives consume. A parameter set is
//! generated deterministically from a seed, so one binary always encrypts
//! and decrypts with the same constants while independent builds differ.

use vstd::prelude::*;

verus! {

/// The constants that drive the obfuscation pipeline.
pub struct CryptoParams {
    /// Multiplier of the arithmetic layer; odd, so it is invertible mod 256.
    pub multiplier: u8,
    /// Additive base of the arithmetic layer; kept odd by convention.
    pub base: u8,
    /// Mask of the XOR layer.
    pub xor_mask: u8,
    /// How far the rotation layer rotates, in bits; between 1 and 7.
    pub rotation_bits: u32,
    /// How many extra whole-buffer rounds run; between 1 and 3.
    pub extra_rounds: usize,
    /// The S-box: an injective table of 256 bytes.
    pub obfuscate_table: Vec<u8>,
    /// The inverse of the S-box.
    pub deobfuscate_table: Vec<u8>,
    /// Eight per-shard seed bases.
    pub shard_seed_offsets: Vec<u8>,
}

impl CryptoParams {
    /// A parameter set is well formed when the multiplier is invertible,
    /// the bounded fields are in range, and the two tables invert each other.
    pub open spec fn wf(&self) -> bool {
        &&& self.multiplier % 2 == 1
        &&& 1 <= self.rotation_bits <= 7
        &&& 1 <= self.extra_rounds <= 3
        &&& self.obfuscate_table@.len() == 256
        &&& self.deobfuscate_table@.len() == 256
        &&& self.shard_seed_offsets@.len() == 8
        &&& forall|i: int|
            0 <= i < 256 ==> self.deobfuscate_table@[self.obfuscate_table@[i] as int] == i as u8
    }

    /// Generate the full parameter set from a seed. The same seed always
    /// yields the same set; a build bakes one seed in and thereby fixes
    /// its key schedule.
    pub fn generate(seed: u64) -> (r: CryptoParams)
        ensures
            r.wf(),
    {
        let mut rng = SeedStream::new(seed);

        let m0 = rng.next_u8();
        let multiplier = m0 | 1;
        proof {
            assert((m0 | 1) % 2 == 1) by (bit_vector);
        }
        let base = rng.next_u8() | 1;
        let xor_mask = rng.next_u8();
        let rotation_bits = ((rng.next_u8() % 7) + 1) as u32;
        let extra_rounds = ((rng.next_u8() % 3) + 1) as usize;

        let obfuscate_table = shuffled_identity_table(&mut rng);
        let deobfuscate_table = inverse_table(&obfuscate_table);

        let mut shard_seed_offsets: Vec<u8> = Vec::new();
        let mut k: usize = 0;
        while k < 8
            invariant
                shard_seed_offsets@.len() == k,
                k <= 8,
            decreases 8 - k,
        {
            shard_seed_offsets.push(rng.next_u8());
            k += 1;
        }

        CryptoParams {
            multiplier,
            base,
            xor_mask,
            rotation_bits,
            extra_rounds,
            obfuscate_table,
            deobfuscate_table,
            shard_seed_offsets,
        }
    }
}

/// The two tables of a well-formed parameter set undo each other: sending a
/// byte through the S-box and then through the inverse table gives it back.
pub proof fn lemma_tables_inverse(p: &CryptoParams, i: int)
    requires
        p.wf(),
        0 <= i < 256,
    ensures
        p.deobfuscate_table@[p.obfuscate_table@[i] as int] == i as u8,
{
}

/// No value appears twice in the sequence.
pub open spec fn injective_seq(s: Seq<u8>) -> bool {
    forall|a: int, b: int| 0 <= a < s.len() && 0 <= b < s.len() && a != b ==> s[a] != s[b]
}

/// The identity table over 0..=255, shuffled in place by a Fisher-Yates
/// pass; the result is still injective.
fn shuffled_identity_table(rng: &mut SeedStream) -> (r: Vec<u8>)
    ensures
        r@.len() == 256,
        injective_seq(r@),
{
    let mut table: Vec<u8> = Vec::new();
    let mut i: usize = 0;
    while i < 256
        invariant
            i <= 256,
            table@.len() == i,
            forall|k: int| 0 <= k < i ==> table@[k] == k as u8,
        decreases 256 - i,
    {
        table.push(i as u8);
        i += 1;
    }
    assert(injective_seq(table@));

    let mut pos: usize = 255;
    while pos >= 1
        invariant
            pos <= 255,
            table@.len() == 256,
            injective_seq(table@),
        decreases pos,
    {
        let j = (rng.next_u8() as usize) % (pos + 1);
        let ghost s0 = table@;
        let a = table[pos];
        let b = table[j];
        table[pos] = b;
        table[j] = a;
        proof {
            let s1 = table@;
            assert forall|x: int, y: int|
                0 <= x < 256 && 0 <= y < 256 && x != y implies s1[x] != s1[y] by {
                let sx: int = if x == pos as int {
                    j as int
                } else if x == j as int {
                    pos as int
                } else {
                    x
                };
                let sy: int = if y == pos as int {
                    j as int
                } else if y == j as int {
                    pos as int
                } else {
                    y
                };
                assert(s1[x] == s0[sx]);
                assert(s1[y] == s0[sy]);
                assert(sx != sy);
            }
        }
        pos -= 1;
    }
    table
}

/// The inverse of an injective 256-entry table: position `t[k]` of the
/// result holds `k`.
fn inverse_table(table: &Vec<u8>) -> (r: Vec<u8>)
    requires
        table@.len() == 256,
        injective_seq(table@),
    ensures
        r@.len() == 256,
        forall|k: int| 0 <= k < 256 ==> r@[table@[k] as int] == k as u8,
{
    let mut inv: Vec<u8> = vec![0u8; 256];
    let mut k: usize = 0;
    while k < 256
        invariant
            k <= 256,
            inv@.len() == 256,
            table@.len() == 256,
            injective_seq(table@),
            forall|t: int| 0 <= t < k ==> inv@[table@[t] as int] == t as u8,
        decreases 256 - k,
    {
        let ghost prev = inv@;
        let v = table[k] as usize;
        inv[v] = k as u8;
        proof {
            assert forall|t: int| 0 <= t < k + 1 implies inv@[table@[t] as int] == t as u8 by {
                if t < k {
                    assert(table@[t] != table@[k as int]);
                    assert(inv@[table@[t] as int] == prev[table@[t] as int]);
                }
            }
        }
        k += 1;
    }
    inv
}

/// A small deterministic byte stream (an xorshift-style generator) used
/// only to expand the build seed into the parameter set.
struct SeedStream {
    state: u64,
}

impl SeedStream {
    fn new(seed: u64) -> SeedStream {
        SeedStream { state: seed.wrapping_add(0x9e3779b97f4a7c15) }
    }

    fn next_u64(&mut self) -> u64 {
        let mut s = self.state;
        s = s ^ (s >> 12u64);
        s = s ^ (s << 25u64);
        s = s ^ (s >> 27u64);
        self.state = s;
        s.wrapping_mul(0x2545f4914f6cdd1d)
    }

    fn next_u8(&mut self) -> u8 {
        (self.next_u64() % 256) as u8
    }
}

} // verus!
