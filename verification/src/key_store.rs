//! The keystore engine: reading and updating the secret stored across the
//! reserved sections of an executable image. The engine works on images
//! held in memory; reading the running executable from disk and writing it
//! back atomically are the caller's part.

use vstd::prelude::*;
use vstd::arithmetic::div_mod::{
    lemma_div_denominator, lemma_fundamental_div_mod, lemma_small_mod,
};
use vstd::utf8::{decode_utf8, encode_utf8, valid_utf8};
use crate::crypto::{
    byte_add, decrypt_shard, derive_key_from_section, derived_key_len, encrypt_shard, index_byte,
    index_byte_of, sha256_of, spec_decrypt_shard, spec_encrypt_shard, wadd,
};
use crate::elf::{find_section, section_lookup, SectionLookup};
use crate::error::Error;
use crate::json::{
    json_of, meta_matches, shape_fits, shape_total, shape_valid, spec_from_bytes,
    string_from_utf8, MetaShape,
};
use crate::metadata::{fresh_layout, lemma_sizes_total_prefix, sizes_total, KeyMetadata};
use crate::params::CryptoParams;
use crate::random::{random_byte, random_in_range};

verus! {

// ---------------------------------------------------------------------
// Names, little-endian length encoding, splicing.
// ---------------------------------------------------------------------

/// The name of the metadata section.
pub open spec fn meta_section_name() -> Seq<char> {
    ".key_meta"@
}

/// The name of the code section that anchors key derivation.
pub open spec fn text_section_name() -> Seq<char> {
    ".text"@
}

fn meta_section_str() -> (r: &'static str)
    ensures
        r@ == meta_section_name(),
{
    ".key_meta"
}

fn text_section_str() -> (r: &'static str)
    ensures
        r@ == text_section_name(),
{
    ".text"
}

/// 256 to the power `n`.
pub open spec fn pow256(n: nat) -> nat
    decreases n,
{
    if n == 0 {
        1
    } else {
        256 * pow256((n - 1) as nat)
    }
}

/// The value of a little-endian byte sequence.
pub open spec fn le_value(b: Seq<u8>) -> nat
    decreases b.len(),
{
    if b.len() == 0 {
        0
    } else {
        (b[0] + 256 * le_value(b.drop_first())) as nat
    }
}

/// The 8-byte little-endian encoding of `v`.
pub open spec fn le_bytes_of(v: nat) -> Seq<u8> {
    Seq::new(8, |k: int| ((v / pow256(k as nat)) % 256) as u8)
}

proof fn lemma_le_value_bound(b: Seq<u8>)
    ensures
        le_value(b) < pow256(b.len()),
    decreases b.len(),
{
    if b.len() > 0 {
        lemma_le_value_bound(b.drop_first());
    }
}

proof fn lemma_le_value_push(b: Seq<u8>, x: u8)
    ensures
        le_value(b.push(x)) == le_value(b) + pow256(b.len()) * x,
    decreases b.len(),
{
    if b.len() == 0 {
        assert(b.push(x).drop_first() =~= Seq::empty());
        assert(b.push(x)[0] == x);
        assert(le_value(Seq::<u8>::empty()) == 0);
        assert(b.push(x).len() == 1);
        reveal_with_fuel(le_value, 2);
        assert(le_value(b.push(x)) == x);
        assert(pow256(0) * x == x) by (nonlinear_arith)
            requires
                pow256(0) == 1,
        ;
    } else {
        assert(b.push(x).drop_first() =~= b.drop_first().push(x));
        lemma_le_value_push(b.drop_first(), x);
        let rest = le_value(b.drop_first()) as int;
        let p = pow256((b.len() - 1) as nat) as int;
        assert(le_value(b.push(x)) == b[0] + 256 * (rest + p * x));
        assert(256 * (rest + p * x) == 256 * rest + (256 * p) * x) by (nonlinear_arith);
        assert(le_value(b) == b[0] + 256 * rest);
        assert(pow256(b.len()) == 256 * p);
    }
}

/// Read the stored length: the first 8 bytes of the metadata section, as
/// a little-endian integer.
fn le_read(image: &[u8], off: usize) -> (r: u64)
    requires
        off + 8 <= image@.len(),
    ensures
        r as nat == le_value(image@.subrange(off as int, off as int + 8)),
{
    let img_len = image.len();
    let mut val: u64 = 0;
    let mut i: usize = 8;
    while i > 0
        invariant
            img_len == image@.len(),
            i <= 8,
            off + 8 <= image@.len(),
            val as nat == le_value(image@.subrange(off + i, off as int + 8)),
            val < pow256((8 - i) as nat),
        decreases i,
    {
        proof {
            reveal_with_fuel(pow256, 9);
            assert(pow256(8) == 0x1_0000_0000_0000_0000);
        }
        let b = image[off + i - 1];
        proof {
            let tail = image@.subrange(off + i, off as int + 8);
            let whole = image@.subrange(off + i - 1, off as int + 8);
            assert(whole.drop_first() =~= tail);
            assert(le_value(whole) == b + 256 * le_value(tail));
            assert(val as nat * 256 + b < pow256((8 - i) as nat) * 256) by (nonlinear_arith)
                requires
                    (val as nat) < pow256((8 - i) as nat),
                    b < 256,
            ;
            assert(pow256((8 - i) as nat) * 256 == 256 * pow256((8 - i) as nat))
                by (nonlinear_arith);
            assert(256 * pow256((8 - i) as nat) == pow256((9 - i) as nat));
            assert(pow256((9 - i) as nat) <= pow256(8)) by {
                lemma_pow256_increases((9 - i) as nat, 8);
            }
        }
        val = val * 256 + b as u64;
        i -= 1;
    }
    proof {
        assert(image@.subrange(off as int, off as int + 8) =~= image@.subrange(
            off + 0,
            off as int + 8,
        ));
    }
    val
}

proof fn lemma_pow256_increases(a: nat, b: nat)
    requires
        a <= b,
    ensures
        pow256(a) <= pow256(b),
    decreases b,
{
    if a < b {
        lemma_pow256_increases(a, (b - 1) as nat);
        assert(pow256(b) == 256 * pow256((b - 1) as nat));
        assert(256 * pow256((b - 1) as nat) >= pow256((b - 1) as nat)) by (nonlinear_arith)
            requires
                pow256((b - 1) as nat) >= 0,
        ;
    }
}

/// The image with `data` written at offset `off`.
pub open spec fn splice(img: Seq<u8>, off: int, data: Seq<u8>) -> Seq<u8>
    recommends
        0 <= off,
        off + data.len() <= img.len(),
{
    img.take(off) + data + img.skip(off + data.len())
}

/// Write `data` over the bytes of `img` starting at `off`.
fn splice_bytes(img: &mut Vec<u8>, off: usize, data: &[u8])
    requires
        off + data@.len() <= old(img)@.len(),
    ensures
        final(img)@ == splice(old(img)@, off as int, data@),
        final(img)@.len() == old(img)@.len(),
{
    let total = img.len();
    let mut t: usize = 0;
    while t < data.len()
        invariant
            total == img@.len(),
            off + data@.len() <= img@.len(),
            img@.len() == old(img)@.len(),
            t <= data@.len(),
            forall|k: int| 0 <= k < t ==> img@[off + k] == data@[k],
            forall|k: int| 0 <= k < img@.len() && !(off <= k < off + t) ==> img@[k] == old(img)@[k],
        decreases data@.len() - t,
    {
        img[off + t] = data[t];
        t += 1;
    }
    proof {
        assert(img@ =~= splice(old(img)@, off as int, data@));
    }
}

/// Write the 8-byte little-endian encoding of `v` at offset `off`.
fn write_le_bytes(img: &mut Vec<u8>, off: usize, v: u64)
    requires
        off + 8 <= old(img)@.len(),
    ensures
        final(img)@ == splice(old(img)@, off as int, le_bytes_of(v as nat)),
        final(img)@.len() == old(img)@.len(),
{
    let mut enc: Vec<u8> = Vec::new();
    let mut x: u64 = v;
    let mut k: usize = 0;
    proof {
        vstd::arithmetic::div_mod::lemma_div_basics(v as int);
    }
    while k < 8
        invariant
            k <= 8,
            enc@.len() == k,
            x as nat == (v as nat) / pow256(k as nat),
            forall|t: int| 0 <= t < k ==> enc@[t] == le_bytes_of(v as nat)[t],
        decreases 8 - k,
    {
        enc.push((x % 256) as u8);
        proof {
            lemma_pow256_increases(0, k as nat);
            lemma_div_denominator(v as int, pow256(k as nat) as int, 256);
            assert(pow256(k as nat) as int * 256 == 256 * pow256(k as nat)) by (nonlinear_arith);
            assert((v as nat) / pow256(k as nat) / 256 == (v as nat) / pow256((k + 1) as nat));
        }
        x = x / 256;
        k += 1;
    }
    proof {
        assert(enc@ =~= le_bytes_of(v as nat));
    }
    splice_bytes(img, off, enc.as_slice());
}

// ---------------------------------------------------------------------
// The engine's specification-level pipeline.
// ---------------------------------------------------------------------

/// The kind of an error, for stating which failure an operation reports.
pub ghost enum ErrKind {
    Io,
    Parse,
    Crypto,
    Config,
    SectionNotFound,
    SizeMismatch,
}

/// The kind of a concrete error value.
pub open spec fn err_kind(e: Error) -> ErrKind {
    match e {
        Error::Io(_) => ErrKind::Io,
        Error::Parse(_) => ErrKind::Parse,
        Error::Crypto(_) => ErrKind::Crypto,
        Error::Config(_) => ErrKind::Config,
        Error::SectionNotFound(_) => ErrKind::SectionNotFound,
        Error::SizeMismatch { .. } => ErrKind::SizeMismatch,
    }
}

/// What locating a section yields: its offset and size, or the kind of
/// failure `find_section` reports.
pub open spec fn spec_find(img: Seq<u8>, name: Seq<char>) -> Result<(int, int), ErrKind> {
    match section_lookup(img, name) {
        SectionLookup::Found(o, s) => if o <= usize::MAX && s <= usize::MAX {
            Ok((o as int, s as int))
        } else {
            Err(ErrKind::Parse)
        },
        SectionLookup::NoFileRange => Err(ErrKind::Parse),
        SectionLookup::NotFound => Err(ErrKind::SectionNotFound),
        SectionLookup::BadImage => Err(ErrKind::Parse),
    }
}

/// What key derivation from the code section yields.
pub open spec fn spec_derive_key(img: Seq<u8>, len_req: int) -> Result<Seq<u8>, ErrKind> {
    match spec_find(img, text_section_name()) {
        Err(k) => Err(k),
        Ok((o, s)) => if o + s <= img.len() {
            Ok(sha256_of(img.subrange(o, o + s)).take(derived_key_len(len_req)))
        } else {
            Err(ErrKind::Parse)
        },
    }
}

/// The seed of shard `i`: its seed base plus the index, wrapping.
pub open spec fn shard_seed(p: CryptoParams, i: int) -> u8
    recommends
        p.wf(),
        i >= 0,
{
    wadd(p.shard_seed_offsets@[i % 8], index_byte(i))
}

/// What reading the metadata record out of an image yields.
pub open spec fn spec_read_metadata(img: Seq<u8>) -> Result<MetaShape, ErrKind> {
    match spec_find(img, meta_section_name()) {
        Err(k) => Err(k),
        Ok((o, s)) => if s < 8 {
            Err(ErrKind::Config)
        } else if o + s > img.len() {
            Err(ErrKind::Parse)
        } else {
            match spec_from_bytes(img.subrange(o + 8, o + s)) {
                Some(t) => if shape_fits(t) {
                    Ok(t)
                } else {
                    Err(ErrKind::Parse)
                },
                None => Err(ErrKind::Parse),
            }
        },
    }
}

// ---------------------------------------------------------------------
// The keystore.
// ---------------------------------------------------------------------

/// A keystore: the sharding layout of one binary, and the obfuscation
/// parameters baked into it.
pub struct KeyStore {
    params: CryptoParams,
    metadata: KeyMetadata,
}

impl KeyStore {
    /// The obfuscation parameters this store works with.
    pub closed spec fn spec_params(&self) -> CryptoParams {
        self.params
    }

    /// The sharding layout this store works with.
    pub closed spec fn spec_metadata(&self) -> KeyMetadata {
        self.metadata
    }

    /// A usable store: valid parameters, a valid layout, and a total
    /// capacity that fits in memory.
    pub open spec fn wf(&self) -> bool {
        &&& self.spec_params().wf()
        &&& self.spec_metadata().valid_shape()
        &&& sizes_total(self.spec_metadata().shard_sizes@) <= usize::MAX
    }

    /// Open a store for the given image: read its metadata record, or
    /// generate a fresh one when the image holds none. A fresh record is
    /// not written back here; that happens on the first update.
    ///
    /// Fails with `Config` when a stored record is malformed or its
    /// total capacity does not fit in memory.
    pub fn new(image: &[u8], params: CryptoParams) -> (r: Result<KeyStore, Error>)
        requires
            params.wf(),
        ensures
            match r {
                Ok(ks) => ks.wf() && ks.spec_params() == params && match spec_read_metadata(
                    image@,
                ) {
                    Ok(t) => meta_matches(ks.spec_metadata(), t),
                    Err(_) => fresh_layout(ks.spec_metadata()),
                },
                Err(e) => {
                    &&& e is Config
                    &&& spec_read_metadata(image@) matches Ok(t) && !(shape_valid(t)
                        && shape_total(t.sizes) <= usize::MAX)
                },
            },
    {
        let parsed = Self::read_metadata(image);
        let ghost parsed_shape = spec_read_metadata(image@);
        let metadata = match parsed {
            Ok(m) => m,
            Err(_) => KeyMetadata::generate(),
        };
        proof {
            match parsed_shape {
                Ok(t) => lemma_total_matches(metadata.shard_sizes@, t.sizes),
                Err(_) => (),
            }
        }
        match metadata.validate() {
            Ok(_) => {},
            Err(e) => {
                return Err(e);
            },
        }
        match metadata.checked_capacity() {
            Some(_) => {},
            None => {
                return Err(
                    Error::Config("the total capacity does not fit in memory".to_owned()),
                );
            },
        }
        Ok(KeyStore { params, metadata })
    }

    /// The total capacity of the store, in bytes.
    pub fn capacity(&self) -> (r: usize)
        requires
            self.wf(),
        ensures
            r as int == sizes_total(self.spec_metadata().shard_sizes@),
    {
        self.metadata.total_capacity()
    }

    /// Read the metadata record out of an image: locate the metadata
    /// section, skip the 8-byte length prefix, and parse the rest.
    pub fn read_metadata(image: &[u8]) -> (r: Result<KeyMetadata, Error>)
        ensures
            match r {
                Ok(m) => spec_read_metadata(image@) matches Ok(t) && meta_matches(m, t),
                Err(e) => spec_read_metadata(image@) == Err::<MetaShape, ErrKind>(err_kind(e)),
            },
    {
        let img_len = image.len();
        let (off, size) = match find_section(image, meta_section_str()) {
            Ok(range) => range,
            Err(e) => {
                proof {
                    if section_lookup(image@, meta_section_name()) matches SectionLookup::Found(
                        o,
                        s,
                    ) {
                        assert(img_len <= usize::MAX);
                    }
                }
                return Err(e);
            },
        };
        if size < 8 {
            return Err(Error::Config("the metadata section is too small".to_owned()));
        }
        if off > image.len() || size > image.len() - off {
            return Err(Error::Parse("the metadata section reaches outside the image".to_owned()));
        }
        let body = &image[off + 8..off + size];
        match KeyMetadata::from_bytes(body) {
            Ok(m) => {
                proof {
                    assert(body@ == image@.subrange(off + 8, off as int + size));
                }
                Ok(m)
            },
            Err(e) => Err(e),
        }
    }

    /// Write the serialized metadata record into the metadata section of
    /// the image, after the 8-byte length prefix.
    ///
    /// Fails with `Config` when the record does not fit in the section.
    pub fn write_metadata_to_binary(&self, image: &mut Vec<u8>) -> (r: Result<(), Error>)
        ensures
            match r {
                Ok(_) => spec_write_metadata(self.spec_metadata(), old(image)@) == Ok::<
                    Seq<u8>,
                    ErrKind,
                >(final(image)@),
                Err(e) => spec_write_metadata(self.spec_metadata(), old(image)@) == Err::<
                    Seq<u8>,
                    ErrKind,
                >(err_kind(e)) && final(image)@ == old(image)@,
            },
    {
        let img_len = image.len();
        let (off, size) = match find_section(image.as_slice(), meta_section_str()) {
            Ok(range) => range,
            Err(e) => {
                proof {
                    if section_lookup(image@, meta_section_name()) matches SectionLookup::Found(
                        o,
                        s,
                    ) {
                        assert(img_len <= usize::MAX);
                    }
                }
                return Err(e);
            },
        };
        let json = match self.metadata.to_bytes() {
            Ok(j) => j,
            Err(e) => {
                return Err(e);
            },
        };
        if json.len() > usize::MAX - 8 || json.len() + 8 > size {
            return Err(
                Error::Config("the metadata record does not fit in its section".to_owned()),
            );
        }
        if off > image.len() || size > image.len() - off {
            return Err(Error::Parse("the metadata section reaches outside the image".to_owned()));
        }
        splice_bytes(image, off + 8, json.as_slice());
        Ok(())
    }

    /// Generate a printable random key: `length` characters, each drawn
    /// from the ASCII range 33 to 126.
    pub fn generate_random_key(length: usize) -> (r: String)
        ensures
            r@.len() == length,
            forall|i: int| 0 <= i < r@.len() ==> 33 <= (#[trigger] r@[i]) as u32 <= 126,
    {
        let mut bytes: Vec<u8> = Vec::new();
        let mut i: usize = 0;
        while i < length
            invariant
                i <= length,
                bytes@.len() == i,
                forall|k: int| 0 <= k < i ==> 33 <= #[trigger] bytes@[k] <= 126,
            decreases length - i,
        {
            bytes.push(random_in_range(33, 126) as u8);
            i += 1;
        }
        proof {
            crate::json::lemma_ascii_decode(bytes@);
        }
        match string_from_utf8(bytes) {
            Some(s) => s,
            None => {
                proof {
                    assert(false);
                }
                String::new()
            },
        }
    }

    /// Generate `length` random bytes.
    pub fn generate_random_bytes(length: usize) -> (r: Vec<u8>)
        ensures
            r@.len() == length,
    {
        let mut bytes: Vec<u8> = Vec::new();
        let mut i: usize = 0;
        while i < length
            invariant
                i <= length,
                bytes@.len() == i,
            decreases length - i,
        {
            bytes.push(random_byte());
            i += 1;
        }
        bytes
    }
}

proof fn lemma_splice_index(img: Seq<u8>, off: int, data: Seq<u8>, j: int)
    requires
        0 <= off,
        off + data.len() <= img.len(),
        0 <= j < img.len(),
    ensures
        splice(img, off, data).len() == img.len(),
        off <= j < off + data.len() ==> splice(img, off, data)[j] == data[j - off],
        !(off <= j < off + data.len()) ==> splice(img, off, data)[j] == img[j],
{
    assert(splice(img, off, data).len() == img.len());
}

/// The little-endian encoding of a value below 2^64 reads back as itself.
proof fn lemma_le_bytes_skip(v: nat, k: nat)
    requires
        k <= 8,
    ensures
        le_value(le_bytes_of(v).skip(k as int)) == (v / pow256(k)) % pow256((8 - k) as nat),
    decreases 8 - k,
{
    lemma_pow256_increases(0, k);
    lemma_pow256_increases(0, (8 - k) as nat);
    let w = (v / pow256(k)) as int;
    if k == 8 {
        assert(le_value(le_bytes_of(v).skip(8)) == 0);
        assert(w % (pow256(0) as int) == 0) by (nonlinear_arith)
            requires
                pow256(0) == 1,
                w >= 0,
        ;
    } else {
        let s = le_bytes_of(v).skip(k as int);
        assert(s.len() == 8 - k);
        lemma_le_bytes_skip(v, k + 1);
        assert(s.drop_first() =~= le_bytes_of(v).skip(k as int + 1));
        assert(s[0] == ((v / pow256(k)) % 256) as u8);
        lemma_pow256_increases(0, (k + 1) as nat);
        lemma_div_denominator(v as int, pow256(k) as int, 256);
        assert(pow256(k) as int * 256 == 256 * pow256(k)) by (nonlinear_arith);
        assert(v / pow256(k) / 256 == v / pow256(k + 1));
        // w % 256 + 256 * ((w / 256) % M) == w % (256 * M)
        let mm = pow256((7 - k) as nat) as int;
        vstd::arithmetic::div_mod::lemma_breakdown(w, 256, mm);
        assert(le_value(s) == w % 256 + 256 * ((w / 256) % mm));
        assert(256 * mm == pow256((8 - k) as nat));
    }
}

proof fn lemma_le_bytes_roundtrip(v: nat)
    requires
        v < pow256(8),
    ensures
        le_value(le_bytes_of(v)) == v,
{
    lemma_le_bytes_skip(v, 0);
    assert(le_bytes_of(v).skip(0) =~= le_bytes_of(v));
    lemma_pow256_increases(0, 8);
    vstd::arithmetic::div_mod::lemma_div_basics(v as int);
    assert(v / pow256(0) == v);
    lemma_small_mod(v, pow256(8));
}

/// Matching size lists total the same.
proof fn lemma_total_matches(sizes: Seq<usize>, ns: Seq<nat>)
    requires
        sizes.len() == ns.len(),
        forall|k: int| 0 <= k < ns.len() ==> #[trigger] sizes[k] as nat == ns[k],
    ensures
        sizes_total(sizes) == shape_total(ns),
    decreases sizes.len(),
{
    if sizes.len() > 0 {
        lemma_total_matches(sizes.drop_last(), ns.drop_last());
    }
}

/// What writing the metadata record into an image yields.
pub open spec fn spec_write_metadata(m: KeyMetadata, img: Seq<u8>) -> Result<Seq<u8>, ErrKind> {
    match spec_find(img, meta_section_name()) {
        Err(k) => Err(k),
        Ok((o, s)) => if 8 + json_of(m).len() > s {
            Err(ErrKind::Config)
        } else if o + s > img.len() {
            Err(ErrKind::Parse)
        } else {
            Ok(splice(img, o + 8, json_of(m)))
        },
    }
}

// ---------------------------------------------------------------------
// Reading the stored secret.
// ---------------------------------------------------------------------

/// What decrypting and collecting shards `i` and following yields, while
/// `remaining` plaintext bytes are still needed.
pub open spec fn spec_read_shards(
    p: CryptoParams,
    m: KeyMetadata,
    img: Seq<u8>,
    i: int,
    remaining: int,
) -> Result<Seq<u8>, ErrKind>
    decreases m.num_shards - i,
{
    if i < 0 || i >= m.num_shards || remaining <= 0 {
        Ok(Seq::empty())
    } else {
        let size = m.shard_sizes@[i] as int;
        match spec_find(img, m.shard_names@[i]@) {
            Err(k) => Err(k),
            Ok((off, ssz)) => if ssz < size {
                Err(ErrKind::SizeMismatch)
            } else if off + size > img.len() {
                Err(ErrKind::Parse)
            } else {
                match spec_derive_key(img, size) {
                    Err(k) => Err(k),
                    Ok(key) => {
                        let plain = spec_decrypt_shard(
                            p,
                            img.subrange(off, off + size),
                            key,
                            shard_seed(p, i),
                        );
                        let take_n = if remaining < plain.len() {
                            remaining
                        } else {
                            plain.len() as int
                        };
                        match spec_read_shards(p, m, img, i + 1, remaining - take_n) {
                            Err(k) => Err(k),
                            Ok(rest) => Ok(plain.take(take_n) + rest),
                        }
                    },
                }
            },
        }
    }
}

/// The result with `pre` prepended to its payload.
pub open spec fn spec_prepend(pre: Seq<u8>, r: Result<Seq<u8>, ErrKind>) -> Result<
    Seq<u8>,
    ErrKind,
> {
    match r {
        Ok(rest) => Ok(pre + rest),
        Err(k) => Err(k),
    }
}

proof fn lemma_prepend_empty(r: Result<Seq<u8>, ErrKind>)
    ensures
        spec_prepend(Seq::empty(), r) == r,
{
    match r {
        Ok(rest) => {
            assert(Seq::empty() + rest =~= rest);
        },
        Err(_) => {},
    }
}

proof fn lemma_prepend_assoc(pre1: Seq<u8>, pre2: Seq<u8>, r: Result<Seq<u8>, ErrKind>)
    ensures
        spec_prepend(pre1, spec_prepend(pre2, r)) == spec_prepend(pre1 + pre2, r),
{
    match r {
        Ok(rest) => {
            assert(pre1 + (pre2 + rest) =~= (pre1 + pre2) + rest);
        },
        Err(_) => {},
    }
}

/// What reading the stored secret out of an image yields.
pub open spec fn spec_read(p: CryptoParams, m: KeyMetadata, img: Seq<u8>) -> Result<
    Seq<u8>,
    ErrKind,
> {
    match spec_find(img, meta_section_name()) {
        Err(k) => Err(k),
        Ok((o, s)) => if s < 8 {
            Err(ErrKind::Config)
        } else if o + 8 > img.len() {
            Err(ErrKind::Parse)
        } else {
            let stored = le_value(img.subrange(o, o + 8)) as int;
            if stored == 0 {
                Ok(Seq::empty())
            } else if stored > sizes_total(m.shard_sizes@) {
                Err(ErrKind::Config)
            } else {
                spec_read_shards(p, m, img, 0, stored)
            }
        },
    }
}

// ---------------------------------------------------------------------
// Updating the stored secret.
// ---------------------------------------------------------------------

/// The secret padded with zero bytes up to the capacity.
pub open spec fn spec_zero_pad(secret: Seq<u8>, cap: int) -> Seq<u8>
    recommends
        secret.len() <= cap,
{
    secret + Seq::new((cap - secret.len()) as nat, |i: int| 0u8)
}

/// What encrypting and splicing shards `i` and following into the image
/// yields, taking each shard's chunk of the padded secret at `key_off`.
pub open spec fn spec_update_shards(
    p: CryptoParams,
    m: KeyMetadata,
    img: Seq<u8>,
    padded: Seq<u8>,
    i: int,
    key_off: int,
) -> Result<Seq<u8>, ErrKind>
    decreases m.num_shards - i,
{
    if i < 0 || i >= m.num_shards {
        Ok(img)
    } else {
        let size = m.shard_sizes@[i] as int;
        let chunk = padded.subrange(key_off, key_off + size);
        match spec_find(img, m.shard_names@[i]@) {
            Err(k) => Err(k),
            Ok((off, ssz)) => if ssz < size {
                Err(ErrKind::SizeMismatch)
            } else if off + size > img.len() {
                Err(ErrKind::Parse)
            } else {
                match spec_derive_key(img, size) {
                    Err(k) => Err(k),
                    Ok(key) => spec_update_shards(
                        p,
                        m,
                        splice(img, off, spec_encrypt_shard(p, chunk, key, shard_seed(p, i))),
                        padded,
                        i + 1,
                        key_off + size,
                    ),
                }
            },
        }
    }
}

/// The last step of an update: write the secret's length into the first
/// 8 bytes of the metadata section of the rewritten image.
pub open spec fn spec_update_finish(img2r: Result<Seq<u8>, ErrKind>, secret_len: nat) -> Result<
    Seq<u8>,
    ErrKind,
> {
    match img2r {
        Err(k) => Err(k),
        Ok(img2) => match spec_find(img2, meta_section_name()) {
            Err(k) => Err(k),
            Ok((mo, _ms)) => if mo + 8 > img2.len() {
                Err(ErrKind::Parse)
            } else {
                Ok(splice(img2, mo, le_bytes_of(secret_len)))
            },
        },
    }
}

/// What updating the stored secret yields: the new image, or the kind of
/// the failure. A fresh image first receives the metadata record; then
/// every shard is encrypted and spliced in, and the secret's length is
/// written into the metadata section's first 8 bytes.
pub open spec fn spec_update(p: CryptoParams, m: KeyMetadata, img: Seq<u8>, secret: Seq<u8>) -> Result<
    Seq<u8>,
    ErrKind,
> {
    let cap = sizes_total(m.shard_sizes@);
    let img1r: Result<Seq<u8>, ErrKind> = if spec_read_metadata(img) is Err {
        spec_write_metadata(m, img)
    } else {
        Ok(img)
    };
    match img1r {
        Err(k) => Err(k),
        Ok(img1) => if secret.len() > cap {
            Err(ErrKind::Config)
        } else {
            spec_update_finish(
                spec_update_shards(p, m, img1, spec_zero_pad(secret, cap), 0, 0),
                secret.len(),
            )
        },
    }
}

impl KeyStore {
    /// Read the stored secret out of the image: recover the stored length
    /// from the metadata section, then decrypt shards in layout order
    /// until that many bytes have been collected.
    #[verifier::rlimit(100)]
    pub fn read_bytes(&self, image: &[u8]) -> (r: Result<Vec<u8>, Error>)
        requires
            self.wf(),
        ensures
            match r {
                Ok(out) => spec_read(self.spec_params(), self.spec_metadata(), image@) == Ok::<
                    Seq<u8>,
                    ErrKind,
                >(out@),
                Err(e) => spec_read(self.spec_params(), self.spec_metadata(), image@) == Err::<
                    Seq<u8>,
                    ErrKind,
                >(err_kind(e)),
            },
    {
        let ghost p = self.params;
        let ghost m = self.metadata;
        let img_len = image.len();
        let (mo, msz) = match find_section(image, meta_section_str()) {
            Ok(range) => range,
            Err(e) => {
                proof {
                    if section_lookup(image@, meta_section_name())
                        matches SectionLookup::Found(o, s) {
                        assert(img_len <= usize::MAX);
                    }
                }
                return Err(e);
            },
        };
        if msz < 8 {
            return Err(Error::Config("the metadata section is too small".to_owned()));
        }
        if mo > img_len || 8 > img_len - mo {
            return Err(Error::Parse("the metadata section reaches outside the image".to_owned()));
        }
        let stored = le_read(image, mo);
        if stored == 0 {
            return Ok(Vec::new());
        }
        let cap = self.metadata.total_capacity();
        if stored > cap as u64 {
            return Err(Error::Config("the stored length exceeds the capacity".to_owned()));
        }

        let ghost total_needed = le_value(image@.subrange(mo as int, mo as int + 8)) as int;
        let mut remaining: usize = stored as usize;
        let mut out: Vec<u8> = Vec::new();
        let mut i: usize = 0;
        proof {
            lemma_prepend_empty(spec_read_shards(p, m, image@, 0, total_needed));
        }
        while i < self.metadata.num_shards && remaining > 0
            invariant
                self.wf(),
                p == self.params,
                m == self.metadata,
                img_len == image@.len(),
                i <= m.num_shards,
                spec_read(p, m, image@) == spec_prepend(
                    out@,
                    spec_read_shards(p, m, image@, i as int, remaining as int),
                ),
            decreases m.num_shards - i,
        {
            let size = self.metadata.shard_sizes[i];
            let (off, ssz) = match find_section(
                image,
                self.metadata.shard_names[i].as_str(),
            ) {
                Ok(range) => range,
                Err(e) => {
                    proof {
                        if section_lookup(image@, m.shard_names@[i as int]@)
                            matches SectionLookup::Found(o, s) {
                            assert(img_len <= usize::MAX);
                        }
                    }
                    return Err(e);
                },
            };
            if ssz < size {
                return Err(Error::SizeMismatch { expected: size, actual: ssz });
            }
            if off > img_len || size > img_len - off {
                return Err(Error::Parse("a data slot reaches outside the image".to_owned()));
            }
            let key = match derive_key_from_section(image, text_section_str(), size) {
                Ok(k) => k,
                Err(e) => {
                    proof {
                        if section_lookup(image@, text_section_name())
                            matches SectionLookup::Found(o, s) {
                            assert(img_len <= usize::MAX);
                        }
                    }
                    return Err(e);
                },
            };
            let seed = byte_add(
                self.params.shard_seed_offsets[i % 8],
                index_byte_of(i),
            );
            let cipher = &image[off..off + size];
            let plain = decrypt_shard(&self.params, cipher, key.as_slice(), seed);
            let take_n = if remaining < plain.len() {
                remaining
            } else {
                plain.len()
            };
            let ghost out_before = out@;
            out.extend_from_slice(&plain.as_slice()[0..take_n]);
            proof {
                let plain_s = spec_decrypt_shard(
                    p,
                    image@.subrange(off as int, off as int + size),
                    key@,
                    shard_seed(p, i as int),
                );
                assert(plain@ == plain_s);
                assert(out@ == out_before + plain_s.take(take_n as int));
                assert(spec_read_shards(p, m, image@, i as int, remaining as int) == spec_prepend(
                    plain_s.take(take_n as int),
                    spec_read_shards(p, m, image@, i as int + 1, remaining - take_n),
                ));
                lemma_prepend_assoc(
                    out_before,
                    plain_s.take(take_n as int),
                    spec_read_shards(p, m, image@, i as int + 1, remaining - take_n),
                );
            }
            remaining -= take_n;
            i += 1;
        }
        proof {
            assert(spec_read_shards(p, m, image@, i as int, remaining as int) == Ok::<
                Seq<u8>,
                ErrKind,
            >(Seq::empty()));
            assert(out@ + Seq::<u8>::empty() =~= out@);
        }
        Ok(out)
    }

    /// Update the stored secret: returns the new image. The caller writes
    /// it over the executable atomically. A fresh image (one without a
    /// metadata record) first receives the record, after the 8-byte
    /// length prefix; then every shard of the zero-padded secret is
    /// encrypted against the code section's hash and spliced in, and the
    /// secret's true length is written into the length prefix.
    ///
    /// Fails with `Config` when the secret exceeds the capacity.
    #[verifier::rlimit(100)]
    pub fn update_bytes(&self, image: &Vec<u8>, new_key: &[u8]) -> (r: Result<Vec<u8>, Error>)
        requires
            self.wf(),
        ensures
            match r {
                Ok(img2) => spec_update(
                    self.spec_params(),
                    self.spec_metadata(),
                    image@,
                    new_key@,
                ) == Ok::<Seq<u8>, ErrKind>(img2@),
                Err(e) => spec_update(
                    self.spec_params(),
                    self.spec_metadata(),
                    image@,
                    new_key@,
                ) == Err::<Seq<u8>, ErrKind>(err_kind(e)),
            },
    {
        let ghost p = self.params;
        let ghost m = self.metadata;
        let mut img: Vec<u8> = Vec::new();
        img.extend_from_slice(image.as_slice());
        proof {
            assert(img@ =~= image@);
        }

        let needs_init = match Self::read_metadata(img.as_slice()) {
            Ok(_) => false,
            Err(_) => true,
        };
        if needs_init {
            match self.write_metadata_to_binary(&mut img) {
                Ok(_) => {},
                Err(e) => {
                    return Err(e);
                },
            }
        }
        let ghost img1 = img@;

        let cap = self.metadata.total_capacity();
        if new_key.len() > cap {
            return Err(Error::Config("the secret exceeds the total capacity".to_owned()));
        }

        let mut padded: Vec<u8> = Vec::new();
        padded.extend_from_slice(new_key);
        let mut z: usize = padded.len();
        while z < cap
            invariant
                z == padded@.len(),
                new_key@.len() <= z <= cap,
                padded@ == spec_zero_pad(new_key@, z as int),
            decreases cap - z,
        {
            padded.push(0);
            proof {
                assert(padded@ =~= spec_zero_pad(new_key@, z + 1));
            }
            z += 1;
        }
        proof {
            assert(padded@ == spec_zero_pad(new_key@, cap as int));
        }

        let mut key_off: usize = 0;
        let mut i: usize = 0;
        while i < self.metadata.num_shards
            invariant
                self.wf(),
                p == self.params,
                m == self.metadata,
                i <= m.num_shards,
                padded@ == spec_zero_pad(new_key@, sizes_total(m.shard_sizes@)),
                padded@.len() == sizes_total(m.shard_sizes@),
                key_off as int == sizes_total(m.shard_sizes@.take(i as int)),
                spec_update(p, m, image@, new_key@) == spec_update_finish(
                    spec_update_shards(p, m, img@, padded@, i as int, key_off as int),
                    new_key@.len(),
                ),
            decreases m.num_shards - i,
        {
            let img_len = img.len();
            let size = self.metadata.shard_sizes[i];
            proof {
                assert(m.shard_sizes@.take(i + 1).drop_last() =~= m.shard_sizes@.take(i as int));
                assert(m.shard_sizes@.take(i + 1).last() == m.shard_sizes@[i as int]);
                lemma_sizes_total_prefix(m.shard_sizes@, i + 1);
                crate::metadata::lemma_sizes_total_nonneg(m.shard_sizes@.take(i as int));
            }
            let chunk = &padded.as_slice()[key_off..key_off + size];
            let (off, ssz) = match find_section(
                img.as_slice(),
                self.metadata.shard_names[i].as_str(),
            ) {
                Ok(range) => range,
                Err(e) => {
                    proof {
                        if section_lookup(img@, m.shard_names@[i as int]@)
                            matches SectionLookup::Found(o, s) {
                            assert(img_len <= usize::MAX);
                        }
                    }
                    return Err(e);
                },
            };
            if ssz < size {
                return Err(Error::SizeMismatch { expected: size, actual: ssz });
            }
            if off > img_len || size > img_len - off {
                return Err(Error::Parse("a data slot reaches outside the image".to_owned()));
            }
            let key = match derive_key_from_section(img.as_slice(), text_section_str(), size) {
                Ok(k) => k,
                Err(e) => {
                    proof {
                        if section_lookup(img@, text_section_name())
                            matches SectionLookup::Found(o, s) {
                            assert(img_len <= usize::MAX);
                        }
                    }
                    return Err(e);
                },
            };
            let seed = byte_add(
                self.params.shard_seed_offsets[i % 8],
                index_byte_of(i),
            );
            let cipher = encrypt_shard(&self.params, chunk, key.as_slice(), seed);
            let ghost img_before = img@;
            splice_bytes(&mut img, off, cipher.as_slice());
            proof {
                let chunk_s = padded@.subrange(key_off as int, key_off + size);
                assert(chunk@ == chunk_s);
                assert(img@ == splice(
                    img_before,
                    off as int,
                    spec_encrypt_shard(p, chunk_s, key@, shard_seed(p, i as int)),
                ));
                assert(spec_update_shards(p, m, img_before, padded@, i as int, key_off as int)
                    == spec_update_shards(p, m, img@, padded@, i as int + 1, key_off + size));
            }
            key_off += size;
            i += 1;
        }
        proof {
            assert(spec_update_shards(p, m, img@, padded@, i as int, key_off as int) == Ok::<
                Seq<u8>,
                ErrKind,
            >(img@));
            assert(spec_update(p, m, image@, new_key@) == spec_update_finish(
                Ok(img@),
                new_key@.len(),
            ));
        }

        let img_len = img.len();
        let (mo, _msz) = match find_section(img.as_slice(), meta_section_str()) {
            Ok(range) => range,
            Err(e) => {
                proof {
                    if section_lookup(img@, meta_section_name())
                        matches SectionLookup::Found(o, s) {
                        assert(img_len <= usize::MAX);
                    }
                }
                return Err(e);
            },
        };
        if mo > img_len || 8 > img_len - mo {
            return Err(Error::Parse("the metadata section reaches outside the image".to_owned()));
        }
        write_le_bytes(&mut img, mo, new_key.len() as u64);
        Ok(img)
    }

    /// Update the stored secret from a string: its UTF-8 bytes are stored.
    pub fn update(&self, image: &Vec<u8>, new_key: &str) -> (r: Result<Vec<u8>, Error>)
        requires
            self.wf(),
        ensures
            match r {
                Ok(img2) => spec_update(
                    self.spec_params(),
                    self.spec_metadata(),
                    image@,
                    encode_utf8(new_key@),
                ) == Ok::<Seq<u8>, ErrKind>(img2@),
                Err(e) => spec_update(
                    self.spec_params(),
                    self.spec_metadata(),
                    image@,
                    encode_utf8(new_key@),
                ) == Err::<Seq<u8>, ErrKind>(err_kind(e)),
            },
    {
        self.update_bytes(image, new_key.as_bytes())
    }

    /// Read the stored secret as a string; the stored bytes must be valid
    /// UTF-8; otherwise the call fails with `Parse`.
    pub fn read(&self, image: &[u8]) -> (r: Result<String, Error>)
        requires
            self.wf(),
        ensures
            match r {
                Ok(t) => spec_read(self.spec_params(), self.spec_metadata(), image@) matches Ok(b)
                    && valid_utf8(b) && t@ == decode_utf8(b),
                Err(e) => match spec_read(self.spec_params(), self.spec_metadata(), image@) {
                    Ok(b) => !valid_utf8(b) && e is Parse,
                    Err(k) => k == err_kind(e),
                },
            },
    {
        let bytes = match self.read_bytes(image) {
            Ok(b) => b,
            Err(e) => {
                return Err(e);
            },
        };
        match string_from_utf8(bytes) {
            Some(s) => Ok(s),
            None => Err(Error::Parse("the stored bytes are not valid UTF-8".to_owned())),
        }
    }
}

// ---------------------------------------------------------------------
// The round trip of the engine, under the reservation contract.
// ---------------------------------------------------------------------

/// Whether position `j` lies inside the metadata slot or a data slot.
pub open spec fn in_reserved(mo: int, ms: int, slots: Seq<(int, int)>, j: int) -> bool {
    ||| mo <= j < mo + ms
    ||| exists|t: int|
        0 <= t < slots.len() && (#[trigger] slots[t]).0 <= j < slots[t].0 + slots[t].1
}

/// Whether `x` agrees with `img` everywhere outside the reserved slots.
pub open spec fn agrees_outside_slots(
    img: Seq<u8>,
    x: Seq<u8>,
    mo: int,
    ms: int,
    slots: Seq<(int, int)>,
) -> bool {
    &&& x.len() == img.len()
    &&& forall|j: int| 0 <= j < img.len() && !in_reserved(mo, ms, slots, j) ==> x[j] == img[j]
}

/// The stability half of the reservation contract: in every image that
/// differs from this one only inside the reserved slots, the metadata
/// slot, the code section and every data slot are found where the layout
/// says. This holds of a binary whose section table lies outside the
/// reserved slots, which the reservation arranges at link time.
pub open spec fn reservation_stable(
    m: KeyMetadata,
    img: Seq<u8>,
    mo: int,
    ms: int,
    to: int,
    ts: int,
    slots: Seq<(int, int)>,
) -> bool {
    &&& slots.len() == m.num_shards
    &&& forall|x: Seq<u8>|
        agrees_outside_slots(img, x, mo, ms, slots) ==> #[trigger] spec_find(
            x,
            meta_section_name(),
        ) == Ok::<(int, int), ErrKind>((mo, ms))
    &&& forall|x: Seq<u8>|
        agrees_outside_slots(img, x, mo, ms, slots) ==> #[trigger] spec_find(
            x,
            text_section_name(),
        ) == Ok::<(int, int), ErrKind>((to, ts))
    &&& forall|x: Seq<u8>, t: int|
        agrees_outside_slots(img, x, mo, ms, slots) && 0 <= t < m.num_shards ==> #[trigger] spec_find(
            x,
            m.shard_names@[t]@,
        ) == Ok::<(int, int), ErrKind>(slots[t])
}

/// The geometric half of the reservation contract: every reserved range
/// lies inside the image, the metadata slot holds the record and the
/// length prefix, each data slot holds its shard, and the ranges are
/// pairwise disjoint and disjoint from the code section.
pub open spec fn reservation_layout(
    m: KeyMetadata,
    len: int,
    mo: int,
    ms: int,
    to: int,
    ts: int,
    slots: Seq<(int, int)>,
) -> bool {
    &&& slots.len() == m.num_shards
    &&& 0 <= mo && mo + ms <= len
    &&& 8 + json_of(m).len() <= ms
    &&& 0 <= to && to + ts <= len
    &&& forall|t: int|
        0 <= t < slots.len() ==> 0 <= (#[trigger] slots[t]).0 && slots[t].0 + slots[t].1 <= len
            && m.shard_sizes@[t] <= slots[t].1
    &&& forall|t: int, u: int|
        0 <= t < slots.len() && 0 <= u < slots.len() && t != u ==> (#[trigger] slots[t]).0
            + slots[t].1 <= (#[trigger] slots[u]).0 || slots[u].0 + slots[u].1 <= slots[t].0
    &&& forall|t: int|
        0 <= t < slots.len() ==> mo + ms <= (#[trigger] slots[t]).0 || slots[t].0 + slots[t].1
            <= mo
    &&& forall|t: int|
        0 <= t < slots.len() ==> to + ts <= (#[trigger] slots[t]).0 || slots[t].0 + slots[t].1
            <= to
    &&& (to + ts <= mo || mo + ms <= to)
}

/// The key every shard of this size gets: the truncated digest of the
/// code section of the original image.
pub open spec fn code_key(img: Seq<u8>, to: int, ts: int, size: int) -> Seq<u8> {
    sha256_of(img.subrange(to, to + ts)).take(derived_key_len(size))
}

/// The ciphertext that the update writes into slot `t`.
pub open spec fn shard_cipher(
    p: CryptoParams,
    m: KeyMetadata,
    img: Seq<u8>,
    to: int,
    ts: int,
    padded: Seq<u8>,
    t: int,
) -> Seq<u8> {
    let koff = sizes_total(m.shard_sizes@.take(t));
    spec_encrypt_shard(
        p,
        padded.subrange(koff, koff + m.shard_sizes@[t]),
        code_key(img, to, ts, m.shard_sizes@[t] as int),
        shard_seed(p, t),
    )
}

/// Whether position `j` is written by the shard loop from index `i` on.
pub open spec fn written_from(m: KeyMetadata, slots: Seq<(int, int)>, i: int, j: int) -> bool {
    exists|t: int|
        i <= t < m.num_shards && (#[trigger] slots[t]).0 <= j < slots[t].0 + m.shard_sizes@[t]
}

proof fn lemma_splice_keeps_agreement(
    img: Seq<u8>,
    x: Seq<u8>,
    mo: int,
    ms: int,
    slots: Seq<(int, int)>,
    off: int,
    data: Seq<u8>,
)
    requires
        agrees_outside_slots(img, x, mo, ms, slots),
        0 <= off,
        off + data.len() <= x.len(),
        forall|j: int| off <= j < off + data.len() ==> in_reserved(mo, ms, slots, j),
    ensures
        agrees_outside_slots(img, splice(x, off, data), mo, ms, slots),
{
    let x2 = splice(x, off, data);
    assert(x2.len() == x.len());
    assert forall|j: int|
        0 <= j < img.len() && !in_reserved(mo, ms, slots, j) implies x2[j] == img[j] by {
        lemma_splice_index(x, off, data, j);
    }
}

proof fn lemma_splice_preserves_range(x: Seq<u8>, off: int, data: Seq<u8>, a: int, b: int)
    requires
        0 <= off,
        off + data.len() <= x.len(),
        0 <= a <= b <= x.len(),
        b <= off || off + data.len() <= a,
    ensures
        splice(x, off, data).subrange(a, b) == x.subrange(a, b),
{
    let x2 = splice(x, off, data);
    assert forall|j: int| a <= j < b implies x2[j] == x[j] by {
        lemma_splice_index(x, off, data, j);
    }
    assert(x2.subrange(a, b) =~= x.subrange(a, b));
}

proof fn lemma_splice_writes_range(x: Seq<u8>, off: int, data: Seq<u8>)
    requires
        0 <= off,
        off + data.len() <= x.len(),
    ensures
        splice(x, off, data).subrange(off, off + data.len()) == data,
{
    let x2 = splice(x, off, data);
    assert forall|j: int| off <= j < off + data.len() implies x2[j] == data[j - off] by {
        lemma_splice_index(x, off, data, j);
    }
    assert(x2.subrange(off, off + data.len()) =~= data);
}

proof fn lemma_agreement_range(
    img: Seq<u8>,
    x: Seq<u8>,
    mo: int,
    ms: int,
    slots: Seq<(int, int)>,
    a: int,
    b: int,
)
    requires
        agrees_outside_slots(img, x, mo, ms, slots),
        0 <= a <= b <= img.len(),
        forall|j: int| a <= j < b ==> !in_reserved(mo, ms, slots, j),
    ensures
        x.subrange(a, b) == img.subrange(a, b),
{
    assert(x.subrange(a, b) =~= img.subrange(a, b));
}

/// The code section lies outside every reserved slot.
proof fn lemma_text_outside_reserved(
    m: KeyMetadata,
    len: int,
    mo: int,
    ms: int,
    to: int,
    ts: int,
    slots: Seq<(int, int)>,
    j: int,
)
    requires
        reservation_layout(m, len, mo, ms, to, ts, slots),
        to <= j < to + ts,
    ensures
        !in_reserved(mo, ms, slots, j),
{
    if in_reserved(mo, ms, slots, j) {
        if !(mo <= j < mo + ms) {
            let t = choose|t: int|
                0 <= t < slots.len() && (#[trigger] slots[t]).0 <= j < slots[t].0 + slots[t].1;
            assert(to + ts <= slots[t].0 || slots[t].0 + slots[t].1 <= to);
        }
    }
}

/// The shard loop from index `i` on succeeds on any image that agrees
/// with the original outside the slots, writes each remaining shard's
/// ciphertext into its slot, and touches nothing else.
proof fn lemma_update_chain(
    p: CryptoParams,
    m: KeyMetadata,
    img: Seq<u8>,
    x: Seq<u8>,
    padded: Seq<u8>,
    i: int,
    mo: int,
    ms: int,
    to: int,
    ts: int,
    slots: Seq<(int, int)>,
)
    requires
        p.wf(),
        m.valid_shape(),
        reservation_stable(m, img, mo, ms, to, ts, slots),
        reservation_layout(m, img.len() as int, mo, ms, to, ts, slots),
        img.len() <= usize::MAX,
        agrees_outside_slots(img, x, mo, ms, slots),
        0 <= i <= m.num_shards,
        padded.len() == sizes_total(m.shard_sizes@),
    ensures
        spec_update_shards(p, m, x, padded, i, sizes_total(m.shard_sizes@.take(i))) is Ok,
        ({
            let x2 = spec_update_shards(
                p,
                m,
                x,
                padded,
                i,
                sizes_total(m.shard_sizes@.take(i)),
            )->Ok_0;
            &&& agrees_outside_slots(img, x2, mo, ms, slots)
            &&& forall|j: int|
                0 <= j < x.len() && !written_from(m, slots, i, j) ==> x2[j] == x[j]
            &&& forall|t: int|
                i <= t < m.num_shards ==> x2.subrange(
                    (#[trigger] slots[t]).0,
                    slots[t].0 + m.shard_sizes@[t],
                ) == shard_cipher(p, m, img, to, ts, padded, t)
        }),
    decreases m.num_shards - i,
{
    let koff = sizes_total(m.shard_sizes@.take(i));
    if i < m.num_shards {
        let size = m.shard_sizes@[i] as int;
        lemma_sizes_total_prefix(m.shard_sizes@, i + 1);
        crate::metadata::lemma_sizes_total_nonneg(m.shard_sizes@.take(i));
        assert(m.shard_sizes@.take(i + 1).drop_last() =~= m.shard_sizes@.take(i));
        assert(m.shard_sizes@.take(i + 1).last() == m.shard_sizes@[i]);
        assert(koff + size == sizes_total(m.shard_sizes@.take(i + 1)));
        assert(koff + size <= padded.len());

        // Locate the slot and the code section on the current image.
        assert(spec_find(x, m.shard_names@[i]@) == Ok::<(int, int), ErrKind>(slots[i]));
        let o = slots[i].0;
        let ssz = slots[i].1;
        assert(spec_find(x, text_section_name()) == Ok::<(int, int), ErrKind>((to, ts)));
        assert forall|j: int| to <= j < to + ts implies !in_reserved(mo, ms, slots, j) by {
            lemma_text_outside_reserved(m, img.len() as int, mo, ms, to, ts, slots, j);
        }
        lemma_agreement_range(img, x, mo, ms, slots, to, to + ts);
        let key = code_key(img, to, ts, size);
        assert(spec_derive_key(x, size) == Ok::<Seq<u8>, ErrKind>(key));

        let chunk = padded.subrange(koff, koff + size);
        let cipher = spec_encrypt_shard(p, chunk, key, shard_seed(p, i));
        assert(cipher.len() == size);
        let x1 = splice(x, o, cipher);
        assert forall|j: int| o <= j < o + size implies in_reserved(mo, ms, slots, j) by {
            assert(slots[i].0 <= j < slots[i].0 + slots[i].1);
        }
        lemma_splice_keeps_agreement(img, x, mo, ms, slots, o, cipher);
        lemma_update_chain(p, m, img, x1, padded, i + 1, mo, ms, to, ts, slots);
        let x2 = spec_update_shards(p, m, x1, padded, i + 1, koff + size)->Ok_0;
        assert(spec_update_shards(p, m, x, padded, i, koff) == spec_update_shards(
            p,
            m,
            x1,
            padded,
            i + 1,
            koff + size,
        ));

        // Positions not written from `i` on keep their bytes.
        assert forall|j: int|
            0 <= j < x.len() && !written_from(m, slots, i, j) implies x2[j] == x[j] by {
            assert(!written_from(m, slots, i + 1, j));
            assert(!(o <= j < o + size));
            lemma_splice_index(x, o, cipher, j);
        }

        // Slot `i` now holds its ciphertext, and the recursion left it alone.
        assert forall|t: int|
            i <= t < m.num_shards implies x2.subrange(
            (#[trigger] slots[t]).0,
            slots[t].0 + m.shard_sizes@[t],
        ) == shard_cipher(p, m, img, to, ts, padded, t) by {
            if t == i {
                assert forall|j: int| o <= j < o + size implies !(#[trigger] written_from(
                    m,
                    slots,
                    i + 1,
                    j,
                )) by {
                    if written_from(m, slots, i + 1, j) {
                        let u = choose|u: int|
                            (i + 1) <= u < m.num_shards && (#[trigger] slots[u]).0 <= j
                                < slots[u].0 + m.shard_sizes@[u];
                        assert(slots[i].0 + slots[i].1 <= slots[u].0 || slots[u].0 + slots[u].1
                            <= slots[i].0);
                        assert(m.shard_sizes@[u] <= slots[u].1);
                    }
                }
                assert forall|j: int| o <= j < o + size implies x2[j] == x1[j] by {}
                assert(x2.subrange(o, o + size) =~= x1.subrange(o, o + size));
                lemma_splice_writes_range(x, o, cipher);
            }
        }
    } else {
        assert forall|t: int|
            i <= t < m.num_shards implies spec_update_shards(
            p,
            m,
            x,
            padded,
            i,
            koff,
        )->Ok_0.subrange((#[trigger] slots[t]).0, slots[t].0 + m.shard_sizes@[t])
            == shard_cipher(p, m, img, to, ts, padded, t) by {}
    }
}

/// Reading from index `i` on, with the slots holding the ciphertexts the
/// update wrote, recovers exactly the requested window of the padded
/// secret.
#[verifier::rlimit(100)]
#[verifier::spinoff_prover]
proof fn lemma_read_chain(
    p: CryptoParams,
    m: KeyMetadata,
    img: Seq<u8>,
    y: Seq<u8>,
    padded: Seq<u8>,
    i: int,
    rem: int,
    mo: int,
    ms: int,
    to: int,
    ts: int,
    slots: Seq<(int, int)>,
)
    requires
        p.wf(),
        m.valid_shape(),
        reservation_stable(m, img, mo, ms, to, ts, slots),
        reservation_layout(m, img.len() as int, mo, ms, to, ts, slots),
        img.len() <= usize::MAX,
        agrees_outside_slots(img, y, mo, ms, slots),
        0 <= i <= m.num_shards,
        padded.len() == sizes_total(m.shard_sizes@),
        0 <= rem <= sizes_total(m.shard_sizes@) - sizes_total(m.shard_sizes@.take(i)),
        forall|t: int|
            i <= t < m.num_shards ==> y.subrange(
                (#[trigger] slots[t]).0,
                slots[t].0 + m.shard_sizes@[t],
            ) == shard_cipher(p, m, img, to, ts, padded, t),
        sha256_of(img.subrange(to, to + ts)).len() == 32,
    ensures
        spec_read_shards(p, m, y, i, rem) == Ok::<Seq<u8>, ErrKind>(
            padded.subrange(
                sizes_total(m.shard_sizes@.take(i)),
                sizes_total(m.shard_sizes@.take(i)) + rem,
            ),
        ),
    decreases m.num_shards - i,
{
    let koff = sizes_total(m.shard_sizes@.take(i));
    crate::metadata::lemma_sizes_total_nonneg(m.shard_sizes@.take(i));
    if rem <= 0 || i >= m.num_shards {
        if i >= m.num_shards {
            assert(m.shard_sizes@.take(i) =~= m.shard_sizes@);
        }
        assert(rem == 0);
        assert(padded.subrange(koff, koff) =~= Seq::<u8>::empty());
    } else {
        let size = m.shard_sizes@[i] as int;
        lemma_sizes_total_prefix(m.shard_sizes@, i + 1);
        assert(m.shard_sizes@.take(i + 1).drop_last() =~= m.shard_sizes@.take(i));
        assert(m.shard_sizes@.take(i + 1).last() == m.shard_sizes@[i]);
        assert(koff + size == sizes_total(m.shard_sizes@.take(i + 1)));

        assert(spec_find(y, m.shard_names@[i]@) == Ok::<(int, int), ErrKind>(slots[i]));
        let o = slots[i].0;
        assert(spec_find(y, text_section_name()) == Ok::<(int, int), ErrKind>((to, ts)));
        assert forall|j: int| to <= j < to + ts implies !in_reserved(mo, ms, slots, j) by {
            lemma_text_outside_reserved(m, img.len() as int, mo, ms, to, ts, slots, j);
        }
        lemma_agreement_range(img, y, mo, ms, slots, to, to + ts);
        let key = code_key(img, to, ts, size);
        assert(spec_derive_key(y, size) == Ok::<Seq<u8>, ErrKind>(key));

        let chunk = padded.subrange(koff, koff + size);
        let cipher = y.subrange(o, o + size);
        assert(cipher == shard_cipher(p, m, img, to, ts, padded, i));
        let plain = spec_decrypt_shard(p, cipher, key, shard_seed(p, i));
        if size == 0 {
            assert(plain =~= chunk);
        } else {
            assert(key.len() == derived_key_len(size));
            assert(key.len() > 0);
            crate::crypto::lemma_shard_roundtrip(p, chunk, key, shard_seed(p, i));
        }
        assert(plain == chunk);
        assert(plain.len() == size);

        let take_n = if rem < size {
            rem
        } else {
            size
        };
        lemma_read_chain(p, m, img, y, padded, i + 1, rem - take_n, mo, ms, to, ts, slots);
        let rest = padded.subrange(koff + size, koff + size + (rem - take_n));
        assert(spec_read_shards(p, m, y, i, rem) == Ok::<Seq<u8>, ErrKind>(
            plain.take(take_n) + rest,
        ));
        assert(plain.take(take_n) + rest =~= padded.subrange(koff, koff + rem));
    }
}

/// The round trip of the engine: on an image that honors the reservation
/// contract, an update stores the secret and a read of the updated image
/// recovers it exactly, whatever the image held before.
///
/// The digest-length hypothesis restates that a SHA-256 digest is 32
/// bytes long, which the executable wrapper guarantees on every call.
pub proof fn lemma_update_then_read(
    p: CryptoParams,
    m: KeyMetadata,
    img: Seq<u8>,
    secret: Seq<u8>,
    mo: int,
    ms: int,
    to: int,
    ts: int,
    slots: Seq<(int, int)>,
)
    requires
        p.wf(),
        m.valid_shape(),
        sizes_total(m.shard_sizes@) <= usize::MAX,
        img.len() <= usize::MAX,
        secret.len() <= sizes_total(m.shard_sizes@),
        reservation_stable(m, img, mo, ms, to, ts, slots),
        reservation_layout(m, img.len() as int, mo, ms, to, ts, slots),
        sha256_of(img.subrange(to, to + ts)).len() == 32,
    ensures
        spec_update(p, m, img, secret) is Ok,
        spec_read(p, m, spec_update(p, m, img, secret)->Ok_0) == Ok::<Seq<u8>, ErrKind>(secret),
{
    let total = sizes_total(m.shard_sizes@);
    crate::metadata::lemma_sizes_total_nonneg(m.shard_sizes@);
    let padded = spec_zero_pad(secret, total);
    assert(padded.len() == total);
    assert(agrees_outside_slots(img, img, mo, ms, slots));
    assert(spec_find(img, meta_section_name()) == Ok::<(int, int), ErrKind>((mo, ms)));

    // The image after the optional metadata write.
    let img1 = if spec_read_metadata(img) is Err {
        splice(img, mo + 8, json_of(m))
    } else {
        img
    };
    if spec_read_metadata(img) is Err {
        assert(spec_write_metadata(m, img) == Ok::<Seq<u8>, ErrKind>(img1));
        assert forall|j: int|
            mo + 8 <= j < mo + 8 + json_of(m).len() implies in_reserved(mo, ms, slots, j) by {}
        lemma_splice_keeps_agreement(img, img, mo, ms, slots, mo + 8, json_of(m));
    }
    assert(agrees_outside_slots(img, img1, mo, ms, slots));

    // The shard loop.
    assert(m.shard_sizes@.take(0) =~= Seq::<usize>::empty());
    assert(sizes_total(m.shard_sizes@.take(0)) == 0);
    lemma_update_chain(p, m, img, img1, padded, 0, mo, ms, to, ts, slots);
    let x2 = spec_update_shards(p, m, img1, padded, 0, 0)->Ok_0;

    // The final length write.
    assert(spec_find(x2, meta_section_name()) == Ok::<(int, int), ErrKind>((mo, ms)));
    let lenbytes = le_bytes_of(secret.len());
    assert(lenbytes.len() == 8);
    let img2 = splice(x2, mo, lenbytes);
    assert(spec_update(p, m, img, secret) == Ok::<Seq<u8>, ErrKind>(img2));

    // The rewritten image still honors the contract.
    assert forall|j: int| mo <= j < mo + 8 implies in_reserved(mo, ms, slots, j) by {}
    lemma_splice_keeps_agreement(img, x2, mo, ms, slots, mo, lenbytes);
    assert(spec_find(img2, meta_section_name()) == Ok::<(int, int), ErrKind>((mo, ms)));

    // The length prefix reads back as the secret's length.
    lemma_splice_writes_range(x2, mo, lenbytes);
    assert(img2.subrange(mo, mo + 8) == lenbytes);
    reveal_with_fuel(pow256, 9);
    assert(pow256(8) == 0x1_0000_0000_0000_0000);
    lemma_le_bytes_roundtrip(secret.len());
    let stored = le_value(img2.subrange(mo, mo + 8)) as int;
    assert(stored == secret.len());

    // The ciphertexts survived the length write: the metadata slot is
    // disjoint from every data slot.
    assert forall|t: int|
        0 <= t < m.num_shards implies img2.subrange(
        (#[trigger] slots[t]).0,
        slots[t].0 + m.shard_sizes@[t],
    ) == shard_cipher(p, m, img, to, ts, padded, t) by {
        assert(mo + ms <= slots[t].0 || slots[t].0 + slots[t].1 <= mo);
        assert(m.shard_sizes@[t] <= slots[t].1);
        lemma_splice_preserves_range(
            x2,
            mo,
            lenbytes,
            slots[t].0,
            slots[t].0 + m.shard_sizes@[t],
        );
    }

    if stored == 0 {
        assert(secret =~= Seq::<u8>::empty());
    } else {
        lemma_read_chain(p, m, img, img2, padded, 0, stored, mo, ms, to, ts, slots);
        assert(padded.subrange(0, stored) =~= secret);
    }
}

} // verus!
