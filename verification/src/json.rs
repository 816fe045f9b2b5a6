//! The JSON form of the metadata record: a verified serializer that emits
//! the canonical compact encoding, and a verified parser for it. The
//! parser accepts exactly the canonical shape: the four fields in order,
//! unsigned decimal numbers, and plain (unescaped, printable) strings.

use vstd::prelude::*;
use vstd::arithmetic::div_mod::lemma_fundamental_div_mod;
use vstd::utf8::{decode_utf8, encode_utf8, valid_utf8};
use crate::error::Error;
use crate::metadata::KeyMetadata;

verus! {

// ---------------------------------------------------------------------
// The shape of a parsed record, before any machine-width checks.
// ---------------------------------------------------------------------

/// A metadata record as the parser reads it: unbounded numbers and raw
/// name bytes.
pub ghost struct MetaShape {
    pub num_shards: nat,
    pub sizes: Seq<nat>,
    pub names: Seq<Seq<u8>>,
    pub version: nat,
}

/// Whether every number of the shape fits the field that will hold it.
pub open spec fn shape_fits(t: MetaShape) -> bool {
    &&& t.num_shards <= usize::MAX
    &&& forall|k: int| 0 <= k < t.sizes.len() ==> #[trigger] t.sizes[k] <= usize::MAX
    &&& t.version <= u32::MAX
}

/// Whether a record holds exactly what a shape describes.
pub open spec fn meta_matches(m: KeyMetadata, t: MetaShape) -> bool {
    &&& m.num_shards as nat == t.num_shards
    &&& m.shard_sizes@.len() == t.sizes.len()
    &&& forall|k: int| 0 <= k < t.sizes.len() ==> #[trigger] m.shard_sizes@[k] as nat == t.sizes[k]
    &&& m.shard_names@.len() == t.names.len()
    &&& forall|k: int|
        0 <= k < t.names.len() ==> #[trigger] encode_utf8(m.shard_names@[k]@) == t.names[k]
    &&& m.version as nat == t.version
}

// ---------------------------------------------------------------------
// The canonical byte form.
// ---------------------------------------------------------------------

/// The bytes of `{"num_shards":`.
pub open spec fn lit_obj_open() -> Seq<u8> {
    seq![123u8, 34, 110, 117, 109, 95, 115, 104, 97, 114, 100, 115, 34, 58]
}

/// The bytes of `,"shard_sizes":[`.
pub open spec fn lit_sizes_key() -> Seq<u8> {
    seq![44u8, 34, 115, 104, 97, 114, 100, 95, 115, 105, 122, 101, 115, 34, 58, 91]
}

/// The bytes of `],"shard_names":[`.
pub open spec fn lit_names_key() -> Seq<u8> {
    seq![93u8, 44, 34, 115, 104, 97, 114, 100, 95, 110, 97, 109, 101, 115, 34, 58, 91]
}

/// The bytes of `],"version":`.
pub open spec fn lit_version_key() -> Seq<u8> {
    seq![93u8, 44, 34, 118, 101, 114, 115, 105, 111, 110, 34, 58]
}

/// The decimal digits of `n`, most significant first.
pub open spec fn dec_digits(n: nat) -> Seq<u8>
    decreases n,
{
    if n < 10 {
        seq![(48 + n) as u8]
    } else {
        dec_digits(n / 10).push((48 + n % 10) as u8)
    }
}

/// The sizes as a comma-separated list of decimal numbers.
pub open spec fn sizes_json(sizes: Seq<usize>) -> Seq<u8>
    decreases sizes.len(),
{
    if sizes.len() == 0 {
        Seq::empty()
    } else if sizes.len() == 1 {
        dec_digits(sizes[0] as nat)
    } else {
        sizes_json(sizes.drop_last()) + seq![44u8] + dec_digits(sizes.last() as nat)
    }
}

/// A name in double quotes.
pub open spec fn quoted(name: Seq<char>) -> Seq<u8> {
    seq![34u8] + encode_utf8(name) + seq![34u8]
}

/// The names as a comma-separated list of quoted strings.
pub open spec fn names_json(names: Seq<String>) -> Seq<u8>
    decreases names.len(),
{
    if names.len() == 0 {
        Seq::empty()
    } else if names.len() == 1 {
        quoted(names[0]@)
    } else {
        names_json(names.drop_last()) + seq![44u8] + quoted(names.last()@)
    }
}

/// The canonical JSON encoding of a record.
pub open spec fn json_of(m: KeyMetadata) -> Seq<u8> {
    lit_obj_open() + dec_digits(m.num_shards as nat) + lit_sizes_key() + sizes_json(m.shard_sizes@)
        + lit_names_key() + names_json(m.shard_names@) + lit_version_key() + dec_digits(
        m.version as nat,
    ) + seq![125u8]
}

// ---------------------------------------------------------------------
// The parser, at the specification level.
// ---------------------------------------------------------------------

pub open spec fn is_digit(b: u8) -> bool {
    48 <= b <= 57
}

/// A byte allowed inside a quoted name: printable, not a quote, not a
/// backslash.
pub open spec fn is_name_byte(b: u8) -> bool {
    32 <= b <= 126 && b != 34 && b != 92
}

/// The value and end index of the digit run starting at `i`, given the
/// value accumulated so far.
pub open spec fn scan_nat(s: Seq<u8>, i: int, acc: nat) -> (nat, int)
    decreases s.len() - i,
{
    if 0 <= i < s.len() && is_digit(s[i]) {
        scan_nat(s, i + 1, acc * 10 + (s[i] - 48) as nat)
    } else {
        (acc, i)
    }
}

/// A decimal number at `i`: present exactly when a digit stands there.
pub open spec fn parse_nat(s: Seq<u8>, i: int) -> Option<(nat, int)> {
    if 0 <= i < s.len() && is_digit(s[i]) {
        Some(scan_nat(s, i, 0))
    } else {
        None
    }
}

/// The first index at or after `i` that does not hold a name byte.
pub open spec fn scan_name(s: Seq<u8>, i: int) -> int
    decreases s.len() - i,
{
    if 0 <= i < s.len() && is_name_byte(s[i]) {
        scan_name(s, i + 1)
    } else {
        i
    }
}

/// A quoted name at `i`: an opening quote, name bytes, a closing quote.
pub open spec fn parse_string(s: Seq<u8>, i: int) -> Option<(Seq<u8>, int)> {
    if 0 <= i < s.len() && s[i] == 34 {
        let j = scan_name(s, i + 1);
        if j < s.len() && s[j] == 34 {
            Some((s.subrange(i + 1, j), j + 1))
        } else {
            None
        }
    } else {
        None
    }
}

/// A non-empty comma-separated list of decimal numbers starting at `i`.
pub open spec fn parse_nat_list(s: Seq<u8>, i: int) -> Option<(Seq<nat>, int)>
    decreases s.len() - i,
{
    match parse_nat(s, i) {
        None => None,
        Some((v, j)) => if !(i < j <= s.len()) {
            None
        } else if j < s.len() && s[j] == 44 {
            match parse_nat_list(s, j + 1) {
                None => None,
                Some((rest, k)) => Some((seq![v] + rest, k)),
            }
        } else {
            Some((seq![v], j))
        },
    }
}

/// A non-empty comma-separated list of quoted names starting at `i`.
pub open spec fn parse_name_list(s: Seq<u8>, i: int) -> Option<(Seq<Seq<u8>>, int)>
    decreases s.len() - i,
{
    match parse_string(s, i) {
        None => None,
        Some((v, j)) => if !(i < j <= s.len()) {
            None
        } else if j < s.len() && s[j] == 44 {
            match parse_name_list(s, j + 1) {
                None => None,
                Some((rest, k)) => Some((seq![v] + rest, k)),
            }
        } else {
            Some((seq![v], j))
        },
    }
}

/// The literal `lit` at index `i` of `s`; on a match, the index after it.
pub open spec fn expect(s: Seq<u8>, i: int, lit: Seq<u8>) -> Option<int> {
    if 0 <= i && i + lit.len() <= s.len() && s.subrange(i, i + lit.len()) == lit {
        Some(i + lit.len())
    } else {
        None
    }
}

/// The whole canonical object: every field in order, nothing after the
/// closing brace.
pub open spec fn parse_meta(s: Seq<u8>) -> Option<MetaShape> {
    match expect(s, 0, lit_obj_open()) {
        None => None,
        Some(i1) => match parse_nat(s, i1) {
            None => None,
            Some((ns, i2)) => match expect(s, i2, lit_sizes_key()) {
                None => None,
                Some(i3) => {
                    let (sizes, i4) = match parse_nat_list(s, i3) {
                        Some(p) => p,
                        None => (Seq::empty(), i3),
                    };
                    match expect(s, i4, lit_names_key()) {
                        None => None,
                        Some(i5) => {
                            let (names, i6) = match parse_name_list(s, i5) {
                                Some(p) => p,
                                None => (Seq::empty(), i5),
                            };
                            match expect(s, i6, lit_version_key()) {
                                None => None,
                                Some(i7) => match parse_nat(s, i7) {
                                    None => None,
                                    Some((ver, i8)) => {
                                        if i8 + 1 == s.len() && 0 <= i8 < s.len() && s[i8] == 125 {
                                            Some(
                                                MetaShape {
                                                    num_shards: ns,
                                                    sizes,
                                                    names,
                                                    version: ver,
                                                },
                                            )
                                        } else {
                                            None
                                        }
                                    },
                                },
                            }
                        },
                    }
                },
            },
        },
    }
}

/// The first `{` at or after `i`.
pub open spec fn first_open_brace(data: Seq<u8>, i: int) -> Option<int>
    decreases data.len() - i,
{
    if !(0 <= i < data.len()) {
        None
    } else if data[i] == 123 {
        Some(i)
    } else {
        first_open_brace(data, i + 1)
    }
}

/// The last `}` at or before `i`.
pub open spec fn last_close_brace(data: Seq<u8>, i: int) -> Option<int>
    decreases i + 1,
{
    if !(0 <= i < data.len()) {
        None
    } else if data[i] == 125 {
        Some(i)
    } else {
        last_close_brace(data, i - 1)
    }
}

/// What `from_bytes` accepts: the bytes between the first `{` and the
/// last `}`, parsed as the canonical object.
pub open spec fn spec_from_bytes(data: Seq<u8>) -> Option<MetaShape> {
    match first_open_brace(data, 0) {
        None => None,
        Some(a) => match last_close_brace(data, data.len() - 1) {
            None => None,
            Some(b) => if a > b {
                None
            } else {
                parse_meta(data.subrange(a, b + 1))
            },
        },
    }
}

// ---------------------------------------------------------------------
// The literal byte arrays shared by the serializer and the parser.
// ---------------------------------------------------------------------

fn obj_open_arr() -> (r: [u8; 14])
    ensures
        r@ == lit_obj_open(),
{
    let a: [u8; 14] = [123u8, 34, 110, 117, 109, 95, 115, 104, 97, 114, 100, 115, 34, 58];
    proof {
        assert(a@ =~= lit_obj_open());
    }
    a
}

fn sizes_key_arr() -> (r: [u8; 16])
    ensures
        r@ == lit_sizes_key(),
{
    let a: [u8; 16] = [44u8, 34, 115, 104, 97, 114, 100, 95, 115, 105, 122, 101, 115, 34, 58, 91];
    proof {
        assert(a@ =~= lit_sizes_key());
    }
    a
}

fn names_key_arr() -> (r: [u8; 17])
    ensures
        r@ == lit_names_key(),
{
    let a: [u8; 17] = [93u8, 44, 34, 115, 104, 97, 114, 100, 95, 110, 97, 109, 101, 115, 34, 58,
        91];
    proof {
        assert(a@ =~= lit_names_key());
    }
    a
}

fn version_key_arr() -> (r: [u8; 12])
    ensures
        r@ == lit_version_key(),
{
    let a: [u8; 12] = [93u8, 44, 34, 118, 101, 114, 115, 105, 111, 110, 34, 58];
    proof {
        assert(a@ =~= lit_version_key());
    }
    a
}

// ---------------------------------------------------------------------
// The serializer.
// ---------------------------------------------------------------------

fn push_lit(out: &mut Vec<u8>, lit: &[u8])
    ensures
        final(out)@ == old(out)@ + lit@,
{
    out.extend_from_slice(lit);
}

/// Append the decimal digits of `n`.
fn push_decimal(out: &mut Vec<u8>, n: u64)
    ensures
        final(out)@ == old(out)@ + dec_digits(n as nat),
    decreases n,
{
    if n < 10 {
        out.push((48 + n) as u8);
        proof {
            assert(old(out)@.push((48 + n as nat) as u8) =~= old(out)@ + dec_digits(n as nat));
        }
    } else {
        push_decimal(out, n / 10);
        out.push(48 + (n % 10) as u8);
        proof {
            assert((old(out)@ + dec_digits((n / 10) as nat)).push((48 + (n as nat) % 10) as u8)
                =~= old(out)@ + dec_digits(n as nat));
        }
    }
}

impl KeyMetadata {
    /// Serialize the record to its canonical compact JSON bytes. Always
    /// succeeds; the `Result` mirrors the operation's fallible signature.
    pub fn to_bytes(&self) -> (r: Result<Vec<u8>, Error>)
        ensures
            r matches Ok(v) && v@ == json_of(*self),
    {
        let mut out: Vec<u8> = Vec::new();

        let open_lit = obj_open_arr();
        push_lit(&mut out, open_lit.as_slice());
        push_decimal(&mut out, self.num_shards as u64);

        let sizes_lit = sizes_key_arr();
        push_lit(&mut out, sizes_lit.as_slice());

        let ghost prefix = out@;
        let mut i: usize = 0;
        while i < self.shard_sizes.len()
            invariant
                i <= self.shard_sizes@.len(),
                out@ == prefix + sizes_json(self.shard_sizes@.take(i as int)),
            decreases self.shard_sizes@.len() - i,
        {
            if i > 0 {
                out.push(44);
            }
            push_decimal(&mut out, self.shard_sizes[i] as u64);
            proof {
                let t = self.shard_sizes@.take(i + 1);
                assert(t.drop_last() =~= self.shard_sizes@.take(i as int));
                assert(t.last() == self.shard_sizes@[i as int]);
                if i == 0 {
                    assert(out@ =~= prefix + sizes_json(t));
                } else {
                    assert(out@ =~= prefix + sizes_json(t));
                }
            }
            i += 1;
        }
        proof {
            assert(self.shard_sizes@.take(self.shard_sizes@.len() as int) =~= self.shard_sizes@);
        }

        let names_lit = names_key_arr();
        push_lit(&mut out, names_lit.as_slice());

        let ghost prefix2 = out@;
        let mut i: usize = 0;
        while i < self.shard_names.len()
            invariant
                i <= self.shard_names@.len(),
                out@ == prefix2 + names_json(self.shard_names@.take(i as int)),
            decreases self.shard_names@.len() - i,
        {
            if i > 0 {
                out.push(44);
            }
            out.push(34);
            push_lit(&mut out, self.shard_names[i].as_str().as_bytes());
            out.push(34);
            proof {
                let t = self.shard_names@.take(i + 1);
                assert(t.drop_last() =~= self.shard_names@.take(i as int));
                assert(t.last() == self.shard_names@[i as int]);
                assert(out@ =~= prefix2 + names_json(t));
            }
            i += 1;
        }
        proof {
            assert(self.shard_names@.take(self.shard_names@.len() as int) =~= self.shard_names@);
        }

        let version_lit = version_key_arr();
        push_lit(&mut out, version_lit.as_slice());
        push_decimal(&mut out, self.version as u64);
        out.push(125);

        proof {
            assert(out@ =~= json_of(*self));
        }
        Ok(out)
    }
}

// ---------------------------------------------------------------------
// The parser, executable and proved against the specification above.
// ---------------------------------------------------------------------

/// Relies on `String::from_utf8`: it succeeds exactly on valid UTF-8 and
/// returns the string that decodes those bytes.
#[verifier::external_body]
pub(crate) fn string_from_utf8(v: Vec<u8>) -> (r: Option<String>)
    ensures
        match r {
            Some(st) => valid_utf8(v@) && st@ == decode_utf8(v@),
            None => !valid_utf8(v@),
        },
{
    match String::from_utf8(v) {
        Ok(s) => Some(s),
        Err(_) => None,
    }
}

/// A sequence of bytes below 128 is valid UTF-8.
proof fn lemma_ascii_valid_utf8(bytes: Seq<u8>)
    requires
        forall|k: int| 0 <= k < bytes.len() ==> bytes[k] < 128,
    ensures
        valid_utf8(bytes),
    decreases bytes.len(),
{
    if bytes.len() != 0 {
        let b0 = bytes[0];
        assert(vstd::utf8::is_leading_byte_width_1(b0));
        assert((b0 & 0x7f) < 0xd8) by (bit_vector);
        let rest = vstd::utf8::pop_first_scalar(bytes);
        assert(rest =~= bytes.subrange(1, bytes.len() as int));
        lemma_ascii_valid_utf8(rest);
    }
}

/// A sequence of bytes below 128 is valid UTF-8 and decodes to one
/// character per byte, each with the byte's value.
pub(crate) proof fn lemma_ascii_decode(bytes: Seq<u8>)
    requires
        forall|k: int| 0 <= k < bytes.len() ==> bytes[k] < 128,
    ensures
        valid_utf8(bytes),
        decode_utf8(bytes).len() == bytes.len(),
        forall|k: int|
            0 <= k < bytes.len() ==> (#[trigger] decode_utf8(bytes)[k]) as u32 == bytes[k],
    decreases bytes.len(),
{
    lemma_ascii_valid_utf8(bytes);
    if bytes.len() != 0 {
        let b0 = bytes[0];
        assert((b0 & 0x7f) == b0) by (bit_vector)
            requires
                b0 < 128,
        ;
        let rest = vstd::utf8::pop_first_scalar(bytes);
        assert(rest =~= bytes.subrange(1, bytes.len() as int));
        lemma_ascii_decode(rest);
        assert(decode_utf8(bytes) =~= seq![vstd::utf8::decode_first_scalar(bytes) as char]
            + decode_utf8(rest));
    }
}

/// Whether a parsed shape has the form `validate` accepts.
pub open spec fn shape_valid(t: MetaShape) -> bool {
    &&& 1 <= t.num_shards <= 8
    &&& t.sizes.len() == t.num_shards
    &&& t.names.len() == t.num_shards
}

/// The total of a parsed shape's sizes.
pub open spec fn shape_total(sizes: Seq<nat>) -> int
    decreases sizes.len(),
{
    if sizes.len() == 0 {
        0
    } else {
        shape_total(sizes.drop_last()) + sizes.last()
    }
}

/// The end index of a digit scan never lies before its start.
proof fn lemma_scan_nat_lower(s: Seq<u8>, i: int, acc: nat)
    ensures
        scan_nat(s, i, acc).1 >= i,
    decreases s.len() - i,
{
    if 0 <= i < s.len() && is_digit(s[i]) {
        lemma_scan_nat_lower(s, i + 1, acc * 10 + (s[i] - 48) as nat);
    }
}

/// Match `lit` at position `i` of `s`.
fn match_lit(s: &[u8], i: usize, lit: &[u8]) -> (r: Option<usize>)
    requires
        i <= s@.len(),
    ensures
        match r {
            Some(j) => expect(s@, i as int, lit@) == Some(j as int) && i <= j <= s@.len(),
            None => expect(s@, i as int, lit@) is None,
        },
{
    let n = s.len();
    if lit.len() > n - i {
        return None;
    }
    let mut k: usize = 0;
    while k < lit.len()
        invariant
            n == s@.len(),
            i + lit@.len() <= n,
            k <= lit@.len(),
            forall|t: int| 0 <= t < k ==> s@[i + t] == lit@[t],
        decreases lit@.len() - k,
    {
        if s[i + k] != lit[k] {
            proof {
                let sub = s@.subrange(i as int, i + lit@.len());
                assert(sub[k as int] == s@[i + k]);
                assert(sub != lit@);
            }
            return None;
        }
        k += 1;
    }
    proof {
        assert(s@.subrange(i as int, i + lit@.len()) =~= lit@);
    }
    Some(i + lit.len())
}

/// Scan the digit run at `i`: its end, and its value when it fits a u64.
fn scan_number(s: &[u8], i: usize) -> (r: (Option<u64>, usize))
    requires
        i < s@.len(),
        is_digit(s@[i as int]),
    ensures
        ({
            let (v, n) = scan_nat(s@, i as int, 0);
            &&& r.1 as int == n
            &&& i < r.1 <= s@.len()
            &&& match r.0 {
                Some(x) => x as nat == v,
                None => v > u64::MAX,
            }
        }),
{
    let mut j: usize = i;
    let mut acc: u64 = 0;
    let mut fits: bool = true;
    let ghost mut acc_g: nat = 0nat;
    while j < s.len() && 48 <= s[j] && s[j] <= 57
        invariant
            i <= j <= s@.len(),
            scan_nat(s@, i as int, 0) == scan_nat(s@, j as int, acc_g),
            fits ==> acc as nat == acc_g,
            !fits ==> acc_g > u64::MAX,
        decreases s@.len() - j,
    {
        let d = s[j] - 48;
        if fits {
            proof {
                lemma_fundamental_div_mod((u64::MAX - d) as int, 10);
            }
            if acc > (u64::MAX - d as u64) / 10 {
                fits = false;
            } else {
                acc = acc * 10 + d as u64;
            }
        }
        proof {
            acc_g = acc_g * 10 + (s@[j as int] - 48) as nat;
        }
        j += 1;
    }
    proof {
        lemma_scan_nat_lower(s@, i as int + 1, (s@[i as int] - 48) as nat);
    }
    (
        if fits {
            Some(acc)
        } else {
            None
        },
        j,
    )
}

/// Scan the quoted name at `i`: its bytes and the index after the closing
/// quote.
fn scan_string(s: &[u8], i: usize) -> (r: Option<(Vec<u8>, usize)>)
    requires
        i <= s@.len(),
    ensures
        match r {
            Some((bytes, j)) => parse_string(s@, i as int) == Some((bytes@, j as int)) && i < j
                <= s@.len() && (forall|k: int|
                0 <= k < bytes@.len() ==> is_name_byte(#[trigger] bytes@[k])),
            None => parse_string(s@, i as int) is None,
        },
{
    if i >= s.len() || s[i] != 34 {
        return None;
    }
    let mut j: usize = i + 1;
    let mut bytes: Vec<u8> = Vec::new();
    while j < s.len() && 32 <= s[j] && s[j] <= 126 && s[j] != 34 && s[j] != 92
        invariant
            i + 1 <= j <= s@.len(),
            scan_name(s@, i as int + 1) == scan_name(s@, j as int),
            bytes@ == s@.subrange(i as int + 1, j as int),
            forall|k: int| 0 <= k < bytes@.len() ==> is_name_byte(#[trigger] bytes@[k]),
        decreases s@.len() - j,
    {
        bytes.push(s[j]);
        proof {
            assert(bytes@ =~= s@.subrange(i as int + 1, j as int + 1));
        }
        j += 1;
    }
    if j < s.len() && s[j] == 34 {
        Some((bytes, j + 1))
    } else {
        None
    }
}

/// What a successful size-list parse returns: the parsed values, their
/// end index, and whether every value fits in `usize`.
pub open spec fn sizes_list_post(s: Seq<u8>, i: int, vals: Seq<usize>, j: int, ok: bool) -> bool {
    match parse_nat_list(s, i) {
        Some(p) => {
            let ns = p.0;
            &&& j == p.1
            &&& i < j <= s.len()
            &&& ok ==> vals.len() == ns.len() && (forall|k: int|
                0 <= k < ns.len() ==> vals[k] as nat == #[trigger] ns[k]) && (forall|k: int|
                0 <= k < ns.len() ==> #[trigger] ns[k] <= usize::MAX)
            &&& !ok ==> exists|k: int| 0 <= k < ns.len() && #[trigger] ns[k] > usize::MAX
        },
        None => false,
    }
}

/// Parse the comma-separated list of sizes at `i`. The flag is false when
/// some value does not fit in `usize`.
fn parse_sizes_list(s: &[u8], i: usize) -> (r: Option<(Vec<usize>, usize, bool)>)
    requires
        i <= s@.len(),
    ensures
        match r {
            None => parse_nat_list(s@, i as int) is None,
            Some((vals, j, ok)) => sizes_list_post(s@, i as int, vals@, j as int, ok),
        },
    decreases s@.len() - i,
{
    if i >= s.len() || !(48 <= s[i] && s[i] <= 57) {
        return None;
    }
    let (vopt, j) = scan_number(s, i);
    let ghost head_v = scan_nat(s@, i as int, 0).0;
    let (head, head_ok): (usize, bool) = match vopt {
        Some(x) => {
            if x <= usize::MAX as u64 {
                (x as usize, true)
            } else {
                (0, false)
            }
        },
        None => (0, false),
    };
    proof {
        if head_ok {
            assert(head as nat == head_v);
        } else {
            assert(head_v > usize::MAX);
        }
    }
    if j < s.len() && s[j] == 44 {
        match parse_sizes_list(s, j + 1) {
            None => None,
            Some((rest, k, ok2)) => {
                let ghost rest_ns = parse_nat_list(s@, j as int + 1)->Some_0.0;
                let mut vals: Vec<usize> = Vec::new();
                vals.push(head);
                let mut rest_mut = rest;
                vals.append(&mut rest_mut);
                let ok = head_ok && ok2;
                proof {
                    let ns = seq![head_v] + rest_ns;
                    assert(parse_nat(s@, i as int) == Some((head_v, j as int)));
                    assert(parse_nat_list(s@, j as int + 1) == Some((rest_ns, k as int)));
                    assert(parse_nat_list(s@, i as int) == Some((ns, k as int)));
                    assert(vals@ =~= seq![head] + rest@);
                    if ok {
                        assert forall|t: int| 0 <= t < ns.len() implies vals@[t] as nat
                            == ns[t] by {
                            if t > 0 {
                                assert(rest@[t - 1] as nat == rest_ns[t - 1]);
                            }
                        }
                        assert forall|t: int| 0 <= t < ns.len() implies ns[t] <= usize::MAX by {
                            if t > 0 {
                                assert(rest_ns[t - 1] <= usize::MAX);
                            }
                        }
                    } else {
                        if !head_ok {
                            assert(parse_nat_list(s@, i as int)->Some_0.0[0] > usize::MAX);
                        } else {
                            let w = choose|w: int| 0 <= w < rest_ns.len() && #[trigger] rest_ns[w]
                                > usize::MAX;
                            assert(parse_nat_list(s@, i as int)->Some_0.0[w + 1] > usize::MAX);
                        }
                    }
                    assert(sizes_list_post(s@, i as int, vals@, k as int, ok));
                }
                Some((vals, k, ok))
            },
        }
    } else {
        let mut vals: Vec<usize> = Vec::new();
        vals.push(head);
        proof {
            assert(vals@ =~= seq![head]);
            let ns = seq![head_v];
            assert(parse_nat(s@, i as int) == Some((head_v, j as int)));
            assert(parse_nat_list(s@, i as int) == Some((ns, j as int)));
            if !head_ok {
                assert(parse_nat_list(s@, i as int)->Some_0.0[0] > usize::MAX);
            } else {
                assert(ns[0] <= usize::MAX);
            }
            assert(sizes_list_post(s@, i as int, vals@, j as int, head_ok));
        }
        Some((vals, j, head_ok))
    }
}

/// Parse the comma-separated list of quoted names at `i`.
fn parse_names_list(s: &[u8], i: usize) -> (r: Option<(Vec<String>, usize)>)
    requires
        i <= s@.len(),
    ensures
        match r {
            None => parse_name_list(s@, i as int) is None,
            Some((names, j)) => parse_name_list(s@, i as int) matches Some((bss, jj)) && j as int
                == jj && i < j <= s@.len() && names@.len() == bss.len() && (forall|k: int|
                0 <= k < bss.len() ==> #[trigger] encode_utf8(names@[k]@) == bss[k]),
        },
    decreases s@.len() - i,
{
    let (bytes, j) = match scan_string(s, i) {
        None => {
            return None;
        },
        Some(p) => p,
    };
    let ghost head_bytes = bytes@;
    proof {
        lemma_ascii_valid_utf8(bytes@);
    }
    let head = match string_from_utf8(bytes) {
        Some(st) => st,
        None => {
            proof {
                assert(false);
            }
            return None;
        },
    };
    proof {
        broadcast use vstd::utf8::decode_utf8_encode_utf8;

        assert(encode_utf8(head@) == head_bytes);
    }
    if j < s.len() && s[j] == 44 {
        match parse_names_list(s, j + 1) {
            None => None,
            Some((rest, k)) => {
                let ghost rest_bss = parse_name_list(s@, j as int + 1)->Some_0.0;
                let mut names: Vec<String> = Vec::new();
                names.push(head);
                let mut rest_mut = rest;
                names.append(&mut rest_mut);
                proof {
                    let bss = seq![head_bytes] + rest_bss;
                    assert forall|t: int| 0 <= t < bss.len() implies encode_utf8(
                        #[trigger] names@[t]@,
                    ) == bss[t] by {
                        if t > 0 {
                            assert(encode_utf8(rest@[t - 1]@) == rest_bss[t - 1]);
                            assert(names@[t] == rest@[t - 1]);
                        }
                    }
                }
                Some((names, k))
            },
        }
    } else {
        let mut names: Vec<String> = Vec::new();
        names.push(head);
        Some((names, j))
    }
}

/// Parse the whole canonical object. The flag is false when the shape is
/// right but some number does not fit its field.
fn parse_meta_exec(s: &[u8]) -> (r: Option<(KeyMetadata, bool)>)
    ensures
        match r {
            None => parse_meta(s@) is None,
            Some((m, ok)) => parse_meta(s@) matches Some(t) && (ok ==> shape_fits(t)
                && meta_matches(m, t)) && (!ok ==> !shape_fits(t)),
        },
{
    let open_lit = obj_open_arr();
    let i1 = match match_lit(s, 0, open_lit.as_slice()) {
        None => {
            return None;
        },
        Some(x) => x,
    };
    if i1 >= s.len() || !(48 <= s[i1] && s[i1] <= 57) {
        return None;
    }
    let (ns_opt, i2) = scan_number(s, i1);
    let ghost ns_v = scan_nat(s@, i1 as int, 0).0;

    let sizes_lit = sizes_key_arr();
    let i3 = match match_lit(s, i2, sizes_lit.as_slice()) {
        None => {
            return None;
        },
        Some(x) => x,
    };
    let (sizes_v, i4, sizes_ok) = match parse_sizes_list(s, i3) {
        Some(p) => p,
        None => (Vec::new(), i3, true),
    };

    let names_lit = names_key_arr();
    let i5 = match match_lit(s, i4, names_lit.as_slice()) {
        None => {
            return None;
        },
        Some(x) => x,
    };
    let (names_v, i6) = match parse_names_list(s, i5) {
        Some(p) => p,
        None => (Vec::new(), i5),
    };

    let version_lit = version_key_arr();
    let i7 = match match_lit(s, i6, version_lit.as_slice()) {
        None => {
            return None;
        },
        Some(x) => x,
    };
    if i7 >= s.len() || !(48 <= s[i7] && s[i7] <= 57) {
        return None;
    }
    let (ver_opt, i8) = scan_number(s, i7);
    let ghost ver_v = scan_nat(s@, i7 as int, 0).0;

    if !(i8 < s.len() && s[i8] == 125 && i8 + 1 == s.len()) {
        return None;
    }

    let (num_shards, ns_ok): (usize, bool) = match ns_opt {
        Some(x) => {
            if x <= usize::MAX as u64 {
                (x as usize, true)
            } else {
                (0, false)
            }
        },
        None => (0, false),
    };
    let (version, ver_ok): (u32, bool) = match ver_opt {
        Some(x) => {
            if x <= u32::MAX as u64 {
                (x as u32, true)
            } else {
                (0, false)
            }
        },
        None => (0, false),
    };
    let ok = ns_ok && sizes_ok && ver_ok;
    proof {
        if !ok {
            let t = parse_meta(s@)->Some_0;
            if !ns_ok {
                assert(t.num_shards > usize::MAX);
            } else if !sizes_ok {
                let w = choose|w: int| 0 <= w < t.sizes.len() && #[trigger] t.sizes[w]
                    > usize::MAX;
                assert(t.sizes[w] > usize::MAX);
            } else {
                assert(t.version > u32::MAX);
            }
        }
    }
    Some((KeyMetadata { num_shards, shard_sizes: sizes_v, shard_names: names_v, version }, ok))
}

/// Find the first `{` in the buffer.
fn find_first_brace(data: &[u8]) -> (r: Option<usize>)
    ensures
        match r {
            Some(i) => first_open_brace(data@, 0) == Some(i as int) && i < data@.len(),
            None => first_open_brace(data@, 0) is None,
        },
{
    let mut i: usize = 0;
    while i < data.len()
        invariant
            i <= data@.len(),
            first_open_brace(data@, 0) == first_open_brace(data@, i as int),
        decreases data@.len() - i,
    {
        if data[i] == 123 {
            return Some(i);
        }
        i += 1;
    }
    None
}

/// Find the last `}` in the buffer.
fn find_last_brace(data: &[u8]) -> (r: Option<usize>)
    ensures
        match r {
            Some(i) => last_close_brace(data@, data@.len() - 1) == Some(i as int) && i
                < data@.len(),
            None => last_close_brace(data@, data@.len() - 1) is None,
        },
{
    let mut i: usize = data.len();
    while i > 0
        invariant
            i <= data@.len(),
            last_close_brace(data@, data@.len() - 1) == last_close_brace(data@, i - 1),
        decreases i,
    {
        if data[i - 1] == 125 {
            return Some(i - 1);
        }
        i -= 1;
    }
    None
}

// ---------------------------------------------------------------------
// The round trip: canonical bytes parse back to the record they encode.
// ---------------------------------------------------------------------

/// 10 to the power `n`.
pub open spec fn pow10(n: nat) -> nat
    decreases n,
{
    if n == 0 {
        1
    } else {
        10 * pow10((n - 1) as nat)
    }
}

/// The number a digit string denotes, most significant digit first.
pub open spec fn digits_val(ds: Seq<u8>) -> nat
    decreases ds.len(),
{
    if ds.len() == 0 {
        0
    } else {
        (digits_val(ds.drop_last()) * 10 + (ds.last() - 48)) as nat
    }
}

pub open spec fn all_digits(ds: Seq<u8>) -> bool {
    forall|k: int| 0 <= k < ds.len() ==> is_digit(#[trigger] ds[k])
}

proof fn lemma_sub_index(s: Seq<u8>, i: int, q: Seq<u8>, t: int)
    requires
        0 <= i,
        i + q.len() <= s.len(),
        s.subrange(i, i + q.len()) == q,
        0 <= t < q.len(),
    ensures
        s[i + t] == q[t],
{
    assert(s.subrange(i, i + q.len() as int)[t] == s[i + t]);
}

proof fn lemma_dec_digits_props(n: nat)
    ensures
        dec_digits(n).len() >= 1,
        all_digits(dec_digits(n)),
        digits_val(dec_digits(n)) == n,
    decreases n,
{
    if n < 10 {
        let ds = dec_digits(n);
        assert(ds.drop_last() =~= Seq::empty());
        assert(ds[0] == (48 + n) as u8);
        assert(is_digit(ds[0]));
        assert(digits_val(Seq::<u8>::empty()) == 0);
        assert(digits_val(ds) == (digits_val(ds.drop_last()) * 10 + (ds.last() - 48)) as nat);
    } else {
        lemma_dec_digits_props(n / 10);
        let ds = dec_digits(n);
        let dl = dec_digits(n / 10);
        assert(ds.drop_last() =~= dl);
        lemma_fundamental_div_mod(n as int, 10);
        assert(ds.last() == (48 + n % 10) as u8);
        assert forall|k: int| 0 <= k < ds.len() implies is_digit(#[trigger] ds[k]) by {
            if k < ds.len() - 1 {
                assert(ds[k] == dl[k]);
            } else {
                assert(ds[k] == ds.last());
            }
        }
        assert(digits_val(ds) == digits_val(dl) * 10 + (ds.last() - 48));
    }
}

proof fn lemma_digits_val_front(ds: Seq<u8>)
    requires
        ds.len() >= 1,
        all_digits(ds),
    ensures
        digits_val(ds) == (ds[0] - 48) * pow10((ds.len() - 1) as nat) + digits_val(
            ds.drop_first(),
        ),
    decreases ds.len(),
{
    if ds.len() == 1 {
        assert(ds.drop_first() =~= Seq::empty());
        assert(ds.drop_last() =~= Seq::empty());
        assert(digits_val(Seq::<u8>::empty()) == 0);
        assert(digits_val(ds) == (digits_val(ds.drop_last()) * 10 + (ds.last() - 48)) as nat);
        assert(ds.last() == ds[0]);
        assert(pow10(0) == 1);
    } else {
        let dl = ds.drop_last();
        lemma_digits_val_front(dl);
        assert(dl.drop_first() =~= ds.drop_first().drop_last());
        let p = pow10((ds.len() - 2) as nat) as int;
        let d0 = ds[0] - 48;
        assert(digits_val(ds) == digits_val(dl) * 10 + (ds.last() - 48));
        assert(digits_val(dl) == d0 * p + digits_val(ds.drop_first().drop_last()));
        assert((d0 * p + digits_val(ds.drop_first().drop_last()) as int) * 10 == d0 * (10 * p)
            + digits_val(ds.drop_first().drop_last()) * 10) by (nonlinear_arith);
        assert(pow10((ds.len() - 1) as nat) == 10 * pow10((ds.len() - 2) as nat));
        assert(pow10((ds.len() - 1) as nat) as int == 10 * p);
        assert(ds.drop_first().last() == ds.last());
        assert(digits_val(ds.drop_first()) == digits_val(ds.drop_first().drop_last()) * 10 + (
        ds.last() - 48));
        assert(digits_val(ds) == d0 * (10 * p) + (digits_val(ds.drop_first().drop_last()) * 10 + (
        ds.last() - 48)));
    }
}

/// Scanning a digit run that ends before `j` accumulates its value.
proof fn lemma_scan_digit_run(s: Seq<u8>, i: int, acc: nat, j: int)
    requires
        0 <= i <= j <= s.len(),
        forall|k: int| i <= k < j ==> is_digit(#[trigger] s[k]),
        j == s.len() || !is_digit(s[j]),
    ensures
        scan_nat(s, i, acc) == ((acc * pow10((j - i) as nat) + digits_val(
            s.subrange(i, j),
        )) as nat, j),
    decreases j - i,
{
    if i == j {
        assert(s.subrange(i, j) =~= Seq::empty());
        assert(acc * pow10(0) == acc * 1) by (nonlinear_arith)
            requires
                pow10(0) == 1,
        ;
    } else {
        let d0 = (s[i] - 48) as nat;
        lemma_scan_digit_run(s, i + 1, acc * 10 + d0, j);
        let ds = s.subrange(i, j);
        assert(all_digits(ds));
        lemma_digits_val_front(ds);
        assert(ds.drop_first() =~= s.subrange(i + 1, j));
        let p = pow10((j - i - 1) as nat) as int;
        assert((acc * 10 + d0) * p == acc * (10 * p) + d0 * p) by (nonlinear_arith);
        assert(pow10((j - i) as nat) == 10 * p);
    }
}

/// Scanning name bytes stops at the first byte that is not one.
proof fn lemma_scan_name_run(s: Seq<u8>, a: int, b: int)
    requires
        0 <= a <= b <= s.len(),
        forall|k: int| a <= k < b ==> is_name_byte(#[trigger] s[k]),
        b == s.len() || !is_name_byte(s[b]),
    ensures
        scan_name(s, a) == b,
    decreases b - a,
{
    if a < b {
        lemma_scan_name_run(s, a + 1, b);
    }
}

/// Whether a name can stand in a quoted JSON string as it is: its
/// encoded bytes are all printable ASCII, with no quote and no
/// backslash among them. Every canonical slot name is of this form.
pub open spec fn plain_name(name: Seq<char>) -> bool {
    forall|k: int|
        0 <= k < encode_utf8(name).len() ==> is_name_byte(#[trigger] encode_utf8(name)[k])
}

/// A quoted plain name at `i` parses to its bytes.
proof fn lemma_parse_quoted(s: Seq<u8>, i: int, name: Seq<char>)
    requires
        plain_name(name),
        0 <= i,
        i + quoted(name).len() <= s.len(),
        s.subrange(i, i + quoted(name).len()) == quoted(name),
    ensures
        parse_string(s, i) == Some((encode_utf8(name), i + quoted(name).len())),
{
    let enc = encode_utf8(name);
    let q = quoted(name);
    assert(q.len() == enc.len() + 2);
    lemma_sub_index(s, i, q, 0);
    assert(q[0] == 34);
    assert forall|k: int| i + 1 <= k < i + 1 + enc.len() implies is_name_byte(
        #[trigger] s[k],
    ) by {
        lemma_sub_index(s, i, q, k - i);
        assert(q[k - i] == enc[k - i - 1]);
    }
    lemma_sub_index(s, i, q, 1 + enc.len() as int);
    assert(q[1 + enc.len() as int] == 34);
    assert(!is_name_byte(34));
    lemma_scan_name_run(s, i + 1, i + 1 + enc.len());
    assert forall|tt: int| 0 <= tt < enc.len() implies s.subrange(
        i + 1,
        i + 1 + enc.len(),
    )[tt] == enc[tt] by {
        lemma_sub_index(s, i, q, 1 + tt);
        assert(q[1 + tt] == enc[tt]);
    }
    assert(s.subrange(i + 1, i + 1 + enc.len()) =~= enc);
}

/// A serialized size list at `i`, terminated by `]`, parses to the sizes.
proof fn lemma_parse_sizes(s: Seq<u8>, i: int, sizes: Seq<usize>)
    requires
        sizes.len() >= 1,
        0 <= i,
        i + sizes_json(sizes).len() < s.len(),
        s.subrange(i, i + sizes_json(sizes).len()) == sizes_json(sizes),
        s[i + sizes_json(sizes).len()] == 93,
    ensures
        parse_nat_list(s, i) matches Some((ns, j)) && j == i + sizes_json(sizes).len() && ns.len()
            == sizes.len() && (forall|k: int|
            0 <= k < sizes.len() ==> #[trigger] ns[k] == sizes[k] as nat),
    decreases sizes.len(),
{
    let sj = sizes_json(sizes);
    let d0 = dec_digits(sizes[0] as nat);
    lemma_dec_digits_props(sizes[0] as nat);
    if sizes.len() == 1 {
        assert(sj == d0);
        assert forall|k: int| i <= k < i + d0.len() implies is_digit(#[trigger] s[k]) by {
            assert(s[k] == sj[k - i]);
        }
        assert(!is_digit(93));
        lemma_scan_digit_run(s, i, 0, i + d0.len());
        assert(s.subrange(i, i + d0.len()) =~= d0);
        assert(0 * pow10(d0.len()) == 0) by (nonlinear_arith);
        assert(parse_nat(s, i) == Some(((sizes[0] as nat), i + d0.len())));
        assert(s[i + d0.len()] == 93);
        assert(parse_nat_list(s, i) == Some((seq![sizes[0] as nat], i + d0.len())));
        assert(seq![sizes[0] as nat][0] == sizes[0] as nat);
    } else {
        lemma_sizes_json_front(sizes);
        let rest_j = sizes_json(sizes.drop_first());
        assert(sj == d0 + seq![44u8] + rest_j);
        assert forall|k: int| i <= k < i + d0.len() implies is_digit(#[trigger] s[k]) by {
            assert(s[k] == sj[k - i]);
            assert(sj[k - i] == d0[k - i]);
        }
        assert(s[i + d0.len()] == sj[d0.len() as int]);
        assert(sj[d0.len() as int] == 44);
        assert(!is_digit(44));
        lemma_scan_digit_run(s, i, 0, i + d0.len());
        assert(s.subrange(i, i + d0.len()) =~= d0);
        assert(0 * pow10(d0.len()) == 0) by (nonlinear_arith);
        assert(parse_nat(s, i) == Some(((sizes[0] as nat), i + d0.len())));
        let i2 = i + d0.len() + 1;
        assert(s.subrange(i2, i2 + rest_j.len()) =~= rest_j) by {
            assert forall|k: int| 0 <= k < rest_j.len() implies s.subrange(
                i2,
                i2 + rest_j.len(),
            )[k] == rest_j[k] by {
                assert(s[i2 + k] == sj[d0.len() + 1 + k]);
                assert(sj[d0.len() + 1 + k] == rest_j[k]);
            }
        }
        lemma_parse_sizes(s, i2, sizes.drop_first());
        let rest_ns = parse_nat_list(s, i2)->Some_0.0;
        assert(parse_nat_list(s, i) == Some(
            (seq![sizes[0] as nat] + rest_ns, i2 + rest_j.len()),
        ));
        assert forall|k: int|
            0 <= k < sizes.len() implies #[trigger] (seq![sizes[0] as nat] + rest_ns)[k]
            == sizes[k] as nat by {
            if k > 0 {
                assert(rest_ns[k - 1] == sizes.drop_first()[k - 1] as nat);
            }
        }
    }
}

proof fn lemma_sizes_json_front(sizes: Seq<usize>)
    requires
        sizes.len() >= 2,
    ensures
        sizes_json(sizes) == dec_digits(sizes[0] as nat) + seq![44u8] + sizes_json(
            sizes.drop_first(),
        ),
    decreases sizes.len(),
{
    if sizes.len() == 2 {
        assert(sizes.drop_last() =~= sizes.take(1));
        assert(sizes.take(1).drop_last() =~= Seq::empty());
        assert(sizes_json(sizes.take(1)) == dec_digits(sizes[0] as nat));
        assert(sizes.drop_first() =~= seq![sizes[1]]);
        assert(sizes_json(seq![sizes[1]]) == dec_digits(sizes[1] as nat));
    } else {
        let dl = sizes.drop_last();
        lemma_sizes_json_front(dl);
        assert(dl.drop_first() =~= sizes.drop_first().drop_last());
        assert(sizes.drop_first().last() == sizes.last());
        assert(sizes_json(sizes) == sizes_json(dl) + seq![44u8] + dec_digits(
            sizes.last() as nat,
        ));
        assert(sizes_json(sizes.drop_first()) == sizes_json(sizes.drop_first().drop_last())
            + seq![44u8] + dec_digits(sizes.last() as nat));
        assert(dec_digits(sizes[0] as nat) + seq![44u8] + (sizes_json(
            sizes.drop_first().drop_last(),
        ) + seq![44u8] + dec_digits(sizes.last() as nat)) =~= (dec_digits(sizes[0] as nat)
            + seq![44u8] + sizes_json(sizes.drop_first().drop_last())) + seq![44u8] + dec_digits(
            sizes.last() as nat,
        ));
    }
}

proof fn lemma_names_json_front(names: Seq<String>)
    requires
        names.len() >= 2,
    ensures
        names_json(names) == quoted(names[0]@) + seq![44u8] + names_json(names.drop_first()),
    decreases names.len(),
{
    if names.len() == 2 {
        assert(names.drop_last() =~= names.take(1));
        assert(names.take(1).drop_last() =~= Seq::empty());
        assert(names_json(names.take(1)) == quoted(names[0]@));
        assert(names.drop_first() =~= seq![names[1]]);
        assert(names_json(seq![names[1]]) == quoted(names[1]@));
    } else {
        let dl = names.drop_last();
        lemma_names_json_front(dl);
        assert(dl.drop_first() =~= names.drop_first().drop_last());
        assert(names.drop_first().last() == names.last());
        assert(names_json(names) == names_json(dl) + seq![44u8] + quoted(names.last()@));
        assert(names_json(names.drop_first()) == names_json(names.drop_first().drop_last())
            + seq![44u8] + quoted(names.last()@));
        assert(quoted(names[0]@) + seq![44u8] + (names_json(names.drop_first().drop_last())
            + seq![44u8] + quoted(names.last()@)) =~= (quoted(names[0]@) + seq![44u8]
            + names_json(names.drop_first().drop_last())) + seq![44u8] + quoted(names.last()@));
    }
}

/// A serialized name list at `i`, terminated by `]`, parses to the names'
/// byte forms.
proof fn lemma_parse_names(s: Seq<u8>, i: int, names: Seq<String>)
    requires
        names.len() >= 1,
        forall|k: int| 0 <= k < names.len() ==> plain_name(#[trigger] names[k]@),
        0 <= i,
        i + names_json(names).len() < s.len(),
        s.subrange(i, i + names_json(names).len()) == names_json(names),
        s[i + names_json(names).len()] == 93,
    ensures
        parse_name_list(s, i) matches Some((bss, j)) && j == i + names_json(names).len()
            && bss.len() == names.len() && (forall|k: int|
            0 <= k < names.len() ==> #[trigger] bss[k] == encode_utf8(names[k]@)),
    decreases names.len(),
{
    let nj = names_json(names);
    let q0 = quoted(names[0]@);
    if names.len() == 1 {
        assert(nj == q0);
        assert(s.subrange(i, i + q0.len()) =~= q0);
        lemma_parse_quoted(s, i, names[0]@);
        assert(s[i + q0.len()] == 93);
        assert(parse_name_list(s, i) == Some((seq![encode_utf8(names[0]@)], i + q0.len())));
        assert(seq![encode_utf8(names[0]@)][0] == encode_utf8(names[0]@));
    } else {
        lemma_names_json_front(names);
        let rest_j = names_json(names.drop_first());
        assert(nj == q0 + seq![44u8] + rest_j);
        assert(s.subrange(i, i + q0.len()) =~= q0) by {
            assert forall|k: int| 0 <= k < q0.len() implies s.subrange(i, i + q0.len())[k]
                == q0[k] by {
                assert(s[i + k] == nj[k]);
                assert(nj[k] == q0[k]);
            }
        }
        lemma_parse_quoted(s, i, names[0]@);
        assert(s[i + q0.len()] == nj[q0.len() as int]);
        assert(nj[q0.len() as int] == 44);
        let i2 = i + q0.len() + 1;
        assert(s.subrange(i2, i2 + rest_j.len()) =~= rest_j) by {
            assert forall|k: int| 0 <= k < rest_j.len() implies s.subrange(
                i2,
                i2 + rest_j.len(),
            )[k] == rest_j[k] by {
                assert(s[i2 + k] == nj[q0.len() + 1 + k]);
                assert(nj[q0.len() + 1 + k] == rest_j[k]);
            }
        }
        lemma_parse_names(s, i2, names.drop_first());
        let rest_bss = parse_name_list(s, i2)->Some_0.0;
        assert(parse_name_list(s, i) == Some(
            (seq![encode_utf8(names[0]@)] + rest_bss, i2 + rest_j.len()),
        ));
        assert forall|k: int|
            0 <= k < names.len() implies #[trigger] (seq![encode_utf8(names[0]@)] + rest_bss)[k]
            == encode_utf8(names[k]@) by {
            if k > 0 {
                assert(rest_bss[k - 1] == encode_utf8(names.drop_first()[k - 1]@));
            }
        }
    }
}

/// The round trip of the metadata codec: the canonical bytes of a record
/// parse back to exactly the record's shape, for every record whose names
/// are plain (as every canonical slot name is).
#[verifier::rlimit(100)]
#[verifier::spinoff_prover]
pub proof fn lemma_metadata_roundtrip(m: KeyMetadata)
    requires
        forall|k: int| 0 <= k < m.shard_names@.len() ==> plain_name(#[trigger] m.shard_names@[k]@),
    ensures
        spec_from_bytes(json_of(m)) matches Some(t) && shape_fits(t) && meta_matches(m, t),
{
    let s = json_of(m);
    let a0 = lit_obj_open();
    let d1 = dec_digits(m.num_shards as nat);
    let a1 = lit_sizes_key();
    let sj = sizes_json(m.shard_sizes@);
    let a2 = lit_names_key();
    let nj = names_json(m.shard_names@);
    let a3 = lit_version_key();
    let d2 = dec_digits(m.version as nat);
    lemma_dec_digits_props(m.num_shards as nat);
    lemma_dec_digits_props(m.version as nat);

    let i1 = a0.len() as int;
    let i2 = i1 + d1.len();
    let i3 = i2 + a1.len();
    let i4 = i3 + sj.len();
    let i5 = i4 + a2.len();
    let i6 = i5 + nj.len();
    let i7 = i6 + a3.len();
    let i8 = i7 + d2.len();
    assert(s.len() == i8 + 1);

    // Where each segment of the encoding lies.
    assert(s.subrange(0, i1) =~= a0);
    assert(s.subrange(i1, i2) =~= d1);
    assert(s.subrange(i2, i3) =~= a1);
    assert(s.subrange(i3, i4) =~= sj);
    assert(s.subrange(i4, i5) =~= a2);
    assert(s.subrange(i5, i6) =~= nj);
    assert(s.subrange(i6, i7) =~= a3);
    assert(s.subrange(i7, i8) =~= d2);
    assert(s[i8] == 125);

    // The opening literal and the shard count.
    assert(expect(s, 0, a0) == Some(i1));
    assert forall|k: int| i1 <= k < i2 implies is_digit(#[trigger] s[k]) by {
        lemma_sub_index(s, i1, d1, k - i1);
    }
    lemma_sub_index(s, i2, a1, 0);
    assert(a1[0] == 44);
    lemma_scan_digit_run(s, i1, 0, i2);
    assert(0 * pow10((i2 - i1) as nat) == 0) by (nonlinear_arith);
    assert(parse_nat(s, i1) == Some(((m.num_shards as nat), i2)));

    // The size-list key and the sizes.
    assert(expect(s, i2, a1) == Some(i3));
    lemma_sub_index(s, i4, a2, 0);
    assert(a2[0] == 93);
    if m.shard_sizes@.len() == 0 {
        assert(sj =~= Seq::<u8>::empty());
        assert(i4 == i3);
        assert(!is_digit(93));
        assert(parse_nat_list(s, i3) is None);
    } else {
        lemma_parse_sizes(s, i3, m.shard_sizes@);
    }

    // The name-list key and the names.
    assert(expect(s, i4, a2) == Some(i5));
    lemma_sub_index(s, i6, a3, 0);
    assert(a3[0] == 93);
    if m.shard_names@.len() == 0 {
        assert(nj =~= Seq::<u8>::empty());
        assert(i6 == i5);
        assert(parse_string(s, i5) is None);
        assert(parse_name_list(s, i5) is None);
    } else {
        lemma_parse_names(s, i5, m.shard_names@);
    }

    // The version key, the version, and the closing brace.
    assert(expect(s, i6, a3) == Some(i7));
    assert forall|k: int| i7 <= k < i8 implies is_digit(#[trigger] s[k]) by {
        lemma_sub_index(s, i7, d2, k - i7);
    }
    assert(!is_digit(125));
    lemma_scan_digit_run(s, i7, 0, i8);
    assert(0 * pow10((i8 - i7) as nat) == 0) by (nonlinear_arith);
    assert(parse_nat(s, i7) == Some(((m.version as nat), i8)));

    assert(parse_meta(s) is Some);

    // The surrounding brace search finds the whole object.
    lemma_sub_index(s, 0, a0, 0);
    assert(s[0] == 123);
    assert(first_open_brace(s, 0) == Some(0int));
    assert(last_close_brace(s, s.len() - 1) == Some(s.len() - 1));
    assert(s.subrange(0, s.len() as int) =~= s);
}

/// Every canonical slot name is plain, so the codec round trip covers
/// every record drawn from the canonical names.
pub proof fn lemma_slot_names_plain(i: int)
    requires
        0 <= i < 8,
    ensures
        plain_name(crate::metadata::spec_slot_name(i)),
{
    reveal_strlit(".key_data_00");
    reveal_strlit(".key_data_01");
    reveal_strlit(".key_data_02");
    reveal_strlit(".key_data_03");
    reveal_strlit(".key_data_04");
    reveal_strlit(".key_data_05");
    reveal_strlit(".key_data_06");
    reveal_strlit(".key_data_07");
    let nm = crate::metadata::spec_slot_name(i);
    assert(vstd::utf8::is_ascii_chars(nm));
    vstd::utf8::is_ascii_chars_encode_utf8(nm);
}


impl KeyMetadata {
    /// Parse a record from the bytes of the metadata section: the bytes
    /// between the first `{` and the last `}` must form the canonical
    /// object, and every number must fit its field. Everything before the
    /// first `{` and after the last `}` is ignored.
    pub fn from_bytes(data: &[u8]) -> (r: Result<KeyMetadata, Error>)
        ensures
            match r {
                Ok(m) => spec_from_bytes(data@) matches Some(t) && shape_fits(t) && meta_matches(
                    m,
                    t,
                ),
                Err(e) => e is Parse && !(spec_from_bytes(data@) matches Some(t) && shape_fits(t)),
            },
    {
        let start = match find_first_brace(data) {
            Some(x) => x,
            None => {
                return Err(Error::Parse("no opening brace in the metadata bytes".to_owned()));
            },
        };
        let end = match find_last_brace(data) {
            Some(x) => x,
            None => {
                return Err(Error::Parse("no closing brace in the metadata bytes".to_owned()));
            },
        };
        if start > end {
            return Err(Error::Parse("the braces delimit no object".to_owned()));
        }
        let dlen = data.len();
        proof {
            assert(end < dlen);
        }
        let body = &data[start..end + 1];
        match parse_meta_exec(body) {
            None => Err(Error::Parse("the metadata bytes are not a canonical record".to_owned())),
            Some((m, true)) => Ok(m),
            Some((_, false)) => Err(
                Error::Parse("a numeric field of the metadata is out of range".to_owned()),
            ),
        }
    }
}

} // verus!


