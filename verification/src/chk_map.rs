//! Search-key derivation for a content-hash-keyed trie.
//!
//! A compound key (an ordered sequence of byte-string components) is joined
//! with NUL separators and hashed with SHA-1; the digest is then encoded
//! either as lowercase hex (16-way fan-out) or with NUL and LF escaped
//! (roughly 255-way fan-out), so the key is safe to embed in NUL/LF-delimited
//! trie pages. A serialized two-component text key can be decoded back into
//! its parts.

use vstd::prelude::*;
use sha1::Digest;

verus! {

/// Length in bytes of the hash digest underlying every search key.
pub const DIGEST_LEN: usize = 20;

/// Error returned when a serialized text key does not contain exactly one
/// NUL separator.
#[derive(Debug, Clone, Copy, PartialEq, Eq, Structural)]
pub struct InvalidKeyError;

/// The components joined with a single NUL byte between consecutive
/// components; no leading or trailing separator.
pub open spec fn nul_join(parts: Seq<Seq<u8>>) -> Seq<u8>
    decreases parts.len(),
{
    if parts.len() == 0 {
        seq![]
    } else if parts.len() == 1 {
        parts[0]
    } else {
        parts[0] + seq![0u8] + nul_join(parts.drop_first())
    }
}

/// The SHA-1 digest of a byte string, as computed by the `sha1` crate.
pub uninterp spec fn sha1_of(data: Seq<u8>) -> Seq<u8>;

/// Relies on `sha1::Sha1` (via `digest::Digest::digest`): the digest is a
/// function of the input bytes alone, and SHA-1 output is 20 bytes.
#[verifier::external_body]
fn sha1_digest(data: &Vec<u8>) -> (r: Vec<u8>)
    ensures
        r@ == sha1_of(data@),
        r@.len() == DIGEST_LEN,
{
    sha1::Sha1::digest(data.as_slice()).to_vec()
}

/// The ASCII code of the lowercase hex digit for a nibble.
pub open spec fn hex_digit(nibble: u8) -> u8 {
    if nibble < 10 {
        (48 + nibble) as u8
    } else {
        (87 + nibble) as u8
    }
}

/// Whether a byte is an ASCII lowercase hex digit (`0`-`9` or `a`-`f`).
pub open spec fn is_hex_char(c: u8) -> bool {
    (48 <= c && c <= 57) || (97 <= c && c <= 102)
}

/// Lowercase hex encoding of a byte string: two digits per byte, high
/// nibble first.
pub open spec fn hex_of(data: Seq<u8>) -> Seq<u8>
    decreases data.len(),
{
    if data.len() == 0 {
        seq![]
    } else {
        seq![hex_digit(data[0] / 16), hex_digit(data[0] % 16)] + hex_of(data.drop_first())
    }
}

/// The 16-way search key: lowercase hex of the digest of the NUL-join.
pub open spec fn spec_derive_key_16(key: Seq<Seq<u8>>) -> Seq<u8> {
    hex_of(sha1_of(nul_join(key)))
}

proof fn lemma_nul_join_push(parts: Seq<Seq<u8>>, part: Seq<u8>)
    requires
        parts.len() > 0,
    ensures
        nul_join(parts.push(part)) == nul_join(parts) + seq![0u8] + part,
    decreases parts.len(),
{
    let pushed = parts.push(part);
    if parts.len() == 1 {
        assert(pushed.drop_first() =~= seq![part]);
        assert(nul_join(pushed.drop_first()) == part);
        assert(pushed[0] == parts[0]);
        assert(nul_join(parts) == parts[0]);
    } else {
        assert(pushed.drop_first() =~= parts.drop_first().push(part));
        lemma_nul_join_push(parts.drop_first(), part);
        assert(nul_join(pushed) == pushed[0] + seq![0u8] + nul_join(pushed.drop_first()));
        assert(nul_join(parts.drop_first().push(part)) == nul_join(parts.drop_first())
            + seq![0u8] + part);
        assert(pushed[0] + seq![0u8] + (nul_join(parts.drop_first()) + seq![0u8] + part)
            =~= (parts[0] + seq![0u8] + nul_join(parts.drop_first())) + seq![0u8] + part);
    }
}

fn append_bytes(out: &mut Vec<u8>, part: &Vec<u8>)
    ensures
        final(out)@ == old(out)@ + part@,
{
    let ghost start = out@;
    let n = part.len();
    let mut j: usize = 0;
    while j < n
        invariant
            n == part@.len(),
            j <= n,
            out@ == start + part@.take(j as int),
        decreases n - j,
    {
        out.push(part[j]);
        assert(start + part@.take(j as int) + seq![part@[j as int]]
            =~= start + part@.take(j + 1));
        j += 1;
    }
    assert(part@.take(n as int) =~= part@);
}

/// The components joined by single NUL bytes.
fn join_components(key: &Vec<Vec<u8>>) -> (r: Vec<u8>)
    ensures
        r@ == nul_join(key.deep_view()),
{
    let ghost parts = key.deep_view();
    let mut out: Vec<u8> = Vec::new();
    let n = key.len();
    let mut i: usize = 0;
    assert(parts.len() == key@.len());
    while i < n
        invariant
            n == key@.len(),
            parts == key.deep_view(),
            parts.len() == n,
            i <= n,
            out@ == nul_join(parts.take(i as int)),
        decreases n - i,
    {
        let ghost before = out@;
        if i > 0 {
            out.push(0u8);
        }
        append_bytes(&mut out, &key[i]);
        proof {
            assert(key@[i as int]@ == parts[i as int]);
            assert(parts.take(i + 1) =~= parts.take(i as int).push(parts[i as int]));
            if i == 0 {
                assert(parts.take(1) =~= seq![parts[0]]);
                assert(nul_join(parts.take(1)) == parts[0]);
                assert(before =~= seq![]);
                assert(out@ =~= parts[0]);
            } else {
                lemma_nul_join_push(parts.take(i as int), parts[i as int]);
                assert(out@ =~= nul_join(parts.take(i as int)) + seq![0u8]
                    + parts[i as int]);
            }
        }
        i += 1;
    }
    proof {
        assert(parts.take(n as int) =~= parts);
    }
    out
}

/// Lowercase hex encoding of a byte string.
fn hex_encode(data: &Vec<u8>) -> (r: Vec<u8>)
    ensures
        r@ == hex_of(data@),
        r@.len() == 2 * data@.len(),
        forall|i: int| 0 <= i < r@.len() ==> is_hex_char(#[trigger] r@[i]),
{
    let mut out: Vec<u8> = Vec::new();
    let n = data.len();
    let mut i: usize = 0;
    while i < n
        invariant
            n == data@.len(),
            i <= n,
            out@ == hex_of(data@.take(i as int)),
            out@.len() == 2 * i,
            forall|k: int| 0 <= k < out@.len() ==> is_hex_char(#[trigger] out@[k]),
        decreases n - i,
    {
        let ghost before = out@;
        let b = data[i];
        let hi = b / 16;
        let lo = b % 16;
        let hi_c: u8 = if hi < 10 { 48 + hi } else { 87 + hi };
        let lo_c: u8 = if lo < 10 { 48 + lo } else { 87 + lo };
        out.push(hi_c);
        out.push(lo_c);
        proof {
            assert(hi_c == hex_digit(data@[i as int] / 16));
            assert(lo_c == hex_digit(data@[i as int] % 16));
            lemma_hex_of_push(data@.take(i as int), data@[i as int]);
            assert(data@.take(i as int).push(data@[i as int]) =~= data@.take(i + 1));
            assert(out@ =~= before + seq![hi_c, lo_c]);
        }
        i += 1;
    }
    proof {
        assert(data@.take(n as int) =~= data@);
    }
    out
}

proof fn lemma_hex_of_push(data: Seq<u8>, b: u8)
    ensures
        hex_of(data.push(b)) == hex_of(data) + seq![hex_digit(b / 16), hex_digit(b % 16)],
    decreases data.len(),
{
    let pushed = data.push(b);
    if data.len() == 0 {
        assert(pushed.drop_first() =~= seq![]);
        assert(pushed[0] == b);
        assert(hex_of(pushed.drop_first()) =~= seq![]);
        assert(hex_of(pushed) =~= seq![hex_digit(b / 16), hex_digit(b % 16)]
            + hex_of(pushed.drop_first()));
        assert(hex_of(pushed) =~= seq![hex_digit(b / 16), hex_digit(b % 16)]);
        assert(hex_of(data) =~= seq![]);
        assert(hex_of(data) + seq![hex_digit(b / 16), hex_digit(b % 16)]
            =~= seq![hex_digit(b / 16), hex_digit(b % 16)]);
    } else {
        assert(pushed.drop_first() =~= data.drop_first().push(b));
        lemma_hex_of_push(data.drop_first(), b);
        assert(pushed[0] == data[0]);
        assert(seq![hex_digit(data[0] / 16), hex_digit(data[0] % 16)]
            + (hex_of(data.drop_first()) + seq![hex_digit(b / 16), hex_digit(b % 16)])
            =~= (seq![hex_digit(data[0] / 16), hex_digit(data[0] % 16)]
                + hex_of(data.drop_first())) + seq![hex_digit(b / 16), hex_digit(b % 16)]);
    }
}

/// First byte of both two-byte escape sequences in the 255-way encoding.
pub const ESCAPE_LEAD: u8 = 92;

/// Second byte of the escape sequence standing for a NUL digest byte.
pub const ESCAPE_NUL: u8 = 48;

/// Second byte of the escape sequence standing for a line-feed digest byte.
pub const ESCAPE_LF: u8 = 110;

/// The encoding of one digest byte in the 255-way key: NUL and LF each
/// become a fixed two-byte escape sequence; every other byte passes through.
pub open spec fn escape_byte(b: u8) -> Seq<u8> {
    if b == 0u8 {
        seq![ESCAPE_LEAD, ESCAPE_NUL]
    } else if b == 10u8 {
        seq![ESCAPE_LEAD, ESCAPE_LF]
    } else {
        seq![b]
    }
}

/// The 255-way encoding of a byte string: each byte escaped independently.
pub open spec fn escaped_of(data: Seq<u8>) -> Seq<u8>
    decreases data.len(),
{
    if data.len() == 0 {
        seq![]
    } else {
        escape_byte(data[0]) + escaped_of(data.drop_first())
    }
}

/// The 255-way search key: the digest of the NUL-join, NUL/LF-escaped.
pub open spec fn spec_derive_key_255(key: Seq<Seq<u8>>) -> Seq<u8> {
    escaped_of(sha1_of(nul_join(key)))
}

proof fn lemma_escaped_of_push(data: Seq<u8>, b: u8)
    ensures
        escaped_of(data.push(b)) == escaped_of(data) + escape_byte(b),
    decreases data.len(),
{
    let pushed = data.push(b);
    if data.len() == 0 {
        assert(pushed.drop_first() =~= seq![]);
        assert(pushed[0] == b);
        assert(escaped_of(pushed.drop_first()) =~= seq![]);
        assert(escaped_of(pushed) =~= escape_byte(b) + escaped_of(pushed.drop_first()));
        assert(escape_byte(b) + seq![] =~= escape_byte(b));
        assert(escaped_of(data) =~= seq![]);
        assert(seq![] + escape_byte(b) =~= escape_byte(b));
        assert(escaped_of(pushed) =~= escape_byte(b));
    } else {
        assert(pushed.drop_first() =~= data.drop_first().push(b));
        lemma_escaped_of_push(data.drop_first(), b);
        assert(pushed[0] == data[0]);
        assert(escape_byte(data[0]) + (escaped_of(data.drop_first()) + escape_byte(b))
            =~= (escape_byte(data[0]) + escaped_of(data.drop_first())) + escape_byte(b));
    }
}

/// The 255-way encoding of a byte string, one linear pass.
fn escape_encode(data: &Vec<u8>) -> (r: Vec<u8>)
    ensures
        r@ == escaped_of(data@),
        data@.len() <= r@.len() <= 2 * data@.len(),
        forall|i: int| 0 <= i < r@.len() ==> #[trigger] r@[i] != 0u8 && r@[i] != 10u8,
{
    let mut out: Vec<u8> = Vec::new();
    let n = data.len();
    let mut i: usize = 0;
    while i < n
        invariant
            n == data@.len(),
            i <= n,
            out@ == escaped_of(data@.take(i as int)),
            i <= out@.len() <= 2 * i,
            forall|k: int| 0 <= k < out@.len() ==> #[trigger] out@[k] != 0u8 && out@[k] != 10u8,
        decreases n - i,
    {
        let ghost before = out@;
        let b = data[i];
        if b == 0u8 {
            out.push(ESCAPE_LEAD);
            out.push(ESCAPE_NUL);
        } else if b == 10u8 {
            out.push(ESCAPE_LEAD);
            out.push(ESCAPE_LF);
        } else {
            out.push(b);
        }
        proof {
            lemma_escaped_of_push(data@.take(i as int), data@[i as int]);
            assert(data@.take(i as int).push(data@[i as int]) =~= data@.take(i + 1));
            assert(out@ =~= before + escape_byte(data@[i as int]));
        }
        i += 1;
    }
    proof {
        assert(data@.take(n as int) =~= data@);
    }
    out
}

/// Derive the 16-way search key for a compound key: the lowercase hex SHA-1
/// digest of the components joined with NUL. Total and deterministic: the
/// result is a function of the component bytes alone, always `2 * DIGEST_LEN`
/// lowercase hex characters.
pub fn derive_key_16(key: &Vec<Vec<u8>>) -> (r: Vec<u8>)
    ensures
        r@ == spec_derive_key_16(key.deep_view()),
        r@.len() == 2 * DIGEST_LEN,
        forall|i: int| 0 <= i < r@.len() ==> is_hex_char(#[trigger] r@[i]),
{
    let joined = join_components(key);
    let digest = sha1_digest(&joined);
    hex_encode(&digest)
}

/// Derive the 255-way search key for a compound key: the SHA-1 digest of the
/// NUL-joined components with NUL and LF bytes escaped. Total and
/// deterministic; the result never contains a NUL or LF byte, so it is safe
/// to delimit with either in a line-oriented page.
pub fn derive_key_255(key: &Vec<Vec<u8>>) -> (r: Vec<u8>)
    ensures
        r@ == spec_derive_key_255(key.deep_view()),
        DIGEST_LEN <= r@.len() <= 2 * DIGEST_LEN,
        forall|i: int| 0 <= i < r@.len() ==> #[trigger] r@[i] != 0u8 && r@[i] != 10u8,
{
    let joined = join_components(key);
    let digest = sha1_digest(&joined);
    escape_encode(&digest)
}

/// The number of NUL bytes in a byte string.
pub open spec fn nul_count(data: Seq<u8>) -> nat
    decreases data.len(),
{
    if data.len() == 0 {
        0
    } else {
        (if data[0] == 0u8 { 1nat } else { 0nat }) + nul_count(data.drop_first())
    }
}

/// The index of the first NUL byte, or the length if there is none.
pub open spec fn first_nul_index(data: Seq<u8>) -> int
    decreases data.len(),
{
    if data.len() == 0 {
        0
    } else if data[0] == 0u8 {
        0
    } else {
        1 + first_nul_index(data.drop_first())
    }
}

/// A byte string holds no NUL exactly when its NUL count is zero.
proof fn lemma_nul_count_zero(data: Seq<u8>)
    ensures
        nul_count(data) == 0 <==> (forall|k: int| 0 <= k < data.len() ==> data[k] != 0u8),
    decreases data.len(),
{
    if data.len() > 0 {
        lemma_nul_count_zero(data.drop_first());
        assert(forall|k: int| 0 <= k < data.drop_first().len()
            ==> data.drop_first()[k] == data[k + 1]);
        if data[0] != 0u8 && nul_count(data.drop_first()) == 0 {
            assert forall|k: int| 0 <= k < data.len() implies data[k] != 0u8 by {
                if k > 0 {
                    assert(data[k] == data.drop_first()[k - 1]);
                }
            }
        }
        if forall|k: int| 0 <= k < data.len() ==> data[k] != 0u8 {
            assert forall|k: int| 0 <= k < data.drop_first().len()
                implies data.drop_first()[k] != 0u8 by {
                assert(data.drop_first()[k] == data[k + 1]);
            }
        }
    }
}

/// NUL counts add over concatenation.
proof fn lemma_nul_count_concat(a: Seq<u8>, b: Seq<u8>)
    ensures
        nul_count(a + b) == nul_count(a) + nul_count(b),
    decreases a.len(),
{
    if a.len() == 0 {
        assert(a + b =~= b);
    } else {
        assert((a + b).drop_first() =~= a.drop_first() + b);
        assert((a + b)[0] == a[0]);
        lemma_nul_count_concat(a.drop_first(), b);
    }
}

/// The first NUL of a NUL-free prefix followed by a NUL stands at the
/// prefix's end.
proof fn lemma_first_nul_at(data: Seq<u8>, i: int)
    requires
        0 <= i < data.len(),
        data[i] == 0u8,
        forall|k: int| 0 <= k < i ==> data[k] != 0u8,
    ensures
        first_nul_index(data) == i,
    decreases i,
{
    if i == 0 {
    } else {
        assert(data[0] != 0u8);
        assert(data.drop_first()[i - 1] == data[i]);
        assert forall|k: int| 0 <= k < i - 1 implies data.drop_first()[k] != 0u8 by {
            assert(data.drop_first()[k] == data[k + 1]);
        }
        lemma_first_nul_at(data.drop_first(), i - 1);
    }
}

/// Splitting a two-component NUL-join recovers the components: a NUL-free
/// `a` and `b` joined as `a + NUL + b` hold exactly one NUL, at index
/// `a.len()`, with `a` before it and `b` after it.
pub proof fn lemma_decode_round_trip(a: Seq<u8>, b: Seq<u8>)
    requires
        forall|k: int| 0 <= k < a.len() ==> a[k] != 0u8,
        forall|k: int| 0 <= k < b.len() ==> b[k] != 0u8,
    ensures
        nul_count(a + seq![0u8] + b) == 1,
        first_nul_index(a + seq![0u8] + b) == a.len() as int,
        (a + seq![0u8] + b).take(a.len() as int) == a,
        (a + seq![0u8] + b).skip(a.len() as int + 1) == b,
{
    let joined = a + seq![0u8] + b;
    lemma_nul_count_zero(a);
    lemma_nul_count_zero(b);
    lemma_nul_count_concat(a + seq![0u8], b);
    lemma_nul_count_concat(a, seq![0u8]);
    assert(nul_count(seq![0u8]) == 1) by {
        reveal_with_fuel(nul_count, 2);
        assert(seq![0u8].drop_first() =~= Seq::<u8>::empty());
    }
    assert(joined[a.len() as int] == 0u8);
    assert forall|k: int| 0 <= k < a.len() implies joined[k] != 0u8 by {
        assert(joined[k] == a[k]);
    }
    lemma_first_nul_at(joined, a.len() as int);
    assert(joined.take(a.len() as int) =~= a);
    assert(joined.skip(a.len() as int + 1) =~= b);
}

/// Decode a serialized text key into its two components.
///
/// Succeeds exactly when the input holds a single NUL byte; the NUL splits
/// the input into the file identifier and the revision identifier, either of
/// which may be empty. Any other NUL count is malformed.
pub fn decode_text_key(key: &Vec<u8>) -> (r: Result<(Vec<u8>, Vec<u8>), InvalidKeyError>)
    ensures
        r.is_ok() <==> nul_count(key@) == 1,
        r matches Ok(parts) ==> {
            &&& parts.0@ == key@.take(first_nul_index(key@))
            &&& parts.1@ == key@.skip(first_nul_index(key@) + 1)
        },
{
    let n = key.len();
    let mut i: usize = 0;
    while i < n && key[i] != 0u8
        invariant
            n == key@.len(),
            i <= n,
            forall|k: int| 0 <= k < i ==> key@[k] != 0u8,
        decreases n - i,
    {
        i += 1;
    }
    if i == n {
        proof {
            lemma_nul_count_zero(key@);
        }
        return Err(InvalidKeyError);
    }
    proof {
        lemma_first_nul_at(key@, i as int);
    }
    let mut j: usize = i + 1;
    while j < n
        invariant
            n == key@.len(),
            i < n,
            key@[i as int] == 0u8,
            forall|k: int| 0 <= k < i ==> key@[k] != 0u8,
            i < j <= n,
            forall|k: int| i < k < j ==> key@[k] != 0u8,
        decreases n - j,
    {
        if key[j] == 0u8 {
            proof {
                lemma_two_nuls(key@, i as int, j as int);
            }
            return Err(InvalidKeyError);
        }
        j += 1;
    }
    proof {
        lemma_one_nul(key@, i as int);
    }
    let mut file_id: Vec<u8> = Vec::new();
    let mut k: usize = 0;
    while k < i
        invariant
            n == key@.len(),
            i < n,
            k <= i,
            file_id@ == key@.take(i as int).take(k as int),
        decreases i - k,
    {
        file_id.push(key[k]);
        proof {
            assert(key@.take(i as int).take(k as int).push(key@[k as int])
                =~= key@.take(i as int).take(k + 1));
        }
        k += 1;
    }
    proof {
        assert(key@.take(i as int).take(i as int) =~= key@.take(i as int));
    }
    let mut revision_id: Vec<u8> = Vec::new();
    let mut m: usize = i + 1;
    while m < n
        invariant
            n == key@.len(),
            i < n,
            i + 1 <= m <= n,
            revision_id@ == key@.skip(i + 1).take(m - i - 1),
        decreases n - m,
    {
        revision_id.push(key[m]);
        proof {
            assert(key@.skip(i + 1)[m - i - 1] == key@[m as int]);
            assert(key@.skip(i + 1).take(m - i - 1).push(key@[m as int])
                =~= key@.skip(i + 1).take(m - i));
        }
        m += 1;
    }
    proof {
        assert(key@.skip(i + 1).take(n - i - 1) =~= key@.skip(i + 1));
    }
    Ok((file_id, revision_id))
}

/// A byte string whose only NUL stands at one index has NUL count one.
proof fn lemma_one_nul(data: Seq<u8>, i: int)
    requires
        0 <= i < data.len(),
        data[i] == 0u8,
        forall|k: int| 0 <= k < data.len() && k != i ==> data[k] != 0u8,
    ensures
        nul_count(data) == 1,
{
    let a = data.take(i);
    let b = data.skip(i + 1);
    assert(data =~= a + seq![0u8] + b);
    lemma_nul_count_concat(a + seq![0u8], b);
    lemma_nul_count_concat(a, seq![0u8]);
    assert(nul_count(seq![0u8]) == 1) by {
        reveal_with_fuel(nul_count, 2);
        assert(seq![0u8].drop_first() =~= Seq::<u8>::empty());
    }
    lemma_nul_count_zero(a);
    lemma_nul_count_zero(b);
    assert forall|k: int| 0 <= k < a.len() implies a[k] != 0u8 by {
        assert(a[k] == data[k]);
    }
    assert forall|k: int| 0 <= k < b.len() implies b[k] != 0u8 by {
        assert(b[k] == data[k + i + 1]);
    }
}

/// Two distinct NUL positions give a NUL count other than one.
proof fn lemma_two_nuls(data: Seq<u8>, i: int, j: int)
    requires
        0 <= i < j < data.len(),
        data[i] == 0u8,
        data[j] == 0u8,
    ensures
        nul_count(data) >= 2,
{
    let a = data.take(j);
    let b = data.skip(j);
    assert(data =~= a + b);
    lemma_nul_count_concat(a, b);
    assert(a[i] == 0u8);
    assert(b[0] == 0u8);
    lemma_nul_count_zero(a);
    lemma_nul_count_zero(b);
}

} // verus!
