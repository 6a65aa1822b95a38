//! Content hashing: SHA-256 digests, their lowercase hexadecimal form, and
//! case-insensitive comparison against declared hashes.

use vstd::prelude::*;
use vstd::string::StrSliceExecFns;
use vstd::string::StringSliceAdditionalSpecFns;
use sha2::Digest;

verus! {

/// The SHA-256 digest of a byte sequence.  Named, not defined: the digest
/// is computed by an outside implementation and depends on the bytes alone.
pub uninterp spec fn sha256_of(bytes: Seq<u8>) -> Seq<u8>;

/// Relies on sha2::Sha256::digest: the 32-byte SHA-256 digest of the input,
/// a function of the input bytes alone.
#[verifier::external_body]
fn sha256_digest(data: &[u8]) -> (r: Vec<u8>)
    ensures
        r@ == sha256_of(data@),
        r@.len() == 32,
{
    sha2::Sha256::digest(data).to_vec()
}

/// The lowercase hexadecimal digit for a value below sixteen.
pub open spec fn hex_char(n: u8) -> char {
    if n < 10 {
        ((48 + n) as u8) as char
    } else {
        ((87 + n) as u8) as char
    }
}

/// The lowercase hexadecimal rendering of a byte sequence: two digits per
/// byte, high digit first.
pub open spec fn spec_hex_lower(bytes: Seq<u8>) -> Seq<char>
    decreases bytes.len(),
{
    if bytes.len() == 0 {
        Seq::empty()
    } else {
        spec_hex_lower(bytes.drop_last()) + seq![
            hex_char(bytes.last() / 16),
            hex_char(bytes.last() % 16),
        ]
    }
}

/// Relies on hex::encode: the lowercase hexadecimal form of the bytes, two
/// digits for each byte.
#[verifier::external_body]
fn hex_encode(data: &Vec<u8>) -> (r: String)
    ensures
        r@ == spec_hex_lower(data@),
{
    hex::encode(data)
}

/// A character folded to lowercase within the ASCII range.
pub open spec fn lower_char(c: char) -> char {
    if 'A' <= c && c <= 'Z' {
        (((c as u32) + 32) as u8) as char
    } else {
        c
    }
}

/// A character sequence folded to lowercase within the ASCII range.
pub open spec fn ascii_lower(s: Seq<char>) -> Seq<char> {
    s.map_values(|c: char| lower_char(c))
}

/// The lowercase hexadecimal SHA-256 digest of `data`.
pub fn calculate_sha256_bytes(data: &[u8]) -> (r: String)
    ensures
        r@ == spec_hex_lower(sha256_of(data@)),
{
    let digest = sha256_digest(data);
    hex_encode(&digest)
}

/// The lowercase hexadecimal SHA-256 digest of a text's bytes, used to
/// detect unchanged manifest content between refreshes.
pub fn calculate_yaml_hash(content: &str) -> (r: String)
    ensures
        r@ == spec_hex_lower(sha256_of(content.spec_bytes())),
{
    let bytes = content.as_bytes();
    calculate_sha256_bytes(bytes)
}

/// True when `data`'s digest, in lowercase hexadecimal, equals the declared
/// hash compared case-insensitively in the ASCII range.
pub fn verify_sha256_bytes(data: &[u8], expected_hash: &str) -> (r: bool)
    ensures
        r == (spec_hex_lower(sha256_of(data@)) == ascii_lower(expected_hash@)),
{
    let computed = calculate_sha256_bytes(data);
    eq_lowered(computed.as_str(), expected_hash)
}

/// True when `a` equals `b` folded to lowercase.
fn eq_lowered(a: &str, b: &str) -> (r: bool)
    ensures
        r == (a@ == ascii_lower(b@)),
{
    let al = a.unicode_len();
    let bl = b.unicode_len();
    if al != bl {
        proof {
            assert(ascii_lower(b@).len() == b@.len());
        }
        return false;
    }
    let mut i: usize = 0;
    while i < al
        invariant
            i <= al,
            al == a@.len() && al == b@.len(),
            forall|j: int| 0 <= j < i ==> a@[j] == lower_char(b@[j]),
        decreases al - i,
    {
        let ca = a.get_char(i);
        let cb = b.get_char(i);
        let folded = if cb >= 'A' && cb <= 'Z' {
            lower_exec(cb)
        } else {
            cb
        };
        proof {
            assert(folded == lower_char(b@[i as int]));
        }
        if ca != folded {
            proof {
                assert(a@[i as int] != ascii_lower(b@)[i as int]);
            }
            return false;
        }
        i = i + 1;
    }
    proof {
        assert(a@ =~= ascii_lower(b@));
    }
    true
}

/// The lowercase counterpart of an ASCII capital letter.
fn lower_exec(c: char) -> (r: char)
    requires
        'A' <= c && c <= 'Z',
    ensures
        r == lower_char(c),
{
    let u = c as u32;
    let l = (u + 32) as u8;
    l as char
}

} // verus!
