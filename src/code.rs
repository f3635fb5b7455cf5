//! Short codes: the first six bytes of a URL's SHA3-256 digest, in lowercase hex.

use vstd::prelude::*;
use vstd::string::StringSliceAdditionalSpecFns;
use crate::text::string_of;

verus! {

/// Number of digest bytes that make up a short code.
pub const CODE_BYTES: usize = 6;

/// The SHA3-256 digest of a byte sequence.
pub uninterp spec fn sha3_256_of(data: Seq<u8>) -> Seq<u8>;

/// Relies on tiny_keccak's `Sha3::v256`, `Hasher::update` and `Hasher::finalize`:
/// the 32-byte SHA3-256 digest of `data`.
#[verifier::external_body]
fn sha3_256(data: &[u8]) -> (r: Vec<u8>)
    ensures
        r@ == sha3_256_of(data@),
        r@.len() == 32,
{
    let mut hasher = tiny_keccak::Sha3::v256();
    tiny_keccak::Hasher::update(&mut hasher, data);
    let mut out = [0u8; 32];
    tiny_keccak::Hasher::finalize(hasher, &mut out);
    out.to_vec()
}

/// The lowercase hexadecimal digit for a value below 16.
pub open spec fn hex_digit(d: u8) -> char {
    if d < 10 {
        (48 + d) as char
    } else {
        (87 + d) as char
    }
}

/// Each byte as two lowercase hex digits, high nibble first.
pub open spec fn hex_of(b: Seq<u8>) -> Seq<char> {
    Seq::new(
        2 * b.len(),
        |i: int|
            if i % 2 == 0 {
                hex_digit(b[i / 2] / 16)
            } else {
                hex_digit(b[i / 2] % 16)
            },
    )
}

/// The short code of a URL: the hex of the first six bytes of the SHA3-256
/// digest of its UTF-8 encoding.
pub open spec fn code_of(url: Seq<char>) -> Seq<char> {
    hex_of(sha3_256_of(vstd::utf8::encode_utf8(url)).take(CODE_BYTES as int))
}

/// Whether every character of `s` is a lowercase hex digit.
pub open spec fn is_lower_hex(s: Seq<char>) -> bool {
    forall|i: int| 0 <= i < s.len() ==> (('0' <= #[trigger] s[i] && s[i] <= '9') || ('a' <= s[i] && s[i] <= 'f'))
}

fn hex_char(d: u8) -> (c: char)
    requires
        d < 16,
    ensures
        c == hex_digit(d),
{
    if d < 10 {
        (48 + d) as char
    } else {
        (87 + d) as char
    }
}

/// Renders bytes as lowercase hex, two digits per byte.
pub fn hex_encode(b: &[u8]) -> (r: String)
    requires
        b@.len() <= usize::MAX / 2,
    ensures
        r@ == hex_of(b@),
{
    let mut out: Vec<char> = Vec::new();
    let mut i: usize = 0;
    while i < b.len()
        invariant
            i <= b@.len(),
            b@.len() <= usize::MAX / 2,
            out@ =~= hex_of(b@.take(i as int)),
        decreases b@.len() - i,
    {
        let x = b[i];
        out.push(hex_char(x / 16));
        out.push(hex_char(x % 16));
        i = i + 1;
        assert(out@ =~= hex_of(b@.take(i as int)));
    }
    assert(b@.take(i as int) =~= b@);
    string_of(&out)
}

/// The short code of `original_url`: twelve lowercase hex digits taken from
/// its SHA3-256 digest. Total and deterministic.
pub fn shorten_url(original_url: &str) -> (r: String)
    ensures
        r@ == code_of(original_url@),
        r@.len() == 2 * CODE_BYTES,
        is_lower_hex(r@),
{
    let digest = sha3_256(original_url.as_bytes());
    let head = digest.as_slice().split_at(CODE_BYTES).0;
    assert(head@ =~= digest@.take(CODE_BYTES as int));
    let r = hex_encode(head);
    proof { lemma_hex_is_lower(head@); }
    r
}

proof fn lemma_hex_is_lower(b: Seq<u8>)
    ensures
        is_lower_hex(hex_of(b)),
{
    assert forall|i: int| 0 <= i < hex_of(b).len() implies (('0' <= #[trigger] hex_of(b)[i] && hex_of(b)[i] <= '9') || ('a' <= hex_of(b)[i] && hex_of(b)[i] <= 'f')) by {
        let x = b[i / 2];
        assert(x / 16 < 16);
        assert(x % 16 < 16);
    }
}

/// Deriving a code is a function of the URL alone: two derivations of equal
/// URLs give equal codes.
pub proof fn lemma_code_deterministic(u: Seq<char>, v: Seq<char>)
    requires
        u == v,
    ensures
        code_of(u) == code_of(v),
        is_lower_hex(code_of(u)),
{
    lemma_hex_is_lower(sha3_256_of(vstd::utf8::encode_utf8(u)).take(CODE_BYTES as int));
}

} // verus!
