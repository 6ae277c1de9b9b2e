use vstd::prelude::*;

use crate::text::{eq_ignore_ascii_case, same_ignoring_ascii_case};

verus! {

/// The 32-byte BLAKE3 digest of `data`.
pub uninterp spec fn blake3_digest(data: Seq<u8>) -> Seq<u8>;

/// Calls `blake3::hash` and returns the bytes of the digest (`Hash::as_bytes`).
/// Trusted: the result is the BLAKE3 digest of `data`, named `blake3_digest`;
/// its length, 32 bytes (`blake3::OUT_LEN`), is fixed by the array type.
#[verifier::external_body]
fn blake3_hash(data: &[u8]) -> (digest: [u8; 32])
    ensures
        digest@ == blake3_digest(data@),
{
    *blake3::hash(data).as_bytes()
}

/// The lower-case hexadecimal digit of a value below 16.
pub open spec fn hex_digit(v: u8) -> char {
    if v < 10 {
        (48 + v) as char
    } else {
        (87 + v) as char
    }
}

/// Lower-case hexadecimal encoding: two digits per byte, high nibble first.
pub open spec fn hex_lower(bytes: Seq<u8>) -> Seq<char>
    decreases bytes.len(),
{
    if bytes.len() == 0 {
        Seq::<char>::empty()
    } else {
        hex_lower(bytes.drop_last()) + seq![
            hex_digit(bytes.last() / 16),
            hex_digit(bytes.last() % 16),
        ]
    }
}

/// `c` is an ASCII hexadecimal digit.
pub open spec fn is_hex_char(c: char) -> bool {
    ('0' <= c <= '9') || ('a' <= c <= 'f') || ('A' <= c <= 'F')
}

/// The encoding has two digits per byte, each a hexadecimal digit.
pub proof fn lemma_hex_lower_shape(bytes: Seq<u8>)
    ensures
        hex_lower(bytes).len() == 2 * bytes.len(),
        forall|i: int| 0 <= i < hex_lower(bytes).len() ==> is_hex_char(#[trigger] hex_lower(bytes)[i]),
    decreases bytes.len(),
{
    if bytes.len() > 0 {
        lemma_hex_lower_shape(bytes.drop_last());
        let prev = hex_lower(bytes.drop_last());
        let h = bytes.last() / 16;
        let l = bytes.last() % 16;
        assert(h < 16 && l < 16);
        assert(is_hex_char(hex_digit(h)));
        assert(is_hex_char(hex_digit(l)));
        let full = hex_lower(bytes);
        assert forall|i: int| 0 <= i < full.len() implies is_hex_char(#[trigger] full[i]) by {
            if i < prev.len() {
                assert(full[i] == prev[i]);
            }
        }
    }
}

/// The lower-case hexadecimal digit of `v`.
fn hex_digit_of(v: u8) -> (c: char)
    requires
        v < 16,
    ensures
        c == hex_digit(v),
{
    if v < 10 {
        (48 + v) as char
    } else {
        (87 + v) as char
    }
}

/// Encodes a digest in lower-case hexadecimal, as `blake3::Hash::to_hex` does.
pub fn digest_hex(digest: &[u8]) -> (hex: String)
    ensures
        hex@ == hex_lower(digest@),
        hex_decode(hex@) == digest@,
{
    proof {
        lemma_hex_roundtrip(digest@);
    }
    let mut hex = String::new();
    let mut i: usize = 0;
    while i < digest.len()
        invariant
            i <= digest@.len(),
            hex@ == hex_lower(digest@.take(i as int)),
        decreases digest.len() - i,
    {
        let b = digest[i];
        hex.push(hex_digit_of(b / 16));
        hex.push(hex_digit_of(b % 16));
        proof {
            let t = digest@.take(i + 1);
            assert(t.drop_last() =~= digest@.take(i as int));
            assert(t.last() == b);
        }
        i = i + 1;
    }
    proof {
        assert(digest@.take(digest@.len() as int) =~= digest@);
    }
    hex
}

/// The BLAKE3 digest of `data` in lower-case hexadecimal: 64 hexadecimal
/// digits.
pub fn generate(data: &[u8]) -> (hex: String)
    ensures
        hex@ == hex_lower(blake3_digest(data@)),
        hex_decode(hex@) == blake3_digest(data@),
        hex@.len() == 64,
        forall|i: int| 0 <= i < hex@.len() ==> is_hex_char(#[trigger] hex@[i]),
{
    let digest = blake3_hash(data);
    proof {
        lemma_hex_lower_shape(digest@);
    }
    digest_hex(digest.as_slice())
}

/// Whether the hexadecimal encoding of `digest` equals `expected` up to ASCII
/// case.
pub fn digest_matches(digest: &[u8], expected: &str) -> (ok: bool)
    ensures
        ok == eq_ignore_ascii_case(hex_lower(digest@), expected@),
{
    let hex = digest_hex(digest);
    same_ignoring_ascii_case(hex.as_str(), expected)
}

/// Whether `data` has the BLAKE3 digest `expected`, written in hexadecimal in
/// either case.
pub fn verify(data: &[u8], expected: &str) -> (ok: bool)
    ensures
        ok == eq_ignore_ascii_case(hex_lower(blake3_digest(data@)), expected@),
{
    let digest = blake3_hash(data);
    digest_matches(digest.as_slice(), expected)
}

/// A text matches itself up to ASCII case.
pub proof fn lemma_eq_ignore_case_refl(s: Seq<char>)
    ensures
        eq_ignore_ascii_case(s, s),
{
}

/// A digest always verifies against its own encoding: what `generate` returns
/// for some bytes, `verify` accepts for the same bytes.
pub proof fn lemma_verify_accepts_generated(data: Seq<u8>)
    ensures
        eq_ignore_ascii_case(hex_lower(blake3_digest(data)), hex_lower(blake3_digest(data))),
{
    lemma_eq_ignore_case_refl(hex_lower(blake3_digest(data)));
}

/// The value of a lower-case hexadecimal digit (`u8::from_str_radix` with
/// radix 16 on one character).
pub open spec fn hex_value(c: char) -> int {
    if '0' <= c <= '9' {
        c as int - '0' as int
    } else if 'a' <= c <= 'f' {
        c as int - 'a' as int + 10
    } else {
        -1
    }
}

/// Reads lower-case hexadecimal back into bytes, two digits per byte, high
/// digit first.
pub open spec fn hex_decode(s: Seq<char>) -> Seq<u8>
    decreases s.len(),
{
    if s.len() < 2 {
        Seq::<u8>::empty()
    } else {
        hex_decode(s.take(s.len() - 2)).push(
            (16 * hex_value(s[s.len() - 2]) + hex_value(s[s.len() - 1])) as u8,
        )
    }
}

/// The digit of a nibble is the nibble's character in `0123456789abcdef`.
pub proof fn lemma_hex_digit_table(v: u8)
    requires
        v < 16,
    ensures
        hex_digit(v) == "0123456789abcdef"@[v as int],
{
    reveal_strlit("0123456789abcdef");
}

/// Distinct nibbles have distinct digits, and each digit reads back as its
/// nibble.
pub proof fn lemma_hex_digit_value(v: u8)
    requires
        v < 16,
    ensures
        hex_value(hex_digit(v)) == v,
{
}

/// Hexadecimal encoding loses nothing: reading it back gives the bytes.
pub proof fn lemma_hex_roundtrip(bytes: Seq<u8>)
    ensures
        hex_decode(hex_lower(bytes)) == bytes,
    decreases bytes.len(),
{
    if bytes.len() > 0 {
        lemma_hex_roundtrip(bytes.drop_last());
        lemma_hex_lower_shape(bytes.drop_last());
        let prev = hex_lower(bytes.drop_last());
        let h = bytes.last() / 16;
        let l = bytes.last() % 16;
        let full = hex_lower(bytes);
        assert(full == prev + seq![hex_digit(h), hex_digit(l)]);
        assert(full.take(full.len() - 2) =~= prev);
        assert(full[full.len() - 2] == hex_digit(h));
        assert(full[full.len() - 1] == hex_digit(l));
        lemma_hex_digit_value(h);
        lemma_hex_digit_value(l);
        assert(16 * h + l == bytes.last());
        assert(bytes.drop_last().push(bytes.last()) =~= bytes);
    }
}

/// Different bytes give different encodings.
pub proof fn lemma_hex_injective(a: Seq<u8>, b: Seq<u8>)
    requires
        hex_lower(a) == hex_lower(b),
    ensures
        a == b,
{
    lemma_hex_roundtrip(a);
    lemma_hex_roundtrip(b);
}

} // verus!
