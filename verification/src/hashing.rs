//! Content addresses: the BLAKE3 digest of a byte string, written in
//! lowercase hexadecimal.

use vstd::prelude::*;

verus! {

/// The 32-byte BLAKE3 digest of `data`, as `blake3::hash` computes it.
pub uninterp spec fn blake3_hash(data: Seq<u8>) -> Seq<u8>;

/// Computes the BLAKE3 digest of `data`.
///
/// Wraps `blake3::hash` and `Hash::as_bytes`: the contract claims that the
/// result is the digest that `blake3::hash` returns for these bytes, and
/// nothing more (the array type fixes its length at 32).
#[verifier::external_body]
pub(crate) fn blake3_digest(data: &[u8]) -> (digest: [u8; 32])
    ensures
        digest@ == blake3_hash(data@),
{
    *blake3::hash(data).as_bytes()
}

/// The lowercase hexadecimal digit for `n`, where `0 <= n < 16`.
pub open spec fn hex_digit(n: int) -> char {
    if n < 10 {
        (48 + n) as char
    } else {
        (87 + n) as char
    }
}

/// `bytes` in lowercase hexadecimal, two digits per byte, high nibble first
/// (the encoding of `blake3::Hash::to_hex`).
pub open spec fn hex_lower(bytes: Seq<u8>) -> Seq<char> {
    Seq::new(
        2 * bytes.len(),
        |i: int|
            if i % 2 == 0 {
                hex_digit(bytes[i / 2] as int / 16)
            } else {
                hex_digit(bytes[i / 2] as int % 16)
            },
    )
}

/// The content address of `data`: its BLAKE3 digest in lowercase hex.
pub open spec fn content_address(data: Seq<u8>) -> Seq<char> {
    hex_lower(blake3_hash(data))
}

fn hex_char(n: u8) -> (c: char)
    requires
        n < 16,
    ensures
        c == hex_digit(n as int),
{
    if n < 10 {
        (48 + n) as char
    } else {
        (87 + n) as char
    }
}

/// Writes `bytes` in lowercase hexadecimal.
pub fn hex_encode(bytes: &[u8]) -> (s: String)
    ensures
        s@ == hex_lower(bytes@),
{
    let mut s = String::new();
    let mut i: usize = 0;
    while i < bytes.len()
        invariant
            i <= bytes@.len(),
            s@ == hex_lower(bytes@.take(i as int)),
        decreases bytes@.len() - i,
    {
        let b = bytes[i];
        crate::text::push_char(&mut s, hex_char(b / 16));
        crate::text::push_char(&mut s, hex_char(b % 16));
        i = i + 1;
        assert(s@ == hex_lower(bytes@.take(i as int))) by {
            let t = bytes@.take(i as int);
            assert forall|j: int| 0 <= j < s@.len() implies s@[j] == hex_lower(t)[j] by {
                assert(j / 2 < i);
                if j < 2 * (i - 1) {
                    assert(bytes@.take(i - 1)[j / 2] == t[j / 2]);
                }
            }
        }
    }
    assert(bytes@.take(bytes@.len() as int) == bytes@);
    s
}

/// The content address of `data`, as a string of 64 lowercase hex digits.
pub fn content_hash(data: &[u8]) -> (h: String)
    ensures
        h@ == content_address(data@),
        h@ == hex_lower(blake3_hash(data@)),
        h@.len() == 64,
{
    let digest = blake3_digest(data);
    hex_encode(&digest)
}

/// Checks that `data` is the chunk that `hash` addresses.
pub fn verify_chunk(hash: &str, data: &[u8]) -> (ok: bool)
    ensures
        ok == (content_address(data@) == hash@),
{
    let computed = content_hash(data);
    let expected = String::from_str(hash);
    computed == expected
}

} // verus!

verus! {

/// A content address is made of lowercase hexadecimal digits only, two per
/// digest byte.
pub proof fn lemma_hex_is_lowercase_digits(bytes: Seq<u8>)
    ensures
        hex_lower(bytes).len() == 2 * bytes.len(),
        forall|i: int|
            0 <= i < hex_lower(bytes).len() ==> {
                let c = #[trigger] hex_lower(bytes)[i];
                ('0' <= c && c <= '9') || ('a' <= c && c <= 'f')
            },
{
    assert forall|i: int| 0 <= i < hex_lower(bytes).len() implies {
        let c = #[trigger] hex_lower(bytes)[i];
        ('0' <= c && c <= '9') || ('a' <= c && c <= 'f')
    } by {
        let b = bytes[i / 2] as int;
        assert(0 <= b / 16 < 16);
        assert(0 <= b % 16 < 16);
    }
}

} // verus!

verus! {

proof fn lemma_hex_digit_injective(a: int, b: int)
    requires
        0 <= a < 16,
        0 <= b < 16,
        hex_digit(a) == hex_digit(b),
    ensures
        a == b,
{
    if a < 10 && b >= 10 {
        assert(((48 + a) as char) as int == 48 + a);
        assert(((87 + b) as char) as int == 87 + b);
    } else if a >= 10 && b < 10 {
        assert(((87 + a) as char) as int == 87 + a);
        assert(((48 + b) as char) as int == 48 + b);
    } else if a < 10 {
        assert(((48 + a) as char) as int == 48 + a);
        assert(((48 + b) as char) as int == 48 + b);
    } else {
        assert(((87 + a) as char) as int == 87 + a);
        assert(((87 + b) as char) as int == 87 + b);
    }
}

/// Hex encoding loses nothing: two byte strings with the same encoding are
/// the same bytes.
pub proof fn lemma_hex_lower_injective(a: Seq<u8>, b: Seq<u8>)
    requires
        hex_lower(a) == hex_lower(b),
    ensures
        a == b,
{
    assert(hex_lower(a).len() == 2 * a.len());
    assert(hex_lower(b).len() == 2 * b.len());
    assert(a.len() == b.len());
    assert forall|k: int| 0 <= k < a.len() implies a[k] == b[k] by {
        assert((2 * k) / 2 == k && (2 * k) % 2 == 0);
        assert((2 * k + 1) / 2 == k && (2 * k + 1) % 2 == 1);
        assert(hex_lower(a)[2 * k] == hex_digit(a[k] as int / 16));
        assert(hex_lower(b)[2 * k] == hex_digit(b[k] as int / 16));
        assert(hex_lower(a)[2 * k + 1] == hex_digit(a[k] as int % 16));
        assert(hex_lower(b)[2 * k + 1] == hex_digit(b[k] as int % 16));
        lemma_hex_digit_injective(a[k] as int / 16, b[k] as int / 16);
        lemma_hex_digit_injective(a[k] as int % 16, b[k] as int % 16);
        assert(a[k] as int == 16 * (a[k] as int / 16) + a[k] as int % 16);
        assert(b[k] as int == 16 * (b[k] as int / 16) + b[k] as int % 16);
    }
    assert(a == b);
}

/// The content address of data is the hex of the BLAKE3 digest of all of
/// it: two byte strings get the same address exactly when their digests are
/// the same, however long they are and wherever they differ.
pub proof fn lemma_content_address_is_whole_digest(d1: Seq<u8>, d2: Seq<u8>)
    ensures
        content_address(d1) == hex_lower(blake3_hash(d1)),
        (content_address(d1) == content_address(d2)) <==> (blake3_hash(d1) == blake3_hash(d2)),
{
    if content_address(d1) == content_address(d2) {
        lemma_hex_lower_injective(blake3_hash(d1), blake3_hash(d2));
    }
}

} // verus!
