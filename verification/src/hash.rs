//! SHA-256 and hexadecimal text.

use crate::text::{digit_char, digit_of};
use sha2::Digest;
use vstd::prelude::*;

verus! {

/// The SHA-256 digest of a byte string.
pub uninterp spec fn sha256_of(bytes: Seq<u8>) -> Seq<u8>;

/// Calls `sha2::Sha256::digest`, the SHA-256 hash of its argument: 32 bytes
/// that are a function of the bytes hashed.
#[verifier::external_body]
fn digest_bytes(bytes: &[u8]) -> (r: [u8; 32])
    ensures
        r@ == sha256_of(bytes@),
{
    sha2::Sha256::digest(bytes).into()
}

/// The SHA-256 digest of a byte string.
pub fn sha256(bytes: &[u8]) -> (r: [u8; 32])
    ensures
        r@ == sha256_of(bytes@),
{
    digest_bytes(bytes)
}

/// Bytes in lowercase hexadecimal, two digits each.
pub open spec fn hex(bytes: Seq<u8>) -> Seq<char>
    decreases bytes.len(),
{
    if bytes.len() == 0 {
        Seq::empty()
    } else {
        hex(bytes.drop_last()).push(digit_char(bytes.last() as int / 16)).push(
            digit_char(bytes.last() as int % 16),
        )
    }
}

/// The first `n` bytes in lowercase hexadecimal.
pub fn hex_string(bytes: &[u8], n: usize) -> (r: String)
    requires
        n <= bytes.len(),
    ensures
        r@ == hex(bytes@.take(n as int)),
{
    let mut out = String::new();
    let mut i: usize = 0;
    while i < n
        invariant
            i <= n <= bytes.len(),
            out@ == hex(bytes@.take(i as int)),
        decreases n - i,
    {
        assert(bytes@.take(i + 1).drop_last() == bytes@.take(i as int));
        assert(bytes@.take(i + 1).last() == bytes@[i as int]);
        out.push(digit_of(bytes[i] / 16));
        out.push(digit_of(bytes[i] % 16));
        i += 1;
    }
    out
}

/// Hexadecimal text has two digits per byte.
pub proof fn lemma_hex_len(bytes: Seq<u8>)
    ensures
        hex(bytes).len() == 2 * bytes.len(),
    decreases bytes.len(),
{
    if bytes.len() > 0 {
        lemma_hex_len(bytes.drop_last());
    }
}

/// Hexadecimal text tells bytes apart.
pub proof fn law_hex_is_injective(a: Seq<u8>, b: Seq<u8>)
    requires
        hex(a) == hex(b),
    ensures
        a == b,
    decreases a.len(),
{
    lemma_hex_len(a);
    lemma_hex_len(b);
    if a.len() > 0 {
        let n = hex(a).len();
        let x = a.last();
        let y = b.last();
        assert(hex(a)[n - 1] == digit_char(x as int % 16));
        assert(hex(b)[n - 1] == digit_char(y as int % 16));
        assert(hex(a)[n - 2] == digit_char(x as int / 16));
        assert(hex(b)[n - 2] == digit_char(y as int / 16));
        lemma_digits_apart(x as int % 16, y as int % 16);
        lemma_digits_apart(x as int / 16, y as int / 16);
        lemma_hex_len(a.drop_last());
        lemma_hex_len(b.drop_last());
        assert(hex(a.drop_last()) =~= hex(a).take(n - 2));
        assert(hex(b.drop_last()) =~= hex(b).take(n - 2));
        law_hex_is_injective(a.drop_last(), b.drop_last());
        assert(a =~= a.drop_last().push(x));
        assert(b =~= b.drop_last().push(y));
    } else {
        assert(a =~= b);
    }
}

proof fn lemma_digits_apart(d: int, e: int)
    requires
        0 <= d < 16,
        0 <= e < 16,
        digit_char(d) == digit_char(e),
    ensures
        d == e,
{
}

/// Each byte gives two digits, the greater one first, in the order of the
/// bytes.
pub proof fn law_hex_goes_byte_by_byte(bytes: Seq<u8>, i: int)
    requires
        0 <= i < bytes.len(),
    ensures
        hex(bytes).len() == 2 * bytes.len(),
        hex(bytes)[2 * i] == digit_char(bytes[i] as int / 16),
        hex(bytes)[2 * i + 1] == digit_char(bytes[i] as int % 16),
        hex(seq![0xc5u8]) == seq!['c', '5'],
    decreases bytes.len(),
{
    lemma_hex_len(bytes);
    lemma_hex_len(bytes.drop_last());
    if i < bytes.len() - 1 {
        law_hex_goes_byte_by_byte(bytes.drop_last(), i);
    }
    let one = seq![0xc5u8];
    assert(one.drop_last() =~= Seq::<u8>::empty());
    assert(hex(one.drop_last()) =~= Seq::<char>::empty());
    assert(hex(one) =~= seq!['c', '5']);
}

} // verus!
