//! The content hash: SHA-256 of the UTF-8 bytes of a text, in lowercase hex.
use vstd::prelude::*;
use vstd::string::StringSliceAdditionalSpecFns;
use vstd::utf8::encode_utf8;
use crate::text::{hex_char, hex_text, lower_hex};

verus! {

/// The SHA-256 digest of `data`, as the sha2 crate computes it.
pub uninterp spec fn sha256_digest(data: Seq<u8>) -> Seq<u8>;

/// SHA-256 of `data` with the sha2 crate (`Sha256::digest`).
/// Trusted: the result is the digest named `sha256_digest` of the input
/// bytes, and it is 32 bytes long (the output size of `Sha256`).
#[verifier::external_body]
fn sha256(data: &[u8]) -> (digest: Vec<u8>)
    ensures
        digest@ == sha256_digest(data@),
        digest@.len() == 32,
{
    <sha2::Sha256 as sha2::Digest>::digest(data).to_vec()
}

/// The content hash of a text: the lowercase hex SHA-256 of its UTF-8 bytes.
pub open spec fn content_hash_text(text: Seq<char>) -> Seq<char> {
    hex_text(sha256_digest(encode_utf8(text)))
}

/// The text is 64 lowercase hexadecimal digits.
pub open spec fn is_lower_hex_64(h: Seq<char>) -> bool {
    &&& h.len() == 64
    &&& forall|i: int| 0 <= i < h.len() ==> ('0' <= #[trigger] h[i] <= '9' || 'a' <= h[i] <= 'f')
}

/// A digest of 32 bytes is written as 64 lowercase hexadecimal digits.
pub proof fn lemma_hex_of_32_bytes(bytes: Seq<u8>)
    requires
        bytes.len() == 32,
    ensures
        is_lower_hex_64(hex_text(bytes)),
{
    let h = hex_text(bytes);
    assert forall|i: int| 0 <= i < h.len() implies ('0' <= #[trigger] h[i] <= '9' || 'a' <= h[i]
        <= 'f') by {
        let b = bytes[i / 2];
        let d = if i % 2 == 0 {
            b / 16
        } else {
            b % 16
        };
        assert(0 <= d < 16);
        assert(h[i] == hex_char(d as int));
    }
}

/// Distinct hexadecimal digits are written differently.
proof fn lemma_hex_char_injective(x: int, y: int)
    requires
        0 <= x < 16,
        0 <= y < 16,
        hex_char(x) == hex_char(y),
    ensures
        x == y,
{
    let cx: int = if x < 10 { x + 48 } else { x + 87 };
    let cy: int = if y < 10 { y + 48 } else { y + 87 };
    assert(hex_char(x) as int == cx);
    assert(hex_char(y) as int == cy);
}

/// Equal hexadecimal texts come from equal bytes.
pub proof fn lemma_hex_text_injective(a: Seq<u8>, b: Seq<u8>)
    requires
        hex_text(a) == hex_text(b),
    ensures
        a == b,
{
    assert(hex_text(a).len() == 2 * a.len());
    assert forall|i: int| 0 <= i < a.len() implies a[i] == b[i] by {
        let j = 2 * i;
        let k = 2 * i + 1;
        assert(j / 2 == i && j % 2 == 0);
        assert(k / 2 == i && k % 2 == 1);
        assert(hex_text(a)[j] == hex_char((a[i] / 16) as int));
        assert(hex_text(b)[j] == hex_char((b[i] / 16) as int));
        assert(hex_text(a)[k] == hex_char((a[i] % 16) as int));
        assert(hex_text(b)[k] == hex_char((b[i] % 16) as int));
        lemma_hex_char_injective((a[i] / 16) as int, (b[i] / 16) as int);
        lemma_hex_char_injective((a[i] % 16) as int, (b[i] % 16) as int);
    }
    assert(a =~= b);
}

/// Two texts have the same content hash exactly when they are the same text,
/// provided SHA-256 does not collide on their UTF-8 bytes (equal digests
/// only of equal bytes).
pub proof fn lemma_content_hash_identifies_text(t1: Seq<char>, t2: Seq<char>)
    requires
        sha256_digest(encode_utf8(t1)) == sha256_digest(encode_utf8(t2)) ==> encode_utf8(t1)
            == encode_utf8(t2),
    ensures
        content_hash_text(t1) == content_hash_text(t2) <==> t1 == t2,
{
    if content_hash_text(t1) == content_hash_text(t2) {
        lemma_hex_text_injective(sha256_digest(encode_utf8(t1)), sha256_digest(encode_utf8(t2)));
        vstd::utf8::encode_utf8_decode_utf8(t1);
        vstd::utf8::encode_utf8_decode_utf8(t2);
    }
}

/// The content hash of `text`.
pub fn content_hash(text: &str) -> (h: String)
    ensures
        h@ == content_hash_text(text@),
        is_lower_hex_64(h@),
{
    let digest = sha256(text.as_bytes());
    let h = lower_hex(digest.as_slice());
    proof {
        lemma_hex_of_32_bytes(digest@);
    }
    h
}

} // verus!
