use vstd::prelude::*;

use crate::index_text::is_word;
use crate::text::{is_space, string_of};

verus! {

/// The SHA-1 digest of `data`, as the `sha1` crate computes it.
pub uninterp spec fn sha1_of(data: Seq<u8>) -> Seq<u8>;

/// `sha1::Sha1::digest` (through the `Digest` trait): the SHA-1 digest of
/// `data`.  Claimed: the result is `sha1_of(data)`, a function of the bytes
/// alone, and it is 20 bytes long (the crate's output size is `U20`).
#[verifier::external_body]
fn sha1_digest(data: &[u8]) -> (d: Vec<u8>)
    ensures
        d@ == sha1_of(data@),
        d@.len() == 20,
{
    <sha1::Sha1 as sha1::Digest>::digest(data).to_vec()
}

/// The lower-case hexadecimal digit for `n` (below 16).
pub open spec fn hex_digit(n: u8) -> char {
    if n < 10 {
        (n + 48) as char
    } else {
        (n + 87) as char
    }
}

/// Lower-case hexadecimal text of `bytes`: two digits per byte, the high
/// half first.
pub open spec fn hex_of(bytes: Seq<u8>) -> Seq<char> {
    Seq::new(
        2 * bytes.len(),
        |i: int|
            if i % 2 == 0 {
                hex_digit(bytes[i / 2] / 16)
            } else {
                hex_digit(bytes[i / 2] % 16)
            },
    )
}

fn digit(n: u8) -> (c: char)
    requires
        n < 16,
    ensures
        c == hex_digit(n),
{
    if n < 10 {
        (n + 48) as char
    } else {
        (n + 87) as char
    }
}

/// Encodes `bytes` as lower-case hexadecimal text.
pub fn hex_encode(bytes: &[u8]) -> (s: String)
    requires
        bytes@.len() * 2 <= usize::MAX,
    ensures
        s@ == hex_of(bytes@),
{
    let mut out: Vec<char> = Vec::new();
    let mut i: usize = 0;
    while i < bytes.len()
        invariant
            i <= bytes.len(),
            bytes@.len() * 2 <= usize::MAX,
            out@.len() == 2 * i,
            forall|j: int| 0 <= j < 2 * i ==> #[trigger] out@[j] == hex_of(bytes@)[j],
        decreases bytes.len() - i,
    {
        let b = bytes[i];
        out.push(digit(b / 16));
        out.push(digit(b % 16));
        i = i + 1;
    }
    assert(out@ =~= hex_of(bytes@));
    string_of(out.as_slice())
}

/// The id of an object: the hexadecimal text of the SHA-1 digest of its
/// content.
pub open spec fn object_id_of(content: Seq<u8>) -> Seq<char> {
    hex_of(sha1_of(content))
}

/// An object id is forty hexadecimal digits, so a non-empty text without
/// white space.
pub proof fn lemma_object_id_is_word(content: Seq<u8>)
    requires
        sha1_of(content).len() == 20,
    ensures
        object_id_of(content).len() == 40,
        is_word(object_id_of(content)),
{
    let id = object_id_of(content);
    assert forall|i: int| 0 <= i < id.len() implies !is_space(#[trigger] id[i]) by {
        let b = sha1_of(content)[i / 2];
        let n: u8 = if i % 2 == 0 { b / 16 } else { b % 16 };
        assert(id[i] == hex_digit(n));
        assert(n < 16);
    }
}

/// The id of an object whose content is `content`.
pub fn object_id(content: &[u8]) -> (id: String)
    ensures
        id@ == object_id_of(content@),
        id@.len() == 40,
        is_word(id@),
{
    let d = sha1_digest(content);
    proof {
        lemma_object_id_is_word(content@);
    }
    hex_encode(d.as_slice())
}

/// The id of an object whose content is the text `text`, stored as UTF-8.
pub fn text_id(text: &str) -> (id: String)
    ensures
        id@ == object_id_of(vstd::utf8::encode_utf8(text@)),
        id@.len() == 40,
        is_word(id@),
{
    object_id(text.as_bytes())
}

} // verus!
