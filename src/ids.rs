//! Message ids: the canonical dashed form, and the compact form that older logs hold.
use crate::text::{chars_of, str_eq};
use vstd::prelude::*;

verus! {

#[verifier::external_type_specification]
#[verifier::external_body]
pub struct ExUuidError(uuid::Error);

#[verifier::external_type_specification]
#[verifier::external_body]
pub struct ExDecodeError(base64::DecodeError);

pub open spec fn hex_digits() -> Seq<char> {
    seq!['0', '1', '2', '3', '4', '5', '6', '7', '8', '9', 'a', 'b', 'c', 'd', 'e', 'f']
}

/// Two lowercase hex digits for each byte.
pub open spec fn hex_of(b: Seq<u8>) -> Seq<char>
    decreases b.len(),
{
    if b.len() == 0 {
        Seq::empty()
    } else {
        hex_of(b.drop_last()) + seq![
            hex_digits()[b.last() as int / 16],
            hex_digits()[b.last() as int % 16],
        ]
    }
}

/// The canonical text of a 16-byte id: 32 lowercase hex digits in groups of 8, 4, 4, 4
/// and 12, joined by dashes.
pub open spec fn hyphenated(b: Seq<u8>) -> Seq<char> {
    hex_of(b.subrange(0, 4)) + seq!['-'] + hex_of(b.subrange(4, 6)) + seq!['-'] + hex_of(
        b.subrange(6, 8),
    ) + seq!['-'] + hex_of(b.subrange(8, 10)) + seq!['-'] + hex_of(b.subrange(10, 16))
}

proof fn lemma_hex_len(b: Seq<u8>)
    ensures
        hex_of(b).len() == 2 * b.len(),
    decreases b.len(),
{
    if b.len() > 0 {
        lemma_hex_len(b.drop_last());
    }
}

/// The canonical text of an id has 36 characters.
pub proof fn lemma_hyphenated_len(b: Seq<u8>)
    requires
        b.len() == 16,
    ensures
        hyphenated(b).len() == 36,
{
    lemma_hex_len(b.subrange(0, 4));
    lemma_hex_len(b.subrange(4, 6));
    lemma_hex_len(b.subrange(6, 8));
    lemma_hex_len(b.subrange(8, 10));
    lemma_hex_len(b.subrange(10, 16));
}

/// Whether `s` is the canonical text of some id.
pub open spec fn is_canonical_id(s: Seq<char>) -> bool {
    exists|b: Seq<u8>| b.len() == 16 && #[trigger] hyphenated(b) == s
}

/// The bytes that the URL-safe base64 text `s`, without padding, decodes to; `None` where
/// it is not such a text.
pub uninterp spec fn base64_url_decoded(s: Seq<char>) -> Option<Seq<u8>>;

/// Relies on base64's `URL_SAFE_NO_PAD` engine: `decode` depends on the text alone.
#[verifier::external_body]
fn decode_base64(s: &str) -> (r: Result<Vec<u8>, base64::DecodeError>)
    ensures
        match r {
            Ok(b) => base64_url_decoded(s@) == Some(b@),
            Err(_) => base64_url_decoded(s@) is None,
        },
{
    base64::Engine::decode(&base64::engine::general_purpose::URL_SAFE_NO_PAD, s)
}

/// The URL-safe base64 text, without padding, of the bytes `b`.
pub uninterp spec fn base64_url_encoded(b: Seq<u8>) -> Seq<char>;

/// Relies on base64's `URL_SAFE_NO_PAD` engine: `encode` depends on the bytes alone.
#[verifier::external_body]
fn encode_base64(b: &[u8]) -> (r: String)
    requires
        b@.len() == 16,
    ensures
        r@ == base64_url_encoded(b@),
{
    base64::Engine::encode(&base64::engine::general_purpose::URL_SAFE_NO_PAD, b)
}

/// Relies on `uuid::Uuid::try_parse` and `as_bytes`: the canonical text of an id reads back
/// as its bytes.
#[verifier::external_body]
fn uuid_bytes(s: &str) -> (r: Result<Vec<u8>, uuid::Error>)
    ensures
        r is Ok ==> r->Ok_0@.len() == 16,
        forall|bytes: Seq<u8>|
            bytes.len() == 16 && #[trigger] hyphenated(bytes) == s@ ==> r is Ok && r->Ok_0@
                == bytes,
{
    uuid::Uuid::try_parse(s).map(|u| u.as_bytes().to_vec())
}

/// Relies on `uuid::Uuid::from_slice`, which takes exactly 16 bytes, and on the `Display`
/// of `Uuid`, which writes them hyphenated in lowercase hex.
#[verifier::external_body]
fn uuid_text(b: &[u8]) -> (r: Result<String, uuid::Error>)
    ensures
        r is Ok <==> b@.len() == 16,
        r matches Ok(s) ==> s@ == hyphenated(b@),
{
    uuid::Uuid::from_slice(b).map(|u| u.to_string())
}

/// Relies on `uuid::Uuid::new_v4`, a random id, and on its `Display` (hyphenated hex).
#[verifier::external_body]
pub(crate) fn fresh_id() -> (r: String)
    ensures
        is_canonical_id(r@),
{
    uuid::Uuid::new_v4().to_string()
}

/// Why an id could not be brought to its canonical form.
#[derive(Debug, PartialEq, Eq, Structural)]
pub enum IdError {
    /// The text is not URL-safe base64 without padding.
    Encoding,
    /// It decodes, but not to 16 bytes.
    Length,
}

/// The canonical form of `id`: as it is when it has 36 characters, else decoded from its
/// compact base64 form.
pub open spec fn repaired_id(id: Seq<char>) -> Result<Seq<char>, IdError> {
    if id.len() == 36 {
        Ok(id)
    } else {
        match base64_url_decoded(id) {
            None => Err(IdError::Encoding),
            Some(b) => id_from_bytes_spec(b),
        }
    }
}

pub open spec fn id_from_bytes_spec(b: Seq<u8>) -> Result<Seq<char>, IdError> {
    if b.len() == 16 {
        Ok(hyphenated(b))
    } else {
        Err(IdError::Length)
    }
}

pub open spec fn result_text(r: Result<String, IdError>) -> Result<Seq<char>, IdError> {
    match r {
        Ok(s) => Ok(s@),
        Err(e) => Err(e),
    }
}

/// The canonical text of the id whose bytes are `b`.
pub fn id_from_bytes(b: &[u8]) -> (r: Result<String, IdError>)
    ensures
        result_text(r) == id_from_bytes_spec(b@),
{
    match uuid_text(b) {
        Ok(s) => Ok(s),
        Err(_) => Err(IdError::Length),
    }
}

/// Brings an id to its canonical form; see `repaired_id`.
pub fn repair_id(id: &str) -> (r: Result<String, IdError>)
    ensures
        result_text(r) == repaired_id(id@),
{
    let cs = chars_of(id);
    if cs.len() == 36 {
        return Ok(id.to_owned());
    }
    match decode_base64(id) {
        Ok(bytes) => id_from_bytes(bytes.as_slice()),
        Err(_) => Err(IdError::Encoding),
    }
}

/// The tags whose values are message ids.
pub open spec fn id_key(k: Seq<char>) -> bool {
    k == "id"@ || k == "reply-parent-msg-id"@ || k == "reply-thread-parent-msg-id"@
}

/// The compact form of an id in canonical form: its 16 bytes in URL-safe base64 without
/// padding. Any other text has none.
pub fn compact_id(text: &str) -> (r: Option<String>)
    ensures
        r is Some <==> is_canonical_id(text@),
        forall|b: Seq<u8>|
            b.len() == 16 && #[trigger] hyphenated(b) == text@ ==> (r matches Some(e) && e@
                == base64_url_encoded(b)),
{
    let cs = chars_of(text);
    if cs.len() != 36 {
        assert forall|b: Seq<u8>| b.len() == 16 implies #[trigger] hyphenated(b) != text@ by {
            lemma_hyphenated_len(b);
        }
        return None;
    }
    match uuid_bytes(text) {
        Ok(bytes) => match uuid_text(bytes.as_slice()) {
            Ok(canonical) => {
                if str_eq(canonical.as_str(), text) {
                    Some(encode_base64(bytes.as_slice()))
                } else {
                    None
                }
            },
            Err(_) => None,
        },
        Err(_) => None,
    }
}

} // verus!
