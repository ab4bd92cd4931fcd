//! Checksummed endpoint checkpoints: one immutable file per public
//! history, named by the digest of the history and holding a body whose
//! digest the envelope records.
use vstd::prelude::*;
use vstd::utf8::encode_utf8;
use vstd::string::StringSliceAdditionalSpecFns;
use crate::digest::{hex_lower_chars, sha256_digest, sha256_hex};
use crate::text::{push_text, str_eq, texts};

verus! {

/// A lower-case hexadecimal digit, as an ASCII byte.
pub open spec fn hex_digit_byte(n: int) -> u8 {
    if n < 10 { (0x30 + n) as u8 } else { (0x61 + n - 10) as u8 }
}

/// One byte of a string's UTF-8 text inside a JSON string: the quote, the
/// backslash and the control bytes are escaped, as `\b`, `\t`, `\n`, `\f`,
/// `\r` or `\u00` and two lower-case hex digits; every other byte stands
/// as it is.
pub open spec fn json_escaped_byte(b: u8) -> Seq<u8> {
    if b == 0x22 {
        seq![0x5cu8, 0x22u8]
    } else if b == 0x5c {
        seq![0x5cu8, 0x5cu8]
    } else if b == 0x08 {
        seq![0x5cu8, 0x62u8]
    } else if b == 0x09 {
        seq![0x5cu8, 0x74u8]
    } else if b == 0x0a {
        seq![0x5cu8, 0x6eu8]
    } else if b == 0x0c {
        seq![0x5cu8, 0x66u8]
    } else if b == 0x0d {
        seq![0x5cu8, 0x72u8]
    } else if b < 0x20 {
        seq![0x5cu8, 0x75u8, 0x30u8, 0x30u8, hex_digit_byte(b as int / 16), hex_digit_byte(b as int % 16)]
    } else {
        seq![b]
    }
}

/// A string as a JSON string: quoted, each byte of its UTF-8 text escaped.
pub open spec fn json_string(s: Seq<char>) -> Seq<u8> {
    seq![0x22u8] + encode_utf8(s).map_values(|b: u8| json_escaped_byte(b)).flatten() + seq![0x22u8]
}

/// The first `n` strings as JSON strings, separated by commas.
pub open spec fn json_items(items: Seq<Seq<char>>, n: int) -> Seq<u8>
    decreases n,
{
    if n <= 0 {
        Seq::empty()
    } else if n == 1 {
        json_string(items[0])
    } else {
        json_items(items, n - 1) + seq![0x2cu8] + json_string(items[n - 1])
    }
}

/// The JSON text of a list of strings, as `serde_json` writes it: the JSON
/// strings between brackets, separated by commas, without white space.
pub open spec fn json_string_list(items: Seq<Seq<char>>) -> Seq<u8> {
    seq![0x5bu8] + json_items(items, items.len() as int) + seq![0x5du8]
}

/// `serde_json::to_vec` on a list of strings: the compact JSON array of the
/// strings, each quoted and escaped byte by byte (see `json_string_list`).
/// Writing a `Vec<String>` into a `Vec<u8>` cannot fail; the empty answer
/// of the error arm is never given.
#[verifier::external_body]
fn json_bytes(items: &Vec<String>) -> (bytes: Vec<u8>)
    ensures
        bytes@ == json_string_list(texts(items@)),
{
    match serde_json::to_vec(items) {
        Ok(bytes) => bytes,
        Err(_) => Vec::new(),
    }
}

/// Endpoint files larger than 512 KiB are refused unread.
pub const ENDPOINT_SIZE_LIMIT: u64 = 524288;

/// The schema of an endpoint envelope.
pub open spec fn endpoint_schema() -> Seq<char> {
    "frozen-response-endpoint-v1"@
}

/// The file name of the endpoint of `history`: the lower-case SHA-256 digest
/// of the history's JSON text, then `.json`.
pub open spec fn endpoint_name(history: Seq<Seq<char>>) -> Seq<char> {
    hex_lower_chars(sha256_digest(json_string_list(history))) + ".json"@
}

/// The file name of the endpoint of `history`.
pub fn endpoint_file_name(history: &Vec<String>) -> (name: String)
    ensures
        name@ == endpoint_name(texts(history@)),
{
    let json = json_bytes(history);
    let mut name = sha256_hex(json.as_slice());
    push_text(&mut name, ".json");
    name
}

/// The digest an envelope records for `body`: the lower-case SHA-256 digest
/// of its UTF-8 bytes.
pub fn endpoint_body_sha256(body: &str) -> (digest: String)
    ensures
        digest@ == hex_lower_chars(sha256_digest(body.spec_bytes())),
{
    sha256_hex(body.as_bytes())
}

/// Whether an endpoint may be written: not over a completed one.
pub fn check_endpoint_save(exists: bool) -> (r: Result<(), String>)
    ensures
        r is Ok <==> !exists,
        r matches Err(e) ==> e@ == "refuse to overwrite completed endpoint"@,
{
    if exists {
        return Err(String::from_str("refuse to overwrite completed endpoint"));
    }
    Ok(())
}

/// Whether an endpoint file of `size` bytes may be read.
pub fn check_endpoint_size(size: u64) -> (r: Result<(), String>)
    ensures
        r is Ok <==> size <= ENDPOINT_SIZE_LIMIT,
        r matches Err(e) ==> e@ == "oversized endpoint checkpoint"@,
{
    if size > ENDPOINT_SIZE_LIMIT {
        return Err(String::from_str("oversized endpoint checkpoint"));
    }
    Ok(())
}

/// Whether a read envelope is intact: it has a body, its schema is the
/// endpoint schema, and its recorded digest is that of the body. Each field
/// is given when the envelope holds it as a string.
pub open spec fn envelope_intact(body: Seq<char>, schema: Option<Seq<char>>, recorded_sha256: Option<Seq<char>>) -> bool {
    &&& schema == Some(endpoint_schema())
    &&& recorded_sha256 == Some(hex_lower_chars(sha256_digest(vstd::utf8::encode_utf8(body))))
}

/// Check a read envelope.
pub fn check_endpoint_envelope(
    body: Option<&str>,
    schema: Option<&str>,
    recorded_sha256: Option<&str>,
) -> (r: Result<(), String>)
    ensures
        body is None ==> (r matches Err(e) && e@ == "missing endpoint body"@),
        body matches Some(b) ==> (r is Ok <==> envelope_intact(
            b@,
            match schema {
                Some(s) => Some(s@),
                None => None,
            },
            match recorded_sha256 {
                Some(s) => Some(s@),
                None => None,
            },
        )),
        body is Some ==> (r matches Err(e) ==> e@ == "endpoint checkpoint checksum mismatch"@),
{
    let b = match body {
        Some(b) => b,
        None => {
            return Err(String::from_str("missing endpoint body"));
        },
    };
    let schema_ok = match schema {
        Some(s) => str_eq(s, "frozen-response-endpoint-v1"),
        None => false,
    };
    let digest = endpoint_body_sha256(b);
    let sha_ok = match recorded_sha256 {
        Some(s) => str_eq(s, digest.as_str()),
        None => false,
    };
    if !schema_ok || !sha_ok {
        return Err(String::from_str("endpoint checkpoint checksum mismatch"));
    }
    Ok(())
}

/// The envelope that a save writes around a body, with the endpoint schema
/// and the body's digest, is intact when it is read back.
pub proof fn law_saved_envelope_is_intact(body: Seq<char>)
    ensures
        envelope_intact(body, Some(endpoint_schema()), Some(hex_lower_chars(sha256_digest(vstd::utf8::encode_utf8(body))))),
{
}

} // verus!
