//! The wire protocol shared by every operation.
//!
//! There is a single HTTP endpoint: `POST /` with the operation in the
//! `X-Amz-Target: Kinesis_20131202.<Op>` header, an `application/x-amz-json-1.1` JSON body,
//! and base64-encoded record payloads. Errors carry a `{"__type":..,"message":..}` body.
use crate::json::{fields_view, json_text, lemma_object_view, Json, JsonV};
use crate::text::{push_text, str_eq, strip_prefix, without_prefix};
use base64::engine::general_purpose::STANDARD as B64;
use base64::Engine;
use vstd::prelude::*;
use vstd::string::StringExecFns;
use vstd::utf8::{encode_utf8, is_ascii_chars, is_ascii_chars_encode_utf8};

verus! {

// ---- errors ------------------------------------------------------------------

/// An error as a mathematical value.
pub struct ErrV {
    pub kind: Seq<char>,
    pub message: Seq<char>,
}

/// A typed error: the exception name used in `__type`, and the message.
#[derive(Debug)]
pub struct ApiError {
    pub kind: &'static str,
    pub message: String,
}

impl View for ApiError {
    type V = ErrV;

    open spec fn view(&self) -> ErrV {
        ErrV { kind: self.kind@, message: self.message@ }
    }
}

/// The HTTP status of an error: 500 for a failure of the service itself, 400 for every other.
pub open spec fn error_status(kind: Seq<char>) -> u16 {
    if kind == "InternalFailure"@ {
        500
    } else {
        400
    }
}

/// An error of the given kind.
pub open spec fn error_of(kind: Seq<char>, message: Seq<char>) -> ErrV {
    ErrV { kind, message }
}

pub open spec fn validation_error(message: Seq<char>) -> ErrV {
    error_of("ValidationException"@, message)
}

pub open spec fn not_found_error(message: Seq<char>) -> ErrV {
    error_of("ResourceNotFoundException"@, message)
}

pub open spec fn argument_error(message: Seq<char>) -> ErrV {
    error_of("InvalidArgumentException"@, message)
}

pub open spec fn internal_error(message: Seq<char>) -> ErrV {
    error_of("InternalFailure"@, message)
}

/// The body of an error response.
pub open spec fn error_json(error: ErrV) -> JsonV {
    JsonV::Object(
        seq![
            ("__type"@, JsonV::Text(error.kind)),
            ("message"@, JsonV::Text(error.message)),
        ],
    )
}

impl ApiError {
    /// An error of the given kind.
    pub fn new(kind: &'static str, message: String) -> (r: Self)
        ensures
            r@ == error_of(kind@, message@),
    {
        ApiError { kind, message }
    }

    pub fn not_found(what: String) -> (r: Self)
        ensures
            r@ == not_found_error(what@),
    {
        ApiError::new("ResourceNotFoundException", what)
    }

    pub fn validation(message: String) -> (r: Self)
        ensures
            r@ == validation_error(message@),
    {
        ApiError::new("ValidationException", message)
    }

    /// A failure of the service itself.
    pub fn internal(message: String) -> (r: Self)
        ensures
            r@ == internal_error(message@),
    {
        ApiError::new("InternalFailure", message)
    }

    /// The HTTP status of the response: 500 for `InternalFailure`, 400 for every other kind.
    pub fn status(&self) -> (r: u16)
        ensures
            r == error_status(self@.kind),
    {
        if str_eq(self.kind, "InternalFailure") {
            500
        } else {
            400
        }
    }

    /// The JSON text that is sent to the client.
    pub fn body(&self) -> (r: String)
        ensures
            r@ == json_text(error_json(self@)),
    {
        let fields = vec![
            (String::from_str("__type"), Json::text(self.kind)),
            (String::from_str("message"), Json::text(self.message.as_str())),
        ];
        proof {
            lemma_object_view(fields);
            assert(fields_view(fields@) =~= error_json(self@)->Object_0);
        }
        Json::Object(fields).to_text()
    }
}

// ---- the operation -----------------------------------------------------------

/// The operation that an `X-Amz-Target` header value names.
pub open spec fn target_operation(header: Seq<char>) -> Option<Seq<char>> {
    without_prefix(header, "Kinesis_20131202."@)
}

/// Extracts the operation name from the `X-Amz-Target` header value.
pub fn parse_target(header: &str) -> (r: Option<&str>)
    ensures
        match target_operation(header@) {
            Some(operation) => r is Some && r->0@ == operation,
            None => r is None,
        },
{
    strip_prefix(header, "Kinesis_20131202.")
}

// ---- payloads ----------------------------------------------------------------

/// The standard base64 text of bytes, with padding.
pub uninterp spec fn base64_text(bytes: Seq<u8>) -> Seq<char>;

/// Whether a text is the base64 text of some bytes.
pub open spec fn is_base64(text: Seq<char>) -> bool {
    exists|bytes: Seq<u8>| base64_text(bytes) == text
}

/// The bytes that a base64 text writes.
pub open spec fn base64_bytes(text: Seq<char>) -> Seq<u8> {
    choose|bytes: Seq<u8>| base64_text(bytes) == text
}

/// The length of the base64 text of `n` bytes: four characters for each started group of three.
pub open spec fn base64_len(n: nat) -> nat {
    (n + 2) / 3 * 4
}

pub open spec fn is_base64_char(c: char) -> bool {
    'A' <= c <= 'Z' || 'a' <= c <= 'z' || '0' <= c <= '9' || c == '+' || c == '/' || c == '='
}

pub open spec fn all_base64_chars(text: Seq<char>) -> bool {
    forall|i: int| 0 <= i < text.len() ==> is_base64_char(#[trigger] text[i])
}

/// How many `=` a text ends in.
pub open spec fn padding_len(text: Seq<u8>) -> nat
    decreases text.len(),
{
    if text.len() > 0 && text.last() == 0x3d {
        padding_len(text.drop_last()) + 1
    } else {
        0
    }
}

/// The payload length that the length and the padding of a base64 text tell.
pub open spec fn payload_len(text: Seq<u8>) -> nat {
    if padding_len(text) <= text.len() / 4 * 3 {
        (text.len() / 4 * 3 - padding_len(text)) as nat
    } else {
        0
    }
}

/// `Engine::encode` of `base64`'s standard engine: the base64 text of the bytes, made of the
/// 64 characters and `=` for padding. Four characters stand for each started group of three
/// bytes, so that the length and the padding tell how many bytes there were. (A slice holds
/// at most `isize::MAX` bytes, so the length of its text can always be counted.)
#[verifier::external_body]
fn base64_encode(bytes: &[u8]) -> (r: String)
    ensures
        r@ == base64_text(bytes@),
        all_base64_chars(r@),
        r@.len() == base64_len(bytes@.len()),
        payload_len(encode_utf8(r@)) == bytes@.len(),
{
    B64.encode(bytes)
}

/// Whether `after` is `before` with the base64 text of `bytes` written over it from `start` on.
pub open spec fn base64_written(
    before: Seq<u8>,
    after: Seq<u8>,
    start: int,
    bytes: Seq<u8>,
) -> bool {
    let text = base64_text(bytes);
    &&& after == before.take(start) + encode_utf8(text) + before.skip(
        start + base64_len(bytes.len()),
    )
    &&& all_base64_chars(text)
    &&& text.len() == base64_len(bytes.len())
}

/// `Engine::encode_slice` of `base64`'s standard engine: writes the base64 text of `bytes`
/// into `out` from `start` on, leaves the rest as it is, and says how much it has written.
/// There has to be room for the text, which has the characters and the length that `encode`
/// gives it.
#[verifier::external_body]
fn base64_encode_slice(bytes: &[u8], out: &mut Vec<u8>, start: usize) -> (r: usize)
    requires
        start + base64_len(bytes@.len()) <= old(out)@.len(),
    ensures
        r == base64_len(bytes@.len()),
        base64_written(old(out)@, final(out)@, start as int, bytes@),
{
    B64.encode_slice(bytes, &mut out[start..]).unwrap_or_default()
}

/// `Engine::decode` of `base64`'s standard engine. It accepts exactly the texts that the
/// engine's `encode` writes (canonical padding, unused bits zero, no other characters) and
/// gives the bytes back that the text was written from. The length and the padding of such a
/// text tell how many bytes there are.
#[verifier::external_body]
fn base64_decode(text: &str) -> (r: Option<Vec<u8>>)
    ensures
        match r {
            Some(data) => {
                &&& base64_text(data@) == text@
                &&& payload_len(encode_utf8(text@)) == data@.len()
                &&& forall|bytes: Seq<u8>| #[trigger] base64_text(bytes) == text@ ==> bytes == data@
            },
            None => forall|bytes: Seq<u8>| #[trigger] base64_text(bytes) != text@,
        },
{
    B64.decode(text).ok()
}

/// The base64 text of the bytes. Its length and its padding tell how many bytes there were.
pub fn encode_data(bytes: &[u8]) -> (r: String)
    ensures
        r@ == base64_text(bytes@),
        all_base64_chars(r@),
        r@.len() == base64_len(bytes@.len()),
        payload_len(encode_utf8(r@)) == bytes@.len(),
{
    base64_encode(bytes)
}

pub proof fn lemma_base64_ascii(text: Seq<char>)
    requires
        all_base64_chars(text),
    ensures
        encode_utf8(text).len() == text.len(),
        forall|i: int|
            0 <= i < text.len() ==> #[trigger] encode_utf8(text)[i] as nat == text[i] as nat,
{
    assert(is_ascii_chars(text)) by {
        assert forall|i: int| 0 <= i < text.len() implies (0 <= (#[trigger] text[i] as nat) < 128) by {
            assert(is_base64_char(text[i]));
        }
    }
    is_ascii_chars_encode_utf8(text);
}

/// Appends the base64 text of `bytes` to `out`, written in place: the buffer is enlarged by
/// the length of the text, and no string of its own is built.
pub fn encode_data_into(bytes: &[u8], out: &mut Vec<u8>)
    ensures
        final(out)@ == old(out)@ + encode_utf8(base64_text(bytes@)),
        all_base64_chars(base64_text(bytes@)),
        base64_text(bytes@).len() == base64_len(bytes@.len()),
{
    let start: usize = out.len();
    let groups: usize = bytes.len() / 3 + if bytes.len() % 3 == 0 {
        0
    } else {
        1
    };
    assert(groups as nat == (bytes@.len() + 2) / 3);
    let need = groups.checked_mul(4);
    let end = match need {
        Some(need) => start.checked_add(need),
        None => None,
    };
    match end {
        Some(end) => {
            out.resize(end, 0);
            let ghost widened = out@;
            let _written: usize = base64_encode_slice(bytes, out, start);
            proof {
                assert(widened.take(start as int) =~= old(out)@);
                assert(widened.skip(end as int) =~= seq![]);
                assert(out@ =~= old(out)@ + encode_utf8(base64_text(bytes@)));
            }
        },
        None => {
            let text = encode_data(bytes);
            push_text(out, text.as_str());
        },
    }
}

/// What `decode_data` makes of a text.
pub open spec fn decoded_data(text: Seq<char>) -> Result<Seq<u8>, ErrV> {
    if is_base64(text) {
        Ok(base64_bytes(text))
    } else {
        Err(argument_error("Data is not valid base64"@))
    }
}

/// The bytes of a base64 text. A text that `encode_data` has written gives its bytes back.
pub fn decode_data(text: &str) -> (r: Result<Vec<u8>, ApiError>)
    ensures
        match decoded_data(text@) {
            Ok(bytes) => r is Ok && r->Ok_0@ == bytes && bytes.len() == payload_len(
                encode_utf8(text@),
            ),
            Err(error) => r is Err && r->Err_0@ == error,
        },
        forall|bytes: Seq<u8>|
            #[trigger] base64_text(bytes) == text@ ==> r is Ok && r->Ok_0@ == bytes,
{
    match base64_decode(text) {
        Some(data) => {
            assert(is_base64(text@));
            assert(base64_text(base64_bytes(text@)) == text@);
            Ok(data)
        },
        None => Err(
            ApiError::new("InvalidArgumentException", String::from_str("Data is not valid base64")),
        ),
    }
}

} // verus!
