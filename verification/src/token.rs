//! Shard-iterator tokens: base64 over a small JSON object.
use crate::json::{
    flat_object, json_parsed, json_text, parse, push_field, to_object, Json, JsonV,
};
use crate::protocol::{
    argument_error, base64_bytes, base64_text, decode_data, encode_data, is_base64, ApiError, ErrV,
};
use crate::store::{Iterator, IteratorV};
use crate::text::{
    decimal, decimal_text, lemma_decimal_round_trip, parse_decimal, parse_number, text_less,
};
use vstd::prelude::*;
use vstd::string::StringExecFns;
use vstd::utf8::encode_utf8;

verus! {

/// The JSON object inside a token.
pub open spec fn iterator_json(it: IteratorV) -> JsonV {
    JsonV::Object(
        seq![
            ("expires_ms"@, JsonV::Text(decimal(it.expires_ms as nat))),
            ("next_seq"@, JsonV::number(it.next_seq)),
            ("shard_id"@, JsonV::Text(it.shard_id)),
            ("stream"@, JsonV::Text(it.stream)),
        ],
    )
}

/// The token of an iterator.
pub open spec fn iterator_token(it: IteratorV) -> Seq<char> {
    base64_text(encode_utf8(json_text(iterator_json(it))))
}

/// The iterator that a JSON value describes; what is missing or of another type is empty or 0.
pub open spec fn iterator_value(value: JsonV) -> IteratorV {
    IteratorV {
        stream: match value.text_of("stream"@) {
            Some(text) => text,
            None => Seq::empty(),
        },
        shard_id: match value.text_of("shard_id"@) {
            Some(text) => text,
            None => Seq::empty(),
        },
        next_seq: match value.get("next_seq"@) {
            Some(number) => match number.as_u64() {
                Some(n) => n,
                None => 0,
            },
            None => 0,
        },
        expires_ms: match value.text_of("expires_ms"@) {
            Some(text) => match parse_decimal(text, u128::MAX as nat) {
                Some(n) => n as u128,
                None => 0,
            },
            None => 0,
        },
    }
}

/// The iterator that a token stands for.
pub open spec fn token_iterator(token: Seq<char>) -> Result<IteratorV, ErrV> {
    if is_base64(token) {
        match json_parsed(base64_bytes(token)) {
            Some(value) => Ok(iterator_value(value)),
            None => Err(argument_error("Malformed shard iterator"@)),
        }
    } else {
        Err(argument_error("Malformed shard iterator"@))
    }
}

/// Reading the object of a token gives the iterator back that it was made from.
pub proof fn law_iterator_object_round_trip(it: IteratorV)
    ensures
        iterator_value(iterator_json(it)) == it,
        flat_object(iterator_json(it)),
{
    reveal_strlit("expires_ms");
    reveal_strlit("next_seq");
    reveal_strlit("shard_id");
    reveal_strlit("stream");
    let fields = iterator_json(it)->Object_0;
    let a = "expires_ms"@;
    let b = "next_seq"@;
    let c = "shard_id"@;
    let d = "stream"@;
    assert(a.len() == 10 && b.len() == 8 && c.len() == 8 && d.len() == 6);
    assert(a[0] == 'e' && b[0] == 'n' && c[0] == 's' && d[0] == 's' && c[1] == 'h' && d[1] == 't');
    reveal_with_fuel(crate::json::field_value, 5);
    let rest1 = fields.drop_first();
    let rest2 = rest1.drop_first();
    let rest3 = rest2.drop_first();
    assert(rest1[0] == fields[1] && rest2[0] == fields[2] && rest3[0] == fields[3]);
    lemma_decimal_round_trip(it.expires_ms as nat, u128::MAX as nat);
    assert(text_less(a, b) && text_less(a, c) && text_less(a, d));
    assert(text_less(b, c) && text_less(b, d));
    assert(c.drop_first()[0] == 'h' && d.drop_first()[0] == 't');
    reveal_with_fuel(text_less, 3);
    assert(text_less(c, d));
    assert forall|i: int, j: int| 0 <= i < j < fields.len() implies text_less(
        #[trigger] fields[i].0,
        #[trigger] fields[j].0,
    ) by {
        assert(i == 0 || i == 1 || i == 2);
        assert(j == 1 || j == 2 || j == 3);
    }
    assert forall|i: int| 0 <= i < fields.len() implies match (#[trigger] fields[i]).1 {
        JsonV::Text(text) => true,
        JsonV::Number { unsigned, text } => match unsigned {
            Some(n) => text == decimal(n as nat),
            None => false,
        },
        _ => false,
    } by {
        assert(i == 0 || i == 1 || i == 2 || i == 3);
    }
}

/// The token that is handed to the client.
pub fn encode_iterator(it: &Iterator) -> (r: String)
    ensures
        r@ == iterator_token(it@),
        crate::protocol::all_base64_chars(r@),
{
    let mut fields: Vec<(String, Json)> = Vec::new();
    push_field(&mut fields, "expires_ms", Json::Text(decimal_text(it.expires_ms)));
    push_field(&mut fields, "next_seq", Json::number(it.next_seq));
    push_field(&mut fields, "shard_id", Json::text(it.shard_id.as_str()));
    push_field(&mut fields, "stream", Json::text(it.stream.as_str()));
    let object = to_object(fields);
    assert(object@->Object_0 =~= iterator_json(it@)->Object_0);
    let text = object.to_text();
    encode_data(text.as_str().as_bytes())
}

/// The iterator that a JSON value describes; what is missing or of another type is empty or 0.
pub fn iterator_from(value: &Json) -> (r: Iterator)
    ensures
        r@ == iterator_value(value@),
{
    let stream = match value.text_of("stream") {
        Some(text) => String::from_str(text),
        None => String::new(),
    };
    let shard_id = match value.text_of("shard_id") {
        Some(text) => String::from_str(text),
        None => String::new(),
    };
    let next_seq: u64 = match value.get("next_seq") {
        Some(number) => match number.as_u64() {
            Some(n) => n,
            None => 0,
        },
        None => 0,
    };
    let expires_ms: u128 = match value.text_of("expires_ms") {
        Some(text) => match parse_number(text, u128::MAX) {
            Some(n) => n,
            None => 0,
        },
        None => 0,
    };
    let r = Iterator { stream, shard_id, next_seq, expires_ms };
    assert(r@.stream =~= iterator_value(value@).stream);
    assert(r@.shard_id =~= iterator_value(value@).shard_id);
    r
}

/// The iterator that a token stands for. The token that `encode_iterator` makes gives its
/// iterator back.
pub fn decode_iterator(token: &str) -> (r: Result<Iterator, ApiError>)
    ensures
        match r {
            Ok(it) => token_iterator(token@) == Ok::<IteratorV, ErrV>(it@),
            Err(error) => token_iterator(token@) == Err::<IteratorV, ErrV>(error@),
        },
        forall|it: IteratorV| #[trigger] iterator_token(it) == token@ ==> r is Ok && r->Ok_0@ == it,
{
    let bytes = match decode_data(token) {
        Ok(bytes) => bytes,
        Err(_) => {
            assert(!is_base64(token@));
            return Err(
                ApiError::new(
                    "InvalidArgumentException",
                    String::from_str("Malformed shard iterator"),
                ),
            );
        },
    };
    let parsed = parse(&bytes);
    assert forall|it: IteratorV| #[trigger] iterator_token(it) == token@ implies parsed is Some
        && iterator_value(parsed->0@) == it by {
        law_iterator_object_round_trip(it);
        assert(bytes@ == encode_utf8(json_text(iterator_json(it))));
    }
    match parsed {
        Some(value) => Ok(iterator_from(&value)),
        None => Err(
            ApiError::new(
                "InvalidArgumentException",
                String::from_str("Malformed shard iterator"),
            ),
        ),
    }
}

} // verus!
