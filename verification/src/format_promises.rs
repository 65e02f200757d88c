//! What the texts promise, written out: fields of JSON values, the text of a JSON value, iterator
//! tokens, the ARNs of streams, and decimal numbers.
use crate::json::{
    escaped_char, field_value, fields_text, hex_digit, items_text, json_text, quoted, JsonV,
};
use crate::params::{
    arn_name, identifier, is_stream_arn, law_arn_names_its_stream,
    required,
};
use crate::protocol::{base64_text, ErrV};
use crate::put_promises::says;
use crate::store::IteratorV;
use crate::stream_promises::{lemma_name_fits, name_fits};
use crate::text::{
    decimal, digits_value, is_digit, lemma_decimal_round_trip, lemma_decimal_value, parse_decimal,
    text_less,
};
use crate::token::{iterator_json, iterator_token, iterator_value};
use vstd::prelude::*;
use vstd::utf8::encode_utf8;

verus! {

// ---- JSON --------------------------------------------------------------------

/// A key of an object gives the value of the first field of that key, and nothing where no field
/// has it; what is no object has no fields.
pub proof fn law_key_gives_its_own_field(fields: Seq<(Seq<char>, JsonV)>, key: Seq<char>, i: int)
    requires
        0 <= i <= fields.len(),
        forall|k: int| 0 <= k < i ==> (#[trigger] fields[k]).0 != key,
    ensures
        i < fields.len() && fields[i].0 == key ==> JsonV::Object(fields).get(key) == Some(
            fields[i].1,
        ),
        i == fields.len() ==> JsonV::Object(fields).get(key) is None,
        forall|value: JsonV| !(value is Object) ==> #[trigger] value.get(key) is None,
    decreases fields.len(),
{
    if i > 0 {
        let rest = fields.drop_first();
        assert(fields[0].0 != key);
        assert forall|k: int| 0 <= k < i - 1 implies (#[trigger] rest[k]).0 != key by {
            assert(rest[k] == fields[k + 1]);
        }
        law_key_gives_its_own_field(rest, key, i - 1);
        assert(JsonV::Object(rest).get(key) == field_value(rest, key));
        assert(i < fields.len() ==> rest[i - 1] == fields[i]);
    }
}

/// A text that has to be there is handed on as it is, and refused by the name of its key where
/// there is no text under it.
pub proof fn law_required_text_is_handed_on(req: JsonV, key: Seq<char>, text: Seq<char>)
    ensures
        says(req, key, text) ==> required(req, key) == Ok::<Seq<char>, ErrV>(text),
        (forall|other: Seq<char>| !#[trigger] says(req, key, other)) ==> required(req, key) == Err::<
            Seq<char>,
            ErrV,
        >(
            ErrV {
                kind: "ValidationException"@,
                message: "Missing required parameter: "@ + key,
            },
        ),
        says(req, key, text) ==> identifier(req, key) == Ok::<Option<Seq<char>>, ErrV>(Some(text)),
        req.get(key) is None ==> identifier(req, key) == Ok::<Option<Seq<char>>, ErrV>(None),
{
    if forall|other: Seq<char>| !#[trigger] says(req, key, other) {
        if let Some(other) = req.text_of(key) {
            assert(says(req, key, other));
        }
    }
}

/// How the text of a value grows: an item or a field more stands behind a comma, or alone where it
/// is the first, and a field is its key in quotes, a colon and its value.
pub proof fn law_text_grows_by_what_is_added(
    items: Seq<JsonV>,
    fields: Seq<(Seq<char>, JsonV)>,
    key: Seq<char>,
    value: JsonV,
)
    ensures
        json_text(JsonV::Array(Seq::empty())) == "[]"@,
        json_text(JsonV::Object(Seq::empty())) == "{}"@,
        json_text(JsonV::Array(items.push(value))) == (if items.len() == 0 {
            "["@
        } else {
            json_text(JsonV::Array(items)).drop_last() + ","@
        }) + json_text(value) + "]"@,
        json_text(JsonV::Object(fields.push((key, value)))) == (if fields.len() == 0 {
            "{"@
        } else {
            json_text(JsonV::Object(fields)).drop_last() + ","@
        }) + (quoted(key) + ":"@ + json_text(value)) + "}"@,
{
    reveal_strlit("[]");
    reveal_strlit("{}");
    reveal_strlit("[");
    reveal_strlit("]");
    reveal_strlit("{");
    reveal_strlit("}");
    let no_items = Seq::<JsonV>::empty();
    let no_fields = Seq::<(Seq<char>, JsonV)>::empty();
    assert(items_text(no_items, 0) == Seq::<char>::empty());
    assert(fields_text(no_fields, 0) == Seq::<char>::empty());
    assert(json_text(JsonV::Array(no_items)) == "["@ + items_text(no_items, 0) + "]"@);
    assert(json_text(JsonV::Object(no_fields)) == "{"@ + fields_text(no_fields, 0) + "}"@);
    assert(json_text(JsonV::Array(no_items)) =~= "[]"@);
    assert(json_text(JsonV::Object(no_fields)) =~= "{}"@);
    let more_items = items.push(value);
    let more_fields = fields.push((key, value));
    lemma_items_prefix(items, value, items.len());
    lemma_fields_prefix(fields, (key, value), fields.len());
    assert(more_items[items.len() as int] == value);
    assert(more_fields[fields.len() as int] == (key, value));
    let shown_items = items_text(items, items.len());
    let shown_fields = fields_text(fields, fields.len());
    assert(json_text(JsonV::Array(items)).drop_last() =~= "["@ + shown_items);
    assert(json_text(JsonV::Object(fields)).drop_last() =~= "{"@ + shown_fields);
    assert(json_text(JsonV::Array(more_items)) == "["@ + items_text(more_items, more_items.len())
        + "]"@);
    assert(json_text(JsonV::Object(more_fields)) == "{"@ + fields_text(
        more_fields,
        more_fields.len(),
    ) + "}"@);
    if items.len() > 0 {
        assert(json_text(JsonV::Array(more_items)) =~= "["@ + shown_items + ","@ + json_text(value)
            + "]"@);
    }
    let field = quoted(key) + ":"@ + json_text(value);
    if fields.len() > 0 {
        assert(json_text(JsonV::Object(more_fields)) =~= "{"@ + shown_fields + ","@ + field + "}"@);
    }
}

proof fn lemma_items_prefix(items: Seq<JsonV>, value: JsonV, n: nat)
    requires
        n <= items.len(),
    ensures
        items_text(items.push(value), n) == items_text(items, n),
    decreases n,
{
    if n > 1 {
        lemma_items_prefix(items, value, (n - 1) as nat);
    }
}

proof fn lemma_fields_prefix(
    fields: Seq<(Seq<char>, JsonV)>,
    field: (Seq<char>, JsonV),
    n: nat,
)
    requires
        n <= fields.len(),
    ensures
        fields_text(fields.push(field), n) == fields_text(fields, n),
    decreases n,
{
    if n > 1 {
        lemma_fields_prefix(fields, field, (n - 1) as nat);
    }
}

/// Two characters never stand the same inside a string; what is not a quote, a backslash or a
/// control character stands as it is, and a quote never stands alone.
pub proof fn law_characters_are_told_apart(a: char, b: char)
    ensures
        escaped_char(a) == escaped_char(b) ==> a == b,
        a as nat >= 0x20 && a != '"' && a != '\\' ==> escaped_char(a) == seq![a],
        a as nat >= 0x20 && a != '"' && a != '\\' || escaped_char(a)[0] == '\\',
{
    let x = escaped_char(a);
    let y = escaped_char(b);
    if x == y {
        assert(x.len() == y.len());
        assert(x[0] == y[0] && x[1] == y[1] && x[4] == y[4] && x[5] == y[5]);
        if x.len() == 6 {
            lemma_hex_digits(a as nat / 16, b as nat / 16);
            lemma_hex_digits(a as nat % 16, b as nat % 16);
            assert(a as nat == 16 * (a as nat / 16) + a as nat % 16);
            assert(b as nat == 16 * (b as nat / 16) + b as nat % 16);
        }
    }
}

proof fn lemma_hex_digits(a: nat, b: nat)
    requires
        a < 16,
        b < 16,
    ensures
        hex_digit(a) == hex_digit(b) ==> a == b,
{
}

// ---- tokens ------------------------------------------------------------------

/// What a token holds: the base64 text of an object with the stream, the shard, the number to read
/// from and the moment of expiry, each under its own key.
pub proof fn law_token_holds_the_iterator(it: IteratorV)
    ensures
        says(iterator_json(it), "stream"@, it.stream),
        says(iterator_json(it), "shard_id"@, it.shard_id),
        says(iterator_json(it), "expires_ms"@, decimal(it.expires_ms as nat)),
        iterator_json(it).get("next_seq"@) == Some(
            JsonV::Number { unsigned: Some(it.next_seq), text: decimal(it.next_seq as nat) },
        ),
        iterator_token(it) == base64_text(encode_utf8(json_text(iterator_json(it)))),
{
    reveal_strlit("expires_ms");
    reveal_strlit("next_seq");
    reveal_strlit("shard_id");
    reveal_strlit("stream");
    let fields = iterator_json(it)->Object_0;
    assert("expires_ms"@.len() != "next_seq"@.len());
    assert("expires_ms"@.len() != "shard_id"@.len());
    assert("expires_ms"@.len() != "stream"@.len());
    assert("next_seq"@[0] != "shard_id"@[0]);
    assert("next_seq"@.len() != "stream"@.len());
    assert("shard_id"@.len() != "stream"@.len());
    law_key_gives_its_own_field(fields, "expires_ms"@, 0);
    law_key_gives_its_own_field(fields, "next_seq"@, 1);
    law_key_gives_its_own_field(fields, "shard_id"@, 2);
    law_key_gives_its_own_field(fields, "stream"@, 3);
}

/// What is read from a token's object: each of its four values from its own key.
pub proof fn law_iterator_is_read_from_its_keys(value: JsonV, it: IteratorV)
    requires
        says(value, "stream"@, it.stream),
        says(value, "shard_id"@, it.shard_id),
        says(value, "expires_ms"@, decimal(it.expires_ms as nat)),
        value.get("next_seq"@) is Some,
        (value.get("next_seq"@)->0).as_u64() == Some(it.next_seq),
    ensures
        iterator_value(value) == it,
{
    lemma_decimal_round_trip(it.expires_ms as nat, u128::MAX as nat);
}

// ---- ARNs --------------------------------------------------------------------

/// Whether a text is the ARN of a stream: `arn:`, a partition that is `aws` or starts with `aws-`,
/// `:kinesis:`, a region, twelve digits, and `:stream/` with the name.
pub open spec fn writes_arn(
    arn: Seq<char>,
    partition: Seq<char>,
    region: Seq<char>,
    account: Seq<char>,
    name: Seq<char>,
) -> bool {
    &&& arn == "arn"@ + seq![':'] + (partition + seq![':'] + ("kinesis"@ + seq![':'] + (region + seq![
        ':',
    ] + (account + seq![':'] + ("stream/"@ + name)))))
    &&& partition == "aws"@ || exists|rest: Seq<char>| partition == #[trigger] ("aws-"@ + rest)
    &&& forall|i: int| 0 <= i < partition.len() ==> #[trigger] partition[i] != ':'
    &&& region.len() > 0
    &&& forall|i: int| 0 <= i < region.len() ==> #[trigger] region[i] != ':'
    &&& account.len() == 12
    &&& forall|i: int| 0 <= i < account.len() ==> '0' <= #[trigger] account[i] && account[i] <= '9'
    &&& name_fits(name)
}

/// A stream name is found in an ARN exactly where the ARN is written with it.
pub proof fn law_arn_is_read_as_it_is_written(arn: Seq<char>, name: Seq<char>)
    ensures
        arn_name(arn) == Some(name) <==> exists|
            partition: Seq<char>,
            region: Seq<char>,
            account: Seq<char>,
        | #[trigger] writes_arn(arn, partition, region, account, name),
{
    law_arn_names_its_stream(arn, name);
    assert forall|partition: Seq<char>, region: Seq<char>, account: Seq<char>| #[trigger]
        writes_arn(arn, partition, region, account, name) == is_stream_arn(
        arn,
        partition,
        region,
        account,
        name,
    ) by {
        lemma_writes_arn(arn, partition, region, account, name);
    }
    if arn_name(arn) == Some(name) {
        let (partition, region, account) = choose|
            partition: Seq<char>,
            region: Seq<char>,
            account: Seq<char>,
        | #[trigger] is_stream_arn(arn, partition, region, account, name);
        assert(writes_arn(arn, partition, region, account, name));
    }
}

proof fn lemma_writes_arn(
    arn: Seq<char>,
    partition: Seq<char>,
    region: Seq<char>,
    account: Seq<char>,
    name: Seq<char>,
)
    ensures
        writes_arn(arn, partition, region, account, name) == is_stream_arn(
            arn,
            partition,
            region,
            account,
            name,
        ),
{
    lemma_name_fits(name);
    let head = "aws-"@;
    assert(crate::params::is_partition(partition) == (partition == "aws"@ || exists|
        rest: Seq<char>,
    | partition == #[trigger] (head + rest))) by {
        if crate::text::without_prefix(partition, head) is Some {
            let rest = partition.skip(head.len() as int);
            assert(partition =~= head + rest);
        }
        assert forall|rest: Seq<char>| partition == #[trigger] (head + rest) implies
            crate::text::without_prefix(partition, head) is Some by {
            assert(partition.take(head.len() as int) =~= head);
        }
    }
    assert(partition.contains(':') == exists|i: int|
        0 <= i < partition.len() && #[trigger] partition[i] == ':');
    assert(region.contains(':') == exists|i: int|
        0 <= i < region.len() && #[trigger] region[i] == ':');
    assert(crate::params::is_account(account) == (account.len() == 12 && forall|i: int|
        0 <= i < account.len() ==> '0' <= #[trigger] account[i] && account[i] <= '9')) by {
        if crate::params::is_account(account) {
            assert forall|i: int| 0 <= i < account.len() implies '0' <= #[trigger] account[i]
                && account[i] <= '9' by {
                assert(is_digit(account[i]));
            }
        }
    }
}

// ---- numbers -----------------------------------------------------------------

/// A number is written in the ten digits, without a zero in front, and reads back as itself, with
/// a plus sign in front too; two numbers are never written the same.
pub proof fn law_number_is_written_in_digits(n: nat, m: nat, max: nat)
    ensures
        decimal(n).len() > 0,
        forall|i: int|
            0 <= i < decimal(n).len() ==> '0' <= #[trigger] decimal(n)[i] && decimal(n)[i] <= '9',
        n > 0 ==> decimal(n)[0] != '0',
        n <= max ==> parse_decimal(decimal(n), max) == Some(n),
        n <= max ==> parse_decimal("+"@ + decimal(n), max) == Some(n),
        n > max ==> parse_decimal(decimal(n), max) is None,
        decimal(n) == decimal(m) ==> n == m,
        decimal(10 * n + m % 10).len() > 0,
        n > 0 ==> decimal(10 * n + m % 10) == decimal(n) + decimal(m % 10),
{
    lemma_decimal_value(n);
    lemma_decimal_value(m);
    lemma_decimal_value(10 * n + m % 10);
    lemma_no_zero_in_front(n);
    reveal_strlit("+");
    assert forall|i: int| 0 <= i < decimal(n).len() implies '0' <= #[trigger] decimal(n)[i]
        && decimal(n)[i] <= '9' by {
        assert(is_digit(decimal(n)[i]));
    }
    assert(is_digit(decimal(n)[0]));
    assert(("+"@ + decimal(n)).drop_first() =~= decimal(n));
    assert(digits_value(decimal(n)) == n);
    if n > 0 {
        assert((10 * n + m % 10) / 10 == n);
        assert((10 * n + m % 10) % 10 == m % 10);
    }
}

proof fn lemma_no_zero_in_front(n: nat)
    ensures
        n > 0 ==> decimal(n)[0] != '0',
        decimal(n).len() > 0,
    decreases n,
{
    if n >= 10 {
        lemma_no_zero_in_front(n / 10);
    } else if n > 0 {
        assert(decimal(n)[0] as nat == '0' as nat + n);
    }
}

/// Of two strings that agree up to a place, the one that ends there, or has the smaller character
/// there, comes first.
pub proof fn law_strings_are_ordered_by_their_first_difference(a: Seq<char>, b: Seq<char>, i: int)
    requires
        0 <= i <= a.len(),
        i <= b.len(),
        forall|k: int| 0 <= k < i ==> #[trigger] a[k] == b[k],
    ensures
        i == a.len() && i < b.len() ==> text_less(a, b) && !text_less(b, a),
        i < a.len() && i < b.len() && a[i] < b[i] ==> text_less(a, b) && !text_less(b, a),
        i == a.len() && i == b.len() ==> !text_less(a, b),
    decreases a.len(),
{
    if i > 0 {
        assert(a[0] == b[0]);
        let x = a.drop_first();
        let y = b.drop_first();
        assert forall|k: int| 0 <= k < i - 1 implies #[trigger] x[k] == y[k] by {
            assert(a[k + 1] == b[k + 1]);
        }
        law_strings_are_ordered_by_their_first_difference(x, y, i - 1);
    }
}

} // verus!
