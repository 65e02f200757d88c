//! JSON values: reading them from bytes and writing them as text.
use crate::text::{decimal, decimal_text, lemma_utf8_concat, str_eq, text_less};
use vstd::prelude::*;
use vstd::string::StringExecFns;
use vstd::utf8::{encode_utf8, is_ascii_chars, is_ascii_chars_encode_utf8};

verus! {

// ---- values ------------------------------------------------------------------

/// A JSON value as a mathematical value.
pub enum JsonV {
    Null,
    Bool(bool),
    Number { unsigned: Option<u64>, text: Seq<char> },
    Text(Seq<char>),
    Array(Seq<JsonV>),
    Object(Seq<(Seq<char>, JsonV)>),
}

/// A JSON value. A number keeps its text, and its value where that is an integer from 0 to
/// `u64::MAX`. An object keeps its fields in order.
#[derive(Debug)]
pub enum Json {
    Null,
    Bool(bool),
    Number { unsigned: Option<u64>, text: String },
    Text(String),
    Array(Vec<Json>),
    Object(Vec<(String, Json)>),
}

pub open spec fn json_view(value: Json) -> JsonV
    decreases value,
{
    match value {
        Json::Null => JsonV::Null,
        Json::Bool(flag) => JsonV::Bool(flag),
        Json::Number { unsigned, text } => JsonV::Number { unsigned, text: text@ },
        Json::Text(text) => JsonV::Text(text@),
        Json::Array(items) => JsonV::Array(
            Seq::new(
                items@.len(),
                |i: int|
                    if 0 <= i < items@.len() {
                        json_view(items@[i])
                    } else {
                        JsonV::Null
                    },
            ),
        ),
        Json::Object(fields) => JsonV::Object(
            Seq::new(
                fields@.len(),
                |i: int|
                    if 0 <= i < fields@.len() {
                        (fields@[i].0@, json_view(fields@[i].1))
                    } else {
                        (seq![], JsonV::Null)
                    },
            ),
        ),
    }
}

impl View for Json {
    type V = JsonV;

    open spec fn view(&self) -> JsonV {
        json_view(*self)
    }
}

pub open spec fn items_view(items: Seq<Json>) -> Seq<JsonV> {
    items.map_values(|item: Json| item@)
}

pub open spec fn fields_view(fields: Seq<(String, Json)>) -> Seq<(Seq<char>, JsonV)> {
    fields.map_values(|field: (String, Json)| (field.0@, field.1@))
}

pub proof fn lemma_array_view(items: Vec<Json>)
    ensures
        Json::Array(items)@ == JsonV::Array(items_view(items@)),
{
    let shown = Json::Array(items)@;
    assert(shown->Array_0 =~= items_view(items@));
}

pub proof fn lemma_object_view(fields: Vec<(String, Json)>)
    ensures
        Json::Object(fields)@ == JsonV::Object(fields_view(fields@)),
{
    let shown = Json::Object(fields)@;
    assert(shown->Object_0 =~= fields_view(fields@));
}

impl JsonV {
    pub open spec fn number(n: u64) -> JsonV {
        JsonV::Number { unsigned: Some(n), text: decimal(n as nat) }
    }

    /// The value of the first field of this name.
    pub open spec fn get(self, key: Seq<char>) -> Option<JsonV> {
        match self {
            JsonV::Object(fields) => field_value(fields, key),
            _ => None,
        }
    }

    pub open spec fn as_str(self) -> Option<Seq<char>> {
        match self {
            JsonV::Text(text) => Some(text),
            _ => None,
        }
    }

    pub open spec fn as_u64(self) -> Option<u64> {
        match self {
            JsonV::Number { unsigned, text } => unsigned,
            _ => None,
        }
    }

    pub open spec fn as_array(self) -> Option<Seq<JsonV>> {
        match self {
            JsonV::Array(items) => Some(items),
            _ => None,
        }
    }

    /// The text in the first field of this name, where there is one and it holds a text.
    pub open spec fn text_of(self, key: Seq<char>) -> Option<Seq<char>> {
        match self.get(key) {
            Some(value) => value.as_str(),
            None => None,
        }
    }
}

pub open spec fn field_value(fields: Seq<(Seq<char>, JsonV)>, key: Seq<char>) -> Option<JsonV>
    decreases fields.len(),
{
    if fields.len() == 0 {
        None
    } else if fields[0].0 == key {
        Some(fields[0].1)
    } else {
        field_value(fields.drop_first(), key)
    }
}

impl Json {
    pub fn text(text: &str) -> (r: Json)
        ensures
            r@ == JsonV::Text(text@),
    {
        Json::Text(String::from_str(text))
    }

    pub fn number(n: u64) -> (r: Json)
        ensures
            r@ == JsonV::number(n),
    {
        Json::Number { unsigned: Some(n), text: decimal_text(n as u128) }
    }

    /// The value of the first field of this name; `None` where there is none or the value
    /// is no object.
    pub fn get(&self, key: &str) -> (r: Option<&Json>)
        ensures
            match self@.get(key@) {
                Some(value) => r is Some && r->0@ == value,
                None => r is None,
            },
    {
        match self {
            Json::Object(fields) => {
                proof {
                    lemma_object_view(*fields);
                }
                let ghost shown = fields_view(fields@);
                assert(shown.skip(0) =~= shown);
                let mut i: usize = 0;
                while i < fields.len()
                    invariant
                        i <= fields@.len(),
                        shown == fields_view(fields@),
                        self@.get(key@) == field_value(shown, key@),
                        field_value(shown, key@) == field_value(shown.skip(i as int), key@),
                    decreases fields@.len() - i,
                {
                    assert(shown.skip(i as int)[0] == shown[i as int]);
                    assert(shown.skip(i as int).drop_first() =~= shown.skip(i + 1));
                    if str_eq(fields[i].0.as_str(), key) {
                        return Some(&fields[i].1);
                    }
                    i = i + 1;
                }
                None
            },
            _ => None,
        }
    }

    pub fn as_str(&self) -> (r: Option<&str>)
        ensures
            match self@.as_str() {
                Some(text) => r is Some && r->0@ == text,
                None => r is None,
            },
    {
        match self {
            Json::Text(text) => Some(text.as_str()),
            _ => None,
        }
    }

    pub fn as_u64(&self) -> (r: Option<u64>)
        ensures
            r == self@.as_u64(),
    {
        match self {
            Json::Number { unsigned, .. } => *unsigned,
            _ => None,
        }
    }

    pub fn as_array(&self) -> (r: Option<&Vec<Json>>)
        ensures
            match self@.as_array() {
                Some(items) => r is Some && items_view(r->0@) == items,
                None => r is None,
            },
    {
        match self {
            Json::Array(items) => {
                proof {
                    lemma_array_view(*items);
                }
                Some(items)
            },
            _ => None,
        }
    }

    /// The text in the first field of this name.
    pub fn text_of(&self, key: &str) -> (r: Option<&str>)
        ensures
            match self@.text_of(key@) {
                Some(text) => r is Some && r->0@ == text,
                None => r is None,
            },
    {
        match self.get(key) {
            Some(value) => value.as_str(),
            None => None,
        }
    }
}

/// Adds a field to those of an object.
pub fn push_field(fields: &mut Vec<(String, Json)>, key: &str, value: Json)
    ensures
        fields_view(final(fields)@) == fields_view(old(fields)@).push((key@, value@)),
{
    let ghost before = fields@;
    fields.push((String::from_str(key), value));
    assert(fields_view(fields@) =~= fields_view(before).push((key@, value@)));
}

/// The object of these fields.
pub fn to_object(fields: Vec<(String, Json)>) -> (r: Json)
    ensures
        r@ == JsonV::Object(fields_view(fields@)),
{
    proof {
        lemma_object_view(fields);
    }
    Json::Object(fields)
}

/// The array of these items.
pub fn to_array(items: Vec<Json>) -> (r: Json)
    ensures
        r@ == JsonV::Array(items_view(items@)),
{
    proof {
        lemma_array_view(items);
    }
    Json::Array(items)
}

// ---- writing -----------------------------------------------------------------

pub open spec fn hex_digit(n: nat) -> char {
    if n < 10 {
        ('0' as nat + n) as char
    } else {
        ('a' as nat + n - 10) as char
    }
}

/// How a character stands inside a JSON string.
pub open spec fn escaped_char(c: char) -> Seq<char> {
    if c == '"' {
        seq!['\\', '"']
    } else if c == '\\' {
        seq!['\\', '\\']
    } else if c == '\u{8}' {
        seq!['\\', 'b']
    } else if c == '\t' {
        seq!['\\', 't']
    } else if c == '\n' {
        seq!['\\', 'n']
    } else if c == '\u{c}' {
        seq!['\\', 'f']
    } else if c == '\r' {
        seq!['\\', 'r']
    } else if (c as nat) < 0x20 {
        seq!['\\', 'u', '0', '0', hex_digit(c as nat / 16), hex_digit(c as nat % 16)]
    } else {
        seq![c]
    }
}

pub open spec fn escaped(s: Seq<char>) -> Seq<char>
    decreases s.len(),
{
    if s.len() == 0 {
        seq![]
    } else {
        escaped(s.drop_last()) + escaped_char(s.last())
    }
}

/// A JSON string: the escaped text between quotes.
pub open spec fn quoted(s: Seq<char>) -> Seq<char> {
    seq!['"'] + escaped(s) + seq!['"']
}

/// The compact text of a value: no blanks, the fields in their order.
pub open spec fn json_text(value: JsonV) -> Seq<char>
    decreases value, 0nat,
{
    match value {
        JsonV::Null => "null"@,
        JsonV::Bool(flag) => if flag {
            "true"@
        } else {
            "false"@
        },
        JsonV::Number { unsigned, text } => text,
        JsonV::Text(text) => quoted(text),
        JsonV::Array(items) => "["@ + items_text(items, items.len()) + "]"@,
        JsonV::Object(fields) => "{"@ + fields_text(fields, fields.len()) + "}"@,
    }
}

/// The texts of the first `n` items, with commas between them.
pub open spec fn items_text(items: Seq<JsonV>, n: nat) -> Seq<char>
    decreases items, n,
    when n <= items.len()
{
    if n == 0 {
        seq![]
    } else if n == 1 {
        json_text(items[0])
    } else {
        items_text(items, (n - 1) as nat) + ","@ + json_text(items[n - 1])
    }
}

/// The texts of the first `n` fields, with commas between them.
pub open spec fn fields_text(fields: Seq<(Seq<char>, JsonV)>, n: nat) -> Seq<char>
    decreases fields, n,
    when n <= fields.len()
{
    if n == 0 {
        seq![]
    } else if n == 1 {
        quoted(fields[0].0) + ":"@ + json_text(fields[0].1)
    } else {
        fields_text(fields, (n - 1) as nat) + ","@ + (quoted(fields[n - 1].0) + ":"@ + json_text(
            fields[n - 1].1,
        ))
    }
}

/// Whether a text stands in a JSON string as it is.
pub open spec fn plain(s: Seq<char>) -> bool {
    forall|i: int|
        0 <= i < s.len() ==> (#[trigger] s[i] as nat) >= 0x20 && s[i] != '"' && s[i] != '\\'
}

pub proof fn lemma_plain_quoted(s: Seq<char>)
    requires
        plain(s),
    ensures
        quoted(s) == seq!['"'] + s + seq!['"'],
{
    lemma_plain_escaped(s);
}

proof fn lemma_plain_escaped(s: Seq<char>)
    requires
        plain(s),
    ensures
        escaped(s) == s,
    decreases s.len(),
{
    if s.len() > 0 {
        lemma_plain_escaped(s.drop_last());
        assert(escaped_char(s.last()) == seq![s.last()]);
        assert(escaped(s) =~= s);
    } else {
        assert(escaped(s) =~= s);
    }
}

/// A character takes at most six bytes in a JSON string for each byte that it has.
pub proof fn lemma_quoted_len(s: Seq<char>)
    ensures
        encode_utf8(quoted(s)).len() <= 2 + 6 * encode_utf8(s).len(),
{
    lemma_escaped_len(s);
    lemma_utf8_concat(seq!['"'] + escaped(s), seq!['"']);
    lemma_utf8_concat(seq!['"'], escaped(s));
    assert(is_ascii_chars(seq!['"']));
    is_ascii_chars_encode_utf8(seq!['"']);
}

proof fn lemma_escaped_len(s: Seq<char>)
    ensures
        encode_utf8(escaped(s)).len() <= 6 * encode_utf8(s).len(),
    decreases s.len(),
{
    if s.len() > 0 {
        let rest = s.drop_last();
        let last = seq![s.last()];
        lemma_escaped_len(rest);
        assert(s =~= rest + last);
        lemma_utf8_concat(rest, last);
        lemma_utf8_concat(escaped(rest), escaped_char(s.last()));
        assert(last.drop_first() =~= Seq::empty());
        assert(encode_utf8(last).len() >= 1);
        if escaped_char(s.last()) != last {
            assert(is_ascii_chars(escaped_char(s.last())));
            is_ascii_chars_encode_utf8(escaped_char(s.last()));
        }
    }
}

/// `serde_json::to_string` of a string: the text between quotes, with quotes, backslashes
/// and control characters escaped and every other character as it is. It does not fail.
#[verifier::external_body]
pub(crate) fn json_string(value: &str) -> (r: String)
    ensures
        r@ == quoted(value@),
{
    serde_json::to_string(value).unwrap_or_default()
}

/// The text that `serde_json` writes for the floating-point number nearest to an integer.
pub uninterp spec fn float_digits(n: u128) -> Seq<char>;

/// `serde_json::to_string` of the floating-point number (`serde_json::Number::from_f64`)
/// nearest to `n`. Below 10^15 that is the integer itself, written with a trailing `.0`; the
/// text never has more than 24 characters, all of them ASCII.
#[verifier::external_body]
pub(crate) fn float_text(n: u128) -> (r: String)
    ensures
        r@ == float_digits(n),
        n < 1_000_000_000_000_000 ==> r@ == decimal(n as nat) + ".0"@,
        0 < r@.len() <= 24,
        is_ascii_chars(r@),
{
    serde_json::to_string(&serde_json::Number::from_f64(n as _)).unwrap_or_default()
}

/// A whole number of seconds as a JSON number with a fraction.
pub open spec fn seconds_json(secs: u128) -> JsonV {
    JsonV::Number { unsigned: None, text: float_digits(secs) }
}

impl Json {
    /// A whole number of seconds as a JSON number with a fraction.
    pub fn seconds(secs: u128) -> (r: Json)
        ensures
            r@ == seconds_json(secs),
    {
        Json::Number { unsigned: None, text: float_text(secs) }
    }

    /// The compact text of the value.
    pub fn to_text(&self) -> (r: String)
        ensures
            r@ == json_text(self@),
        decreases self, 0nat,
    {
        match self {
            Json::Null => String::from_str("null"),
            Json::Bool(flag) => String::from_str(
                if *flag {
                    "true"
                } else {
                    "false"
                },
            ),
            Json::Number { text, .. } => text.clone(),
            Json::Text(text) => json_string(text.as_str()),
            Json::Array(items) => {
                let mut out = String::from_str("[");
                let mut i: usize = 0;
                proof {
                    lemma_array_view(*items);
                }
                let ghost shown = items_view(items@);
                assert(out@ =~= "["@ + items_text(shown, 0));
                while i < items.len()
                    invariant
                        i <= items@.len(),
                        *self == Json::Array(*items),
                        shown == items_view(items@),
                        out@ == "["@ + items_text(shown, i as nat),
                    decreases items@.len() - i,
                {
                    if i > 0 {
                        out.append(",");
                    }
                    assert(decreases_to!(*self => (*self)->Array_0));
                    assert(decreases_to!(items => items@));
                    assert(decreases_to!(items@ => items@[i as int]));
                    let item = items[i].to_text();
                    out.append(item.as_str());
                    assert(shown[i as int] == items@[i as int]@);
                    assert(out@ =~= "["@ + items_text(shown, (i + 1) as nat));
                    i = i + 1;
                }
                out.append("]");
                out
            },
            Json::Object(fields) => {
                let mut out = String::from_str("{");
                let mut i: usize = 0;
                proof {
                    lemma_object_view(*fields);
                }
                let ghost shown = fields_view(fields@);
                assert(out@ =~= "{"@ + fields_text(shown, 0));
                while i < fields.len()
                    invariant
                        i <= fields@.len(),
                        *self == Json::Object(*fields),
                        shown == fields_view(fields@),
                        out@ == "{"@ + fields_text(shown, i as nat),
                    decreases fields@.len() - i,
                {
                    if i > 0 {
                        out.append(",");
                    }
                    assert(decreases_to!(*self => (*self)->Object_0));
                    assert(decreases_to!(fields => fields@));
                    assert(decreases_to!(fields@ => fields@[i as int]));
                    assert(decreases_to!(fields@[i as int] => fields@[i as int].1));
                    let key = json_string(fields[i].0.as_str());
                    let value = fields[i].1.to_text();
                    out.append(key.as_str());
                    out.append(":");
                    out.append(value.as_str());
                    assert(shown[i as int] == (fields@[i as int].0@, fields@[i as int].1@));
                    assert(out@ =~= "{"@ + fields_text(shown, (i + 1) as nat));
                    i = i + 1;
                }
                out.append("}");
                out
            },
        }
    }
}

// ---- reading -----------------------------------------------------------------

/// `serde_json::Value`: a parsed value of the outside crate.
#[verifier::external_type_specification]
#[verifier::external_body]
pub struct ExValue(serde_json::Value);

/// The value that a `serde_json::Value` holds.
pub uninterp spec fn held(value: serde_json::Value) -> JsonV;

/// What `serde_json` reads from bytes; `None` where they are no JSON text.
pub uninterp spec fn json_parsed(bytes: Seq<u8>) -> Option<JsonV>;

/// An object of texts and unsigned integers, its keys in rising order.
pub open spec fn flat_object(value: JsonV) -> bool {
    match value {
        JsonV::Object(fields) => {
            &&& forall|i: int, j: int|
                0 <= i < j < fields.len() ==> text_less(
                    #[trigger] fields[i].0,
                    #[trigger] fields[j].0,
                )
            &&& forall|i: int|
                0 <= i < fields.len() ==> match (#[trigger] fields[i]).1 {
                    JsonV::Text(text) => true,
                    JsonV::Number { unsigned, text } => match unsigned {
                        Some(n) => text == decimal(n as nat),
                        None => false,
                    },
                    _ => false,
                }
        },
        _ => false,
    }
}

/// `serde_json::from_slice` into a `serde_json::Value`. Which bytes are JSON, and which value
/// they write, is left to the crate's parser and named `json_parsed`. One fact is stated: the
/// compact text of an object of texts and unsigned integers in the order of its keys reads
/// back as that object.
#[verifier::external_body]
fn parse_value(bytes: &[u8]) -> (r: Option<serde_json::Value>)
    ensures
        match r {
            Some(value) => json_parsed(bytes@) == Some(held(value)),
            None => json_parsed(bytes@) is None,
        },
        forall|value: JsonV|
            flat_object(value) && bytes@ == encode_utf8(#[trigger] json_text(value)) ==> r is Some
                && held(r->0) == value,
{
    serde_json::from_slice(bytes).ok()
}

/// One level of a `serde_json::Value`.
enum Node {
    Null,
    Bool(bool),
    Number { unsigned: Option<u64>, text: String },
    Text(String),
    Array(Vec<serde_json::Value>),
    Object(Vec<(String, serde_json::Value)>),
}

spec fn node_shows(node: Node, value: JsonV) -> bool {
    match node {
        Node::Null => value is Null,
        Node::Bool(flag) => value == JsonV::Bool(flag),
        Node::Number { unsigned, text } => value == (JsonV::Number { unsigned, text: text@ }),
        Node::Text(text) => value == JsonV::Text(text@),
        Node::Array(items) => value == JsonV::Array(
            items@.map_values(|item: serde_json::Value| held(item)),
        ),
        Node::Object(fields) => value == JsonV::Object(
            fields@.map_values(|field: (String, serde_json::Value)| (field.0@, held(field.1))),
        ),
    }
}

/// Tells the variants of a `serde_json::Value` apart and moves out what they hold: the flag,
/// `Number::as_u64` and the text of the number, the string, the items, the fields in the
/// order in which the crate's map walks them.
#[verifier::external_body]
fn open_value(value: serde_json::Value) -> (r: Node)
    ensures
        node_shows(r, held(value)),
{
    match value {
        serde_json::Value::Null => Node::Null,
        serde_json::Value::Bool(flag) => Node::Bool(flag),
        serde_json::Value::Number(number) => Node::Number {
            unsigned: number.as_u64(),
            text: number.to_string(),
        },
        serde_json::Value::String(text) => Node::Text(text),
        serde_json::Value::Array(items) => Node::Array(items),
        serde_json::Value::Object(fields) => Node::Object(fields.into_iter().collect()),
    }
}

fn from_value(value: serde_json::Value) -> (r: Json)
    ensures
        r@ == held(value),
    decreases held(value),
{
    let ghost whole = held(value);
    match open_value(value) {
        Node::Null => Json::Null,
        Node::Bool(flag) => Json::Bool(flag),
        Node::Number { unsigned, text } => Json::Number { unsigned, text },
        Node::Text(text) => Json::Text(text),
        Node::Array(items) => {
            let ghost all = items@;
            let ghost shown = whole->Array_0;
            assert(shown == all.map_values(|item: serde_json::Value| held(item)));
            let mut out: Vec<Json> = Vec::with_capacity(items.len());
            for item in it: items
                invariant
                    whole is Array && whole->Array_0 == shown,
                    whole == held(value),
                    it.seq() == all,
                    shown.len() == all.len(),
                    forall|i: int| 0 <= i < all.len() ==> #[trigger] shown[i] == held(all[i]),
                    out@.len() == it.index(),
                    forall|i: int| 0 <= i < out@.len() ==> (#[trigger] out@[i])@ == shown[i],
            {
                let ghost at = it.index() as int;
                assert(item == all[at]);
                assert(decreases_to!(whole => whole->Array_0));
                assert(decreases_to!(shown => shown[at]));
                out.push(from_value(item));
            }
            proof {
                lemma_array_view(out);
                assert(items_view(out@) =~= shown);
            }
            Json::Array(out)
        },
        Node::Object(fields) => {
            let ghost all = fields@;
            let ghost shown = whole->Object_0;
            assert(shown == all.map_values(
                |field: (String, serde_json::Value)| (field.0@, held(field.1)),
            ));
            let mut out: Vec<(String, Json)> = Vec::with_capacity(fields.len());
            for field in it: fields
                invariant
                    whole is Object && whole->Object_0 == shown,
                    whole == held(value),
                    it.seq() == all,
                    shown.len() == all.len(),
                    forall|i: int|
                        0 <= i < all.len() ==> #[trigger] shown[i] == (all[i].0@, held(all[i].1)),
                    out@.len() == it.index(),
                    forall|i: int|
                        0 <= i < out@.len() ==> ((#[trigger] out@[i]).0@, out@[i].1@) == shown[i],
            {
                let ghost at = it.index() as int;
                assert(field == all[at]);
                let (key, item) = field;
                assert(decreases_to!(whole => whole->Object_0));
                assert(decreases_to!(shown => shown[at]));
                assert(decreases_to!(shown[at] => shown[at].1));
                out.push((key, from_value(item)));
            }
            proof {
                lemma_object_view(out);
                assert(fields_view(out@) =~= shown);
            }
            Json::Object(out)
        },
    }
}

/// Reads a value from bytes. The text of an object of texts and unsigned integers, its keys
/// in rising order, reads back as that object.
pub fn parse(bytes: &[u8]) -> (r: Option<Json>)
    ensures
        match r {
            Some(value) => json_parsed(bytes@) == Some(value@),
            None => json_parsed(bytes@) is None,
        },
        forall|value: JsonV|
            flat_object(value) && bytes@ == encode_utf8(#[trigger] json_text(value)) ==> r is Some
                && r->0@ == value,
{
    match parse_value(bytes) {
        Some(value) => Some(from_value(value)),
        None => None,
    }
}

} // verus!
