//! Request parameters: reading them, checking them, and the errors that they give.
use crate::json::{plain, Json, JsonV};
use crate::protocol::{validation_error, ApiError, ErrV};
use crate::text::{
    all_digits, chars_of, cut, cut_at, is_digit, join, join3, lemma_cut, lemma_cut_parts,
    parse_decimal, parse_number, str_eq, strip_prefix, without_prefix,
};
use vstd::prelude::*;
use vstd::string::StringExecFns;
use vstd::utf8::encode_utf8;

verus! {

/// Whether a result shows the expected text or the expected error.
pub open spec fn shows_text(r: Result<&str, ApiError>, expected: Result<Seq<char>, ErrV>) -> bool {
    match r {
        Ok(text) => expected == Ok::<Seq<char>, ErrV>(text@),
        Err(error) => expected == Err::<Seq<char>, ErrV>(error@),
    }
}

/// Whether a result shows the expected value or the expected error.
pub open spec fn shows<T>(r: Result<T, ApiError>, expected: Result<T, ErrV>) -> bool {
    match r {
        Ok(value) => expected == Ok::<T, ErrV>(value),
        Err(error) => expected == Err::<T, ErrV>(error@),
    }
}

/// Whether a result shows the expected JSON value or the expected error.
pub open spec fn shows_json(r: Result<Json, ApiError>, expected: Result<JsonV, ErrV>) -> bool {
    match r {
        Ok(value) => expected == Ok::<JsonV, ErrV>(value@),
        Err(error) => expected == Err::<JsonV, ErrV>(error@),
    }
}

/// A text parameter that has to be there.
pub open spec fn required(req: JsonV, key: Seq<char>) -> Result<Seq<char>, ErrV> {
    match req.text_of(key) {
        Some(text) => Ok(text),
        None => Err(validation_error("Missing required parameter: "@ + key)),
    }
}

/// A text parameter that has to be there.
pub fn require_str<'a>(req: &'a Json, key: &str) -> (r: Result<&'a str, ApiError>)
    ensures
        shows_text(r, required(req@, key@)),
{
    match req.text_of(key) {
        Some(text) => Ok(text),
        None => Err(ApiError::validation(join("Missing required parameter: ", key))),
    }
}

/// Two texts with a colon between them.
pub open spec fn colon(a: Seq<char>, b: Seq<char>) -> Seq<char> {
    a + seq![':'] + b
}

/// Whether an ARN is that of a stream: `arn`, an AWS partition, `kinesis`, a region, an account
/// of twelve digits, and `stream/` with a valid stream name, with colons between them.
pub open spec fn is_stream_arn(
    arn: Seq<char>,
    partition: Seq<char>,
    region: Seq<char>,
    account: Seq<char>,
    name: Seq<char>,
) -> bool {
    &&& arn == colon(
        "arn"@,
        colon(
            partition,
            colon("kinesis"@, colon(region, colon(account, "stream/"@ + name))),
        ),
    )
    &&& is_partition(partition) && !partition.contains(':')
    &&& region.len() > 0 && !region.contains(':')
    &&& is_account(account)
    &&& valid_name(name)
}

/// Whether a text names an AWS partition: `aws`, or `aws-` and something more.
pub open spec fn is_partition(text: Seq<char>) -> bool {
    text == "aws"@ || without_prefix(text, "aws-"@) is Some
}

/// Whether a text is an account number: twelve digits.
pub open spec fn is_account(text: Seq<char>) -> bool {
    text.len() == 12 && all_digits(text)
}

/// The fields of an ARN.
pub struct ArnV {
    pub prefix: Seq<char>,
    pub partition: Seq<char>,
    pub service: Seq<char>,
    pub region: Seq<char>,
    pub account: Seq<char>,
    pub resource: Seq<char>,
}

/// The six fields of an ARN: the first five end at a colon, the last one holds the rest.
pub open spec fn arn_fields(arn: Seq<char>) -> Option<ArnV> {
    match cut(arn, ':') {
        None => None,
        Some((prefix, rest)) => match cut(rest, ':') {
            None => None,
            Some((partition, rest)) => match cut(rest, ':') {
                None => None,
                Some((service, rest)) => match cut(rest, ':') {
                    None => None,
                    Some((region, rest)) => match cut(rest, ':') {
                        None => None,
                        Some((account, resource)) => Some(
                            ArnV { prefix, partition, service, region, account, resource },
                        ),
                    },
                },
            },
        },
    }
}

/// The stream name in an ARN; `None` where it is not the ARN of a stream.
pub open spec fn arn_name(arn: Seq<char>) -> Option<Seq<char>> {
    match arn_fields(arn) {
        None => None,
        Some(fields) => if fields.prefix == "arn"@ && is_partition(fields.partition)
            && fields.service == "kinesis"@ && fields.region.len() > 0 && is_account(
            fields.account,
        ) {
            match without_prefix(fields.resource, "stream/"@) {
                Some(name) => if valid_name(name) {
                    Some(name)
                } else {
                    None
                },
                None => None,
            }
        } else {
            None
        },
    }
}

/// A name is found in an ARN exactly where that is the ARN of the stream of this name.
pub proof fn law_arn_names_its_stream(arn: Seq<char>, name: Seq<char>)
    ensures
        (arn_name(arn) == Some(name)) == exists|
            partition: Seq<char>,
            region: Seq<char>,
            account: Seq<char>,
        | #[trigger] is_stream_arn(arn, partition, region, account, name),
{
    if arn_name(arn) == Some(name) {
        let fields = arn_fields(arn)->0;
        let rest1 = (cut(arn, ':')->0).1;
        let rest2 = (cut(rest1, ':')->0).1;
        let rest3 = (cut(rest2, ':')->0).1;
        let rest4 = (cut(rest3, ':')->0).1;
        lemma_cut_parts(arn, ':');
        lemma_cut_parts(rest1, ':');
        lemma_cut_parts(rest2, ':');
        lemma_cut_parts(rest3, ':');
        lemma_cut_parts(rest4, ':');
        assert(fields.resource =~= "stream/"@ + name);
        assert(is_stream_arn(arn, fields.partition, fields.region, fields.account, name));
    }
    assert forall|partition: Seq<char>, region: Seq<char>, account: Seq<char>| #[trigger]
        is_stream_arn(arn, partition, region, account, name) implies arn_name(arn) == Some(name) by {
        lemma_arn_parts(arn, partition, region, account, name);
    }
}

proof fn lemma_arn_parts(
    arn: Seq<char>,
    partition: Seq<char>,
    region: Seq<char>,
    account: Seq<char>,
    name: Seq<char>,
)
    requires
        is_stream_arn(arn, partition, region, account, name),
    ensures
        arn_name(arn) == Some(name),
{
    let resource = "stream/"@ + name;
    let rest4 = colon(account, resource);
    let rest3 = colon(region, rest4);
    let rest2 = colon("kinesis"@, rest3);
    let rest1 = colon(partition, rest2);
    reveal_strlit("arn");
    reveal_strlit("kinesis");
    assert(!"arn"@.contains(':'));
    assert(!"kinesis"@.contains(':'));
    assert(!account.contains(':')) by {
        if account.contains(':') {
            let i = account.index_of(':');
            assert(account[i] == ':');
            assert(is_digit(account[i]));
        }
    }
    lemma_cut("arn"@, ':', rest1);
    lemma_cut(partition, ':', rest2);
    lemma_cut("kinesis"@, ':', rest3);
    lemma_cut(region, ':', rest4);
    lemma_cut(account, ':', resource);
    assert(resource.take("stream/"@.len() as int) =~= "stream/"@);
    assert(resource.skip("stream/"@.len() as int) =~= name);
}

/// The ARN that a stream is given names that stream.
pub proof fn law_given_arn_names_the_stream(name: Seq<char>)
    requires
        valid_name(name),
    ensures
        arn_name("arn:aws:kinesis:us-east-1:000000000000:stream/"@ + name) == Some(name),
{
    let head = "arn:aws:kinesis:us-east-1:000000000000:stream/"@;
    reveal_strlit("arn:aws:kinesis:us-east-1:000000000000:stream/");
    reveal_strlit("arn");
    reveal_strlit("aws");
    reveal_strlit("kinesis");
    reveal_strlit("us-east-1");
    reveal_strlit("000000000000");
    reveal_strlit("stream/");
    let short = colon(
        "arn"@,
        colon(
            "aws"@,
            colon("kinesis"@, colon("us-east-1"@, colon("000000000000"@, "stream/"@))),
        ),
    );
    assert(head.len() == 46);
    assert(short.len() == 46);
    assert(head =~= short);
    let arn = colon(
        "arn"@,
        colon(
            "aws"@,
            colon("kinesis"@, colon("us-east-1"@, colon("000000000000"@, "stream/"@ + name))),
        ),
    );
    assert(arn =~= short + name);
    assert(!"aws"@.contains(':'));
    assert(!"us-east-1"@.contains(':'));
    lemma_arn_parts(arn, "aws"@, "us-east-1"@, "000000000000"@, name);
}

/// Extracts the stream name from an ARN, which has to be the complete ARN of a stream.
pub fn arn_stream_name(arn: &str) -> (r: Option<&str>)
    ensures
        match arn_name(arn@) {
            Some(name) => r is Some && r->0@ == name,
            None => r is None,
        },
{
    let (prefix, rest) = match cut_at(arn, ':') {
        Some(parts) => parts,
        None => {
            return None;
        },
    };
    let (partition, rest) = match cut_at(rest, ':') {
        Some(parts) => parts,
        None => {
            return None;
        },
    };
    let (service, rest) = match cut_at(rest, ':') {
        Some(parts) => parts,
        None => {
            return None;
        },
    };
    let (region, rest) = match cut_at(rest, ':') {
        Some(parts) => parts,
        None => {
            return None;
        },
    };
    let (account, resource) = match cut_at(rest, ':') {
        Some(parts) => parts,
        None => {
            return None;
        },
    };
    let aws = str_eq(partition, "aws") || strip_prefix(partition, "aws-").is_some();
    if !str_eq(prefix, "arn") || !aws || !str_eq(service, "kinesis") || is_blank(region)
        || !account_number(account) {
        return None;
    }
    match strip_prefix(resource, "stream/") {
        Some(name) => if validate_stream_name(name).is_ok() {
            Some(name)
        } else {
            None
        },
        None => None,
    }
}

fn account_number(text: &str) -> (r: bool)
    ensures
        r == is_account(text@),
{
    let chars = chars_of(text);
    if chars.len() != 12 {
        return false;
    }
    let mut i: usize = 0;
    while i < 12
        invariant
            i <= 12,
            chars@ == text@,
            chars@.len() == 12,
            forall|k: int| 0 <= k < i ==> is_digit(#[trigger] text@[k]),
        decreases 12 - i,
    {
        let c = chars[i];
        if c < '0' || c > '9' {
            assert(!is_digit(text@[i as int]));
            return false;
        }
        i = i + 1;
    }
    true
}

/// Whether a text has no characters.
pub(crate) fn is_blank(text: &str) -> (r: bool)
    ensures
        r == (text@.len() == 0),
{
    let r = str_eq(text, "");
    proof {
        reveal_strlit("");
        assert(text@.len() == 0 ==> text@ =~= ""@);
    }
    r
}

/// An identifier that may be left out, but is a text where it is given.
pub open spec fn identifier(req: JsonV, key: Seq<char>) -> Result<Option<Seq<char>>, ErrV> {
    match req.get(key) {
        None => Ok(None),
        Some(value) => match value.as_str() {
            Some(text) => Ok(Some(text)),
            None => Err(validation_error(key + " must be a string when provided"@)),
        },
    }
}

fn parse_identifier<'a>(req: &'a Json, key: &str) -> (r: Result<Option<&'a str>, ApiError>)
    ensures
        match r {
            Ok(Some(text)) => identifier(req@, key@) == Ok::<Option<Seq<char>>, ErrV>(
                Some(text@),
            ),
            Ok(None) => identifier(req@, key@) == Ok::<Option<Seq<char>>, ErrV>(None),
            Err(error) => identifier(req@, key@) == Err::<Option<Seq<char>>, ErrV>(error@),
        },
{
    match req.get(key) {
        None => Ok(None),
        Some(value) => match value.as_str() {
            Some(text) => Ok(Some(text)),
            None => Err(ApiError::validation(join(key, " must be a string when provided"))),
        },
    }
}

/// The stream that a request names by `StreamName`, by `StreamARN`, or by both, which then
/// have to agree. One that is given but is no text is an error, never as good as absent.
pub open spec fn target_stream(req: JsonV) -> Result<Seq<char>, ErrV> {
    match identifier(req, "StreamName"@) {
        Err(error) => Err(error),
        Ok(name) => match identifier(req, "StreamARN"@) {
            Err(error) => Err(error),
            Ok(arn) => named_stream(name, arn),
        },
    }
}

/// The stream of a name, of an ARN, or of both.
pub open spec fn named_stream(name: Option<Seq<char>>, arn: Option<Seq<char>>) -> Result<
    Seq<char>,
    ErrV,
> {
    match arn {
        Some(arn) => match arn_name(arn) {
            None => Err(validation_error("Invalid StreamARN: "@ + arn)),
            Some(arn_name) => match name {
                Some(name) => if arn_name == name {
                    Ok(name)
                } else {
                    Err(
                        validation_error(
                            "StreamARN "@ + arn + " does not match StreamName "@ + name,
                        ),
                    )
                },
                None => Ok(arn_name),
            },
        },
        None => match name {
            Some(name) => Ok(name),
            None => Err(validation_error("Missing required parameter: StreamName"@)),
        },
    }
}

/// A supplied identifier of the wrong type is refused, whatever else the request holds.
pub proof fn law_identifiers_are_texts(req: JsonV)
    ensures
        req.get("StreamName"@) is Some && req.text_of("StreamName"@) is None ==> target_stream(req)
            == Err::<Seq<char>, ErrV>(
            validation_error("StreamName"@ + " must be a string when provided"@),
        ),
        req.get("StreamARN"@) is Some && req.text_of("StreamARN"@) is None ==> target_stream(
            req,
        ) is Err && target_stream(req)->Err_0.kind == "ValidationException"@,
{
}

/// Resolves the target stream name from a request. A request may give the ARN in place of the
/// name; when both are supplied they must agree, rather than a mismatched ARN being ignored.
pub fn resolve_stream_name(req: &Json) -> (r: Result<&str, ApiError>)
    ensures
        shows_text(r, target_stream(req@)),
{
    let name = match parse_identifier(req, "StreamName") {
        Ok(name) => name,
        Err(error) => {
            return Err(error);
        },
    };
    let arn = match parse_identifier(req, "StreamARN") {
        Ok(arn) => arn,
        Err(error) => {
            return Err(error);
        },
    };
    match arn {
        Some(arn) => match arn_stream_name(arn) {
            None => Err(ApiError::validation(join("Invalid StreamARN: ", arn))),
            Some(arn_name) => match name {
                Some(name) => if str_eq(arn_name, name) {
                    Ok(name)
                } else {
                    let mut message = join3("StreamARN ", arn, " does not match StreamName ");
                    message.append(name);
                    Err(ApiError::validation(message))
                },
                None => Ok(arn_name),
            },
        },
        None => match name {
            Some(name) => Ok(name),
            None => Err(
                ApiError::validation(
                    String::from_str("Missing required parameter: StreamName"),
                ),
            ),
        },
    }
}

/// A 128-bit number in decimal digits, named in the error where it is none.
pub open spec fn number_u128(text: Seq<char>, field: Seq<char>) -> Result<u128, ErrV> {
    match parse_decimal(text, u128::MAX as nat) {
        Some(n) => Ok(n as u128),
        None => Err(validation_error("Invalid "@ + field + ": "@ + text)),
    }
}

pub fn parse_u128(text: &str, field: &str) -> (r: Result<u128, ApiError>)
    ensures
        shows(r, number_u128(text@, field@)),
{
    match parse_number(text, u128::MAX) {
        Some(n) => Ok(n),
        None => {
            let mut message = join3("Invalid ", field, ": ");
            message.append(text);
            Err(ApiError::validation(message))
        },
    }
}

/// A 128-bit number that may be left out.
pub open spec fn optional_u128(req: JsonV, field: Seq<char>) -> Result<Option<u128>, ErrV> {
    match req.text_of(field) {
        None => Ok(None),
        Some(text) => match number_u128(text, field) {
            Ok(n) => Ok(Some(n)),
            Err(error) => Err(error),
        },
    }
}

pub fn optional_number(req: &Json, field: &str) -> (r: Result<Option<u128>, ApiError>)
    ensures
        shows(r, optional_u128(req@, field@)),
{
    match req.text_of(field) {
        None => Ok(None),
        Some(text) => match parse_u128(text, field) {
            Ok(n) => Ok(Some(n)),
            Err(error) => Err(error),
        },
    }
}

pub open spec fn is_name_char(c: char) -> bool {
    'a' <= c <= 'z' || 'A' <= c <= 'Z' || '0' <= c <= '9' || c == '_' || c == '.' || c == '-'
}

/// Whether a stream name satisfies `[a-zA-Z0-9_.-]{1,128}`.
pub open spec fn valid_name(name: Seq<char>) -> bool {
    0 < encode_utf8(name).len() <= 128 && forall|i: int|
        0 <= i < name.len() ==> is_name_char(#[trigger] name[i])
}

/// The error for a stream name that is not valid.
pub open spec fn name_error(name: Seq<char>) -> ErrV {
    validation_error(
        "1 validation error detected: Value '"@ + name + (if 0 < encode_utf8(name).len() <= 128 {
            "' at 'streamName' failed to satisfy constraint: Member must satisfy regular expression pattern: [a-zA-Z0-9_.-]+"@
        } else {
            "' at 'streamName' failed to satisfy constraint: Member must have length between 1 and 128"@
        }),
    )
}

/// A valid stream name stands between quotes as it is: it holds no quote, no backslash and no
/// control character.
pub proof fn law_valid_name_needs_no_escaping(name: Seq<char>)
    requires
        valid_name(name),
    ensures
        plain(name),
{
    assert forall|i: int| 0 <= i < name.len() implies is_name_char(#[trigger] name[i]) by {}
}

/// Enforces the stream-name constraint `[a-zA-Z0-9_.-]{1,128}`. It also guards the metrics
/// text, where the name is interpolated into a label.
pub fn validate_stream_name(name: &str) -> (r: Result<(), ApiError>)
    ensures
        match r {
            Ok(_) => valid_name(name@),
            Err(error) => !valid_name(name@) && error@ == name_error(name@),
        },
{
    let len: usize = name.as_bytes().len();
    if len == 0 || len > 128 {
        return Err(
            ApiError::validation(
                join3(
                    "1 validation error detected: Value '",
                    name,
                    "' at 'streamName' failed to satisfy constraint: Member must have length between 1 and 128",
                ),
            ),
        );
    }
    let chars = chars_of(name);
    let mut i: usize = 0;
    while i < chars.len()
        invariant
            i <= chars@.len(),
            chars@ == name@,
            0 < encode_utf8(name@).len() <= 128,
            forall|k: int| 0 <= k < i ==> is_name_char(#[trigger] name@[k]),
        decreases chars@.len() - i,
    {
        let c = chars[i];
        let alphanumeric = ('a' <= c && c <= 'z') || ('A' <= c && c <= 'Z') || ('0' <= c && c
            <= '9');
        if !(alphanumeric || c == '_' || c == '.' || c == '-') {
            assert(!is_name_char(name@[i as int]));
            return Err(
                ApiError::validation(
                    join3(
                        "1 validation error detected: Value '",
                        name,
                        "' at 'streamName' failed to satisfy constraint: Member must satisfy regular expression pattern: [a-zA-Z0-9_.-]+",
                    ),
                ),
            );
        }
        i = i + 1;
    }
    Ok(())
}

} // verus!
