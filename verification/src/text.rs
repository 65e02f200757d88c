//! Text: decimal numbers, prefixes and suffixes, and the byte order of strings.
use vstd::prelude::*;
use vstd::string::StrSliceExecFns;
use vstd::string::StringExecFns;
use vstd::utf8::{encode_utf8, encode_utf8_decode_utf8};

verus! {

// ---- decimal numbers ---------------------------------------------------------

/// The one-character text of a decimal digit.
pub open spec fn digit_text(digit: nat) -> Seq<char> {
    seq![('0' as nat + digit) as char]
}

/// The decimal text of a number, without leading zeros.
pub open spec fn decimal(n: nat) -> Seq<char>
    decreases n,
{
    if n < 10 {
        digit_text(n)
    } else {
        decimal(n / 10) + digit_text(n % 10)
    }
}

/// The decimal text of a number, filled up with zeros on the left to `width` characters.
pub open spec fn padded(n: nat, width: nat) -> Seq<char> {
    let text = decimal(n);
    if text.len() >= width {
        text
    } else {
        Seq::new((width - text.len()) as nat, |i: int| '0') + text
    }
}

pub open spec fn is_digit(c: char) -> bool {
    '0' <= c <= '9'
}

pub open spec fn all_digits(s: Seq<char>) -> bool {
    forall|i: int| 0 <= i < s.len() ==> is_digit(#[trigger] s[i])
}

/// The number that a run of decimal digits writes.
pub open spec fn digits_value(s: Seq<char>) -> nat
    decreases s.len(),
{
    if s.len() == 0 {
        0
    } else {
        10 * digits_value(s.drop_last()) + (s.last() as nat - '0' as nat) as nat
    }
}

/// The text without the plus sign that it may start with.
pub open spec fn unsigned_part(s: Seq<char>) -> Seq<char> {
    if s.len() > 0 && s[0] == '+' {
        s.drop_first()
    } else {
        s
    }
}

/// Reads an unsigned decimal number of at most `max`: one plus sign may stand in
/// front, and at least one digit has to follow.
pub open spec fn parse_decimal(s: Seq<char>, max: nat) -> Option<nat> {
    let digits = unsigned_part(s);
    if digits.len() > 0 && all_digits(digits) && digits_value(digits) <= max {
        Some(digits_value(digits))
    } else {
        None
    }
}

/// Writing a number and reading it back gives the number.
pub proof fn lemma_decimal_round_trip(n: nat, max: nat)
    requires
        n <= max,
    ensures
        parse_decimal(decimal(n), max) == Some(n),
{
    lemma_decimal_value(n);
    assert(is_digit(decimal(n)[0]));
}

pub proof fn lemma_decimal_value(n: nat)
    ensures
        decimal(n).len() > 0,
        all_digits(decimal(n)),
        digits_value(decimal(n)) == n,
    decreases n,
{
    if n >= 10 {
        lemma_decimal_value(n / 10);
        assert(decimal(n).drop_last() =~= decimal(n / 10));
        assert(decimal(n).last() as nat == '0' as nat + n % 10);
    } else {
        assert(decimal(n).drop_last() =~= seq![]);
        assert(digits_value(seq![]) == 0);
        assert(decimal(n).last() as nat == '0' as nat + n);
    }
}

/// Reading a padded number gives the number.
pub proof fn lemma_padded_round_trip(n: nat, width: nat, max: nat)
    requires
        n <= max,
    ensures
        parse_decimal(padded(n, width), max) == Some(n),
{
    lemma_decimal_value(n);
    let text = decimal(n);
    if text.len() < width {
        lemma_leading_zeros((width - text.len()) as nat, text);
    }
    assert(is_digit(padded(n, width)[0]));
}

proof fn lemma_leading_zeros(zeros: nat, text: Seq<char>)
    requires
        all_digits(text),
    ensures
        all_digits(Seq::new(zeros, |i: int| '0') + text),
        digits_value(Seq::new(zeros, |i: int| '0') + text) == digits_value(text),
    decreases text.len(), zeros,
{
    let all = Seq::new(zeros, |i: int| '0') + text;
    if text.len() > 0 {
        lemma_leading_zeros(zeros, text.drop_last());
        assert(all.drop_last() =~= Seq::new(zeros, |i: int| '0') + text.drop_last());
    } else if zeros > 0 {
        lemma_leading_zeros((zeros - 1) as nat, text);
        assert(all.drop_last() =~= Seq::new((zeros - 1) as nat, |i: int| '0') + text);
    }
}

fn digit_str(digit: u8) -> (r: &'static str)
    requires
        digit < 10,
    ensures
        r@ == digit_text(digit as nat),
{
    proof {
        reveal_strlit("0");
        reveal_strlit("1");
        reveal_strlit("2");
        reveal_strlit("3");
        reveal_strlit("4");
        reveal_strlit("5");
        reveal_strlit("6");
        reveal_strlit("7");
        reveal_strlit("8");
        reveal_strlit("9");
    }
    let r = match digit {
        0 => "0",
        1 => "1",
        2 => "2",
        3 => "3",
        4 => "4",
        5 => "5",
        6 => "6",
        7 => "7",
        8 => "8",
        _ => "9",
    };
    assert(r@ =~= digit_text(digit as nat));
    r
}

/// The decimal text of `n`.
pub fn decimal_text(n: u128) -> (r: String)
    ensures
        r@ == decimal(n as nat),
    decreases n,
{
    if n < 10 {
        String::from_str(digit_str(n as u8))
    } else {
        let mut text = decimal_text(n / 10);
        text.append(digit_str((n % 10) as u8));
        text
    }
}

/// The decimal text of `n`, filled up with zeros on the left to `width` characters.
pub fn padded_text(n: u64, width: usize) -> (r: String)
    ensures
        r@ == padded(n as nat, width as nat),
{
    let digits = decimal_text(n as u128);
    let len: usize = digits.as_str().unicode_len();
    if len >= width {
        return digits;
    }
    let mut text = String::new();
    let mut i: usize = 0;
    let zeros: usize = width - len;
    assert(text@ =~= Seq::new(0, |k: int| '0'));
    while i < zeros
        invariant
            i <= zeros,
            text@ == Seq::new(i as nat, |k: int| '0'),
        decreases zeros - i,
    {
        text.append("0");
        proof {
            reveal_strlit("0");
        }
        i = i + 1;
        assert(text@ =~= Seq::new(i as nat, |k: int| '0'));
    }
    text.append(digits.as_str());
    text
}

/// The characters of a string, one by one.
pub fn chars_of(s: &str) -> (r: Vec<char>)
    ensures
        r@ == s@,
{
    let mut out: Vec<char> = Vec::new();
    for c in it: s.chars()
        invariant
            it.seq() == s@,
            out@ == s@.take(it.index() as int),
    {
        out.push(c);
        assert(out@ =~= s@.take(it.index() + 1));
    }
    assert(out@ =~= s@);
    out
}

proof fn lemma_digits_value_prefix(s: Seq<char>, i: int)
    requires
        0 <= i <= s.len(),
        all_digits(s),
    ensures
        digits_value(s.take(i)) <= digits_value(s),
    decreases s.len() - i,
{
    if i < s.len() {
        lemma_digits_value_prefix(s, i + 1);
        assert(s.take(i + 1).drop_last() =~= s.take(i));
    } else {
        assert(s.take(i) =~= s);
    }
}

/// Reads an unsigned decimal number of at most `max`.
pub fn parse_number(s: &str, max: u128) -> (r: Option<u128>)
    ensures
        match parse_decimal(s@, max as nat) {
            Some(n) => r == Some(n as u128) && n <= max,
            None => r is None,
        },
{
    let chars = chars_of(s);
    let start: usize = if chars.len() > 0 && chars[0] == '+' {
        1
    } else {
        0
    };
    let ghost digits = unsigned_part(s@);
    assert(digits =~= s@.skip(start as int));
    if start == chars.len() {
        return None;
    }
    let mut value: u128 = 0;
    let mut i: usize = start;
    while i < chars.len()
        invariant
            start <= i <= chars.len(),
            chars@ == s@,
            digits == s@.skip(start as int),
            digits == unsigned_part(s@),
            start <= 1,
            all_digits(digits.take(i - start)),
            value as nat == digits_value(digits.take(i - start)),
            value <= max,
        decreases chars.len() - i,
    {
        let c = chars[i];
        assert(c == digits[i - start]);
        if c < '0' || c > '9' {
            assert(!is_digit(digits[i - start]));
            return None;
        }
        let d: u128 = (c as u32 - '0' as u32) as u128;
        assert(digits.take(i - start + 1).drop_last() =~= digits.take(i - start));
        assert(digits.take(i - start + 1).last() == c);
        assert(digits_value(digits.take(i - start + 1)) == 10 * value + d);
        if d > max || value > (max - d) / 10 {
            proof {
                if all_digits(digits) {
                    lemma_digits_value_prefix(digits, i - start + 1);
                }
            }
            return None;
        }
        value = value * 10 + d;
        assert(all_digits(digits.take(i - start + 1))) by {
            assert forall|k: int| 0 <= k < i - start + 1 implies is_digit(
                #[trigger] digits.take(i - start + 1)[k],
            ) by {
                if k < i - start {
                    assert(digits.take(i - start)[k] == digits[k]);
                }
            }
        }
        i = i + 1;
    }
    assert(digits.take(chars.len() - start) =~= digits);
    Some(value)
}

// ---- comparing and cutting ---------------------------------------------------

/// Whether two strings hold the same characters.
pub fn str_eq(a: &str, b: &str) -> (r: bool)
    ensures
        r == (a@ == b@),
{
    let x = a.as_bytes();
    let y = b.as_bytes();
    proof {
        encode_utf8_decode_utf8(a@);
        encode_utf8_decode_utf8(b@);
    }
    if x.len() != y.len() {
        return false;
    }
    let mut i: usize = 0;
    while i < x.len()
        invariant
            i <= x@.len(),
            x@.len() == y@.len(),
            x@ == encode_utf8(a@),
            y@ == encode_utf8(b@),
            forall|k: int| 0 <= k < i ==> x@[k] == y@[k],
        decreases x@.len() - i,
    {
        if x[i] != y[i] {
            return false;
        }
        i = i + 1;
    }
    assert(x@ =~= y@);
    true
}

/// `rest` such that `s` is `prefix` followed by `rest`.
pub open spec fn without_prefix(s: Seq<char>, prefix: Seq<char>) -> Option<Seq<char>> {
    if prefix.len() <= s.len() && s.take(prefix.len() as int) == prefix {
        Some(s.skip(prefix.len() as int))
    } else {
        None
    }
}

/// `rest` such that `s` is `rest` followed by `suffix`.
pub open spec fn without_suffix(s: Seq<char>, suffix: Seq<char>) -> Option<Seq<char>> {
    if suffix.len() <= s.len() && s.skip(s.len() - suffix.len()) == suffix {
        Some(s.take(s.len() - suffix.len()))
    } else {
        None
    }
}

fn matches_at(s: &Vec<char>, at: usize, part: &Vec<char>) -> (r: bool)
    requires
        at + part@.len() <= s@.len(),
    ensures
        r == (s@.subrange(at as int, at + part@.len()) == part@),
{
    let total: usize = s.len();
    let mut i: usize = 0;
    while i < part.len()
        invariant
            i <= part@.len(),
            at + part@.len() <= s@.len(),
            total == s@.len(),
            forall|k: int| 0 <= k < i ==> s@[at + k] == part@[k],
        decreases part@.len() - i,
    {
        if s[at + i] != part[i] {
            assert(s@.subrange(at as int, at + part@.len())[i as int] != part@[i as int]);
            return false;
        }
        i = i + 1;
    }
    assert(s@.subrange(at as int, at + part@.len()) =~= part@);
    true
}

pub fn strip_prefix<'a>(s: &'a str, prefix: &str) -> (r: Option<&'a str>)
    ensures
        match without_prefix(s@, prefix@) {
            Some(rest) => r is Some && r->0@ == rest,
            None => r is None,
        },
{
    let chars = chars_of(s);
    let head = chars_of(prefix);
    if head.len() <= chars.len() && matches_at(&chars, 0, &head) {
        let rest = s.substring_char(head.len(), chars.len());
        assert(s@.subrange(0, prefix@.len() as int) =~= s@.take(prefix@.len() as int));
        assert(rest@ =~= s@.skip(prefix@.len() as int));
        Some(rest)
    } else {
        assert(prefix@.len() <= s@.len() ==> s@.subrange(0, prefix@.len() as int) =~= s@.take(
            prefix@.len() as int,
        ));
        None
    }
}

pub fn strip_suffix<'a>(s: &'a str, suffix: &str) -> (r: Option<&'a str>)
    ensures
        match without_suffix(s@, suffix@) {
            Some(rest) => r is Some && r->0@ == rest,
            None => r is None,
        },
{
    let chars = chars_of(s);
    let tail = chars_of(suffix);
    if tail.len() > chars.len() {
        return None;
    }
    let at: usize = chars.len() - tail.len();
    assert(s@.subrange(at as int, at + suffix@.len()) =~= s@.skip(at as int));
    if matches_at(&chars, at, &tail) {
        let rest = s.substring_char(0, at);
        assert(rest@ =~= s@.take(at as int));
        Some(rest)
    } else {
        None
    }
}

/// What stands before and behind the first `separator`; `None` where there is none.
pub open spec fn cut(s: Seq<char>, separator: char) -> Option<(Seq<char>, Seq<char>)>
    decreases s.len(),
{
    if s.len() == 0 {
        None
    } else if s[0] == separator {
        Some((Seq::empty(), s.drop_first()))
    } else {
        match cut(s.drop_first(), separator) {
            Some((head, rest)) => Some((seq![s[0]] + head, rest)),
            None => None,
        }
    }
}

/// A text cut in two is what stands before the separator, the separator, and what stands
/// behind it.
pub proof fn lemma_cut_parts(s: Seq<char>, separator: char)
    ensures
        match cut(s, separator) {
            Some((head, rest)) => s == head + seq![separator] + rest && !head.contains(separator),
            None => !s.contains(separator),
        },
    decreases s.len(),
{
    if s.len() > 0 && s[0] != separator {
        let tail = s.drop_first();
        lemma_cut_parts(tail, separator);
        match cut(tail, separator) {
            Some((head, rest)) => {
                let longer = seq![s[0]] + head;
                assert(s =~= seq![s[0]] + tail);
                assert(seq![s[0]] + (head + seq![separator] + rest) =~= longer + seq![separator]
                    + rest);
                if longer.contains(separator) {
                    let i = longer.index_of(separator);
                    assert(longer[i] == separator);
                    assert(head[i - 1] == separator);
                }
            },
            None => {
                if s.contains(separator) {
                    let i = s.index_of(separator);
                    assert(s[i] == separator);
                    assert(tail[i - 1] == separator);
                }
            },
        }
    } else if s.len() > 0 {
        assert(s =~= Seq::empty() + seq![separator] + s.drop_first());
    }
}

/// A text is cut where it was put together.
pub proof fn lemma_cut(head: Seq<char>, separator: char, rest: Seq<char>)
    requires
        !head.contains(separator),
    ensures
        cut(head + seq![separator] + rest, separator) == Some((head, rest)),
    decreases head.len(),
{
    let s = head + seq![separator] + rest;
    if head.len() == 0 {
        assert(s.drop_first() =~= rest);
        assert(head =~= Seq::empty());
    } else {
        let tail = head.drop_first();
        assert(head.contains(head[0]));
        if tail.contains(separator) {
            let i = tail.index_of(separator);
            assert(head[i + 1] == separator);
        }
        lemma_cut(tail, separator, rest);
        assert(s.drop_first() =~= tail + seq![separator] + rest);
        assert(seq![head[0]] + tail =~= head);
    }
}

pub fn cut_at<'a>(s: &'a str, separator: char) -> (r: Option<(&'a str, &'a str)>)
    ensures
        match r {
            Some((head, rest)) => cut(s@, separator) == Some((head@, rest@)),
            None => cut(s@, separator) is None,
        },
{
    let chars = chars_of(s);
    let mut i: usize = 0;
    while i < chars.len() && chars[i] != separator
        invariant
            i <= chars@.len(),
            chars@ == s@,
            forall|k: int| 0 <= k < i ==> s@[k] != separator,
        decreases chars@.len() - i,
    {
        i = i + 1;
    }
    if i == chars.len() {
        proof {
            lemma_cut_parts(s@, separator);
            if let Some((head, rest)) = cut(s@, separator) {
                assert(s@[head.len() as int] == separator);
            }
        }
        return None;
    }
    let head = s.substring_char(0, i);
    let rest = s.substring_char(i + 1, chars.len());
    proof {
        assert(head@ + seq![separator] + rest@ =~= s@);
        lemma_cut(head@, separator, rest@);
    }
    Some((head, rest))
}

// ---- the order of strings ----------------------------------------------------

/// Whether `a` comes before `b` in the order of strings: at the first place where they
/// differ the smaller character stands in `a`, or `a` ends first.
pub open spec fn text_less(a: Seq<char>, b: Seq<char>) -> bool
    decreases a.len(),
{
    if b.len() == 0 {
        false
    } else if a.len() == 0 {
        true
    } else if a[0] == b[0] {
        text_less(a.drop_first(), b.drop_first())
    } else {
        a[0] < b[0]
    }
}

/// Exactly one of two different strings comes before the other.
pub proof fn lemma_text_order(a: Seq<char>, b: Seq<char>)
    ensures
        a == b ==> !text_less(a, b),
        a != b ==> text_less(a, b) != text_less(b, a),
    decreases a.len(),
{
    if a.len() > 0 && b.len() > 0 {
        if a[0] == b[0] {
            lemma_text_order(a.drop_first(), b.drop_first());
            if a != b && a.drop_first() == b.drop_first() {
                assert(a =~= seq![a[0]] + a.drop_first());
                assert(b =~= seq![b[0]] + b.drop_first());
            }
        }
    } else if a.len() == 0 && b.len() == 0 {
        assert(a =~= b);
    }
}

pub proof fn lemma_text_less_transitive(a: Seq<char>, b: Seq<char>, c: Seq<char>)
    requires
        text_less(a, b),
        text_less(b, c),
    ensures
        text_less(a, c),
    decreases a.len(),
{
    if a.len() > 0 && b.len() > 0 && c.len() > 0 && a[0] == b[0] && b[0] == c[0] {
        lemma_text_less_transitive(a.drop_first(), b.drop_first(), c.drop_first());
    }
}

/// Whether `a` comes before `b` in the order of strings.
pub fn less(a: &str, b: &str) -> (r: bool)
    ensures
        r == text_less(a@, b@),
{
    let x = chars_of(a);
    let y = chars_of(b);
    let mut i: usize = 0;
    assert(x@.skip(0) =~= x@);
    assert(y@.skip(0) =~= y@);
    while i < x.len() && i < y.len()
        invariant
            i <= x@.len(),
            i <= y@.len(),
            x@ == a@,
            y@ == b@,
            text_less(a@, b@) == text_less(x@.skip(i as int), y@.skip(i as int)),
        decreases x@.len() - i,
    {
        assert(x@.skip(i as int)[0] == x@[i as int]);
        assert(y@.skip(i as int)[0] == y@[i as int]);
        if x[i] != y[i] {
            return x[i] < y[i];
        }
        assert(x@.skip(i as int).drop_first() =~= x@.skip(i + 1));
        assert(y@.skip(i as int).drop_first() =~= y@.skip(i + 1));
        i = i + 1;
    }
    i < y.len()
}

// ---- blanks ------------------------------------------------------------------

/// Whether a character is white space in Unicode.
pub open spec fn is_space(c: char) -> bool {
    let n = c as nat;
    ||| 0x09 <= n <= 0x0d
    ||| n == 0x20
    ||| n == 0x85
    ||| n == 0xa0
    ||| n == 0x1680
    ||| 0x2000 <= n <= 0x200a
    ||| n == 0x2028
    ||| n == 0x2029
    ||| n == 0x202f
    ||| n == 0x205f
    ||| n == 0x3000
}

fn space(c: char) -> (r: bool)
    ensures
        r == is_space(c),
{
    let n: u32 = c as u32;
    (0x09 <= n && n <= 0x0d) || n == 0x20 || n == 0x85 || n == 0xa0 || n == 0x1680 || (0x2000 <= n
        && n <= 0x200a) || n == 0x2028 || n == 0x2029 || n == 0x202f || n == 0x205f || n == 0x3000
}

/// Whether a text holds nothing but white space.
pub open spec fn blank(s: Seq<char>) -> bool {
    forall|i: int| 0 <= i < s.len() ==> is_space(#[trigger] s[i])
}

/// Whether a text holds nothing but white space.
pub fn all_blank(s: &str) -> (r: bool)
    ensures
        r == blank(s@),
{
    for c in it: s.chars()
        invariant
            it.seq() == s@,
            forall|i: int| 0 <= i < it.index() ==> is_space(#[trigger] s@[i]),
    {
        if !space(c) {
            assert(!is_space(s@[it.index() as int]));
            return false;
        }
    }
    true
}

/// Where the first character at or behind `from` is that is white space, or is none; the
/// length where there is no such character.
pub open spec fn next_where(s: Seq<char>, from: int, wanted: bool) -> int
    decreases s.len() - from,
{
    if from >= s.len() || is_space(s[from]) == wanted {
        from
    } else {
        next_where(s, from + 1, wanted)
    }
}

/// The `n`-th word of a text, where words are parted by white space.
pub open spec fn word(s: Seq<char>, from: int, n: nat) -> Option<Seq<char>>
    decreases n,
{
    let start = next_where(s, from, false);
    let end = next_where(s, start, true);
    if start >= s.len() {
        None
    } else if n == 0 {
        Some(s.subrange(start, end))
    } else {
        word(s, end, (n - 1) as nat)
    }
}

fn skip_until(chars: &Vec<char>, from: usize, wanted: bool) -> (r: usize)
    requires
        from <= chars@.len(),
    ensures
        r == next_where(chars@, from as int, wanted),
        from <= r <= chars@.len(),
{
    let mut at: usize = from;
    while at < chars.len() && space(chars[at]) != wanted
        invariant
            from <= at <= chars@.len(),
            next_where(chars@, from as int, wanted) == next_where(chars@, at as int, wanted),
        decreases chars@.len() - at,
    {
        at = at + 1;
    }
    at
}

/// The `n`-th word of a text, counted from 0.
pub fn nth_word<'a>(s: &'a str, n: usize) -> (r: Option<&'a str>)
    ensures
        match word(s@, 0, n as nat) {
            Some(text) => r is Some && r->0@ == text,
            None => r is None,
        },
{
    let chars = chars_of(s);
    let mut from: usize = 0;
    let mut left: usize = n;
    loop
        invariant
            chars@ == s@,
            from <= chars@.len(),
            left <= n,
            word(s@, 0, n as nat) == word(s@, from as int, left as nat),
        decreases left,
    {
        let start: usize = skip_until(&chars, from, false);
        let end: usize = skip_until(&chars, start, true);
        if start >= chars.len() {
            return None;
        }
        if left == 0 {
            return Some(s.substring_char(start, end));
        }
        left = left - 1;
        from = end;
    }
}

// ---- bytes of strings --------------------------------------------------------

/// The bytes of one string after the other are the bytes of both.
pub proof fn lemma_utf8_concat(a: Seq<char>, b: Seq<char>)
    ensures
        encode_utf8(a + b) == encode_utf8(a) + encode_utf8(b),
    decreases a.len(),
{
    if a.len() == 0 {
        assert(a + b =~= b);
        assert(encode_utf8(a) + encode_utf8(b) =~= encode_utf8(b));
    } else {
        lemma_utf8_concat(a.drop_first(), b);
        assert((a + b).drop_first() =~= a.drop_first() + b);
        assert(encode_utf8(a + b) =~= encode_utf8(a) + encode_utf8(b));
    }
}

pub open spec fn pow10(n: nat) -> nat
    decreases n,
{
    if n == 0 {
        1
    } else {
        10 * pow10((n - 1) as nat)
    }
}

/// A number below 10^n has at most n decimal digits.
pub proof fn lemma_decimal_len(value: nat, n: nat)
    requires
        value < pow10(n),
        n > 0,
    ensures
        decimal(value).len() <= n,
    decreases n,
{
    reveal_with_fuel(pow10, 2);
    if value >= 10 {
        assert(n > 1);
        lemma_decimal_len(value / 10, (n - 1) as nat);
    }
}

// ---- building ----------------------------------------------------------------

/// One string after the other.
pub fn join(a: &str, b: &str) -> (r: String)
    ensures
        r@ == a@ + b@,
{
    let mut text = String::from_str(a);
    text.append(b);
    text
}

/// Three strings, one after the other.
pub fn join3(a: &str, b: &str, c: &str) -> (r: String)
    ensures
        r@ == a@ + b@ + c@,
{
    let mut text = join(a, b);
    text.append(c);
    text
}

/// Appends the bytes of a slice.
pub fn push_bytes(out: &mut Vec<u8>, bytes: &[u8])
    ensures
        final(out)@ == old(out)@ + bytes@,
{
    out.extend_from_slice(bytes);
    assert(out@ =~= old(out)@ + bytes@);
}

/// Appends the bytes of a string.
pub fn push_text(out: &mut Vec<u8>, s: &str)
    ensures
        final(out)@ == old(out)@ + encode_utf8(s@),
{
    push_bytes(out, s.as_bytes());
}

} // verus!
