use crate::parser::{
    fmap_by, left, lemma_span_len_at, lemma_span_len_bound, lemma_span_len_stop, or, or_spec,
    right, span_len, string_p, CharPredicate, Fmap, Left, Literal, Or, ParseResult, Parser, Right,
    Span, Transform,
};
use std::collections::HashMap;
use vstd::prelude::*;

verus! {

/// A JSON value. The grammar of this crate produces only the scalar variants.
#[derive(Debug, PartialEq)]
pub enum JsonValue {
    JsonNull,
    JsonBool(bool),
    JsonNumber(u64),
    JsonString(String),
    JsonArray(Vec<Box<JsonValue>>),
    JsonObject(HashMap<String, Box<JsonValue>>),
}

/// The mathematical model of a [`JsonValue`]; object keys are taken by their text.
pub enum JsonModel {
    Null,
    Bool(bool),
    Number(u64),
    Text(Seq<char>),
    Array(Seq<JsonModel>),
    Object(Map<Seq<char>, JsonModel>),
}

/// The model of `v`: texts as character sequences, containers element by element.
pub open spec fn json_view(v: &JsonValue) -> JsonModel
    decreases v,
{
    match v {
        JsonValue::JsonNull => JsonModel::Null,
        JsonValue::JsonBool(b) => JsonModel::Bool(*b),
        JsonValue::JsonNumber(n) => JsonModel::Number(*n),
        JsonValue::JsonString(s) => JsonModel::Text(s@),
        JsonValue::JsonArray(a) => JsonModel::Array(
            Seq::new(
                a@.len(),
                |i: int|
                    if 0 <= i < a@.len() {
                        json_view(&*a@[i])
                    } else {
                        JsonModel::Null
                    },
            ),
        ),
        JsonValue::JsonObject(m) => JsonModel::Object(
            Map::new(
                |k: Seq<char>| exists|key: String| key@ == k && #[trigger] m@.contains_key(key),
                |k: Seq<char>|
                    {
                        let key = choose|key: String| key@ == k && #[trigger] m@.contains_key(key);
                        if m@.contains_key(key) {
                            json_view(&*m@[key])
                        } else {
                            JsonModel::Null
                        }
                    },
            ),
        ),
    }
}

impl DeepView for JsonValue {
    type V = JsonModel;

    open spec fn deep_view(&self) -> JsonModel {
        json_view(self)
    }
}

pub open spec fn null_text() -> Seq<char> {
    seq!['n', 'u', 'l', 'l']
}

/// Model of the `null` parser.
pub open spec fn null_spec(s: Seq<char>) -> Option<(JsonModel, Seq<char>)> {
    if null_text().is_prefix_of(s) {
        Some((JsonModel::Null, s.skip(4)))
    } else {
        None
    }
}

/// Turns any matched text into `null`.
pub struct ToNull;

impl Transform<String, JsonValue> for ToNull {
    open spec fn transform_ready(&self) -> bool {
        true
    }

    open spec fn spec_apply(&self, av: Seq<char>) -> JsonModel {
        JsonModel::Null
    }

    fn apply(&self, a: String) -> (b: JsonValue) {
        JsonValue::JsonNull
    }
}

/// `null` mapped to the null value.
pub type NullParser = Fmap<Literal, ToNull, String, JsonValue>;

/// A parser for the literal `null`.
pub fn parse_null() -> (r: NullParser)
    ensures
        r.well_formed(),
        forall|s: Seq<char>| r.spec_parse(s) == null_spec(s),
{
    let lit = string_p("null".to_owned());
    proof {
        reveal_strlit("null");
        assert(lit.lit@ =~= null_text());
    }
    let r = fmap_by(lit, ToNull);
    assert forall|s: Seq<char>| r.spec_parse(s) == null_spec(s) by {
        assert(null_text().len() == 4);
    }
    r
}

pub open spec fn true_text() -> Seq<char> {
    seq!['t', 'r', 'u', 'e']
}

pub open spec fn false_text() -> Seq<char> {
    seq!['f', 'a', 'l', 's', 'e']
}

/// Model of the boolean parser.
pub open spec fn bool_spec(s: Seq<char>) -> Option<(JsonModel, Seq<char>)> {
    if true_text().is_prefix_of(s) {
        Some((JsonModel::Bool(true), s.skip(4)))
    } else if false_text().is_prefix_of(s) {
        Some((JsonModel::Bool(false), s.skip(5)))
    } else {
        None
    }
}

/// Turns the text `true` into `true` and any other text into `false`.
pub struct ToBool;

impl Transform<String, JsonValue> for ToBool {
    open spec fn transform_ready(&self) -> bool {
        true
    }

    open spec fn spec_apply(&self, av: Seq<char>) -> JsonModel {
        JsonModel::Bool(av == true_text())
    }

    fn apply(&self, a: String) -> (b: JsonValue) {
        let t = "true".to_owned();
        proof {
            reveal_strlit("true");
            assert(t@ =~= true_text());
        }
        JsonValue::JsonBool(a == t)
    }
}

/// `true` or `false` mapped to a boolean value.
pub type BoolParser = Fmap<Or<Literal, Literal>, ToBool, String, JsonValue>;

/// A parser for the literals `true` and `false`.
pub fn parse_bool() -> (r: BoolParser)
    ensures
        r.well_formed(),
        forall|s: Seq<char>| r.spec_parse(s) == bool_spec(s),
{
    let t = string_p("true".to_owned());
    let f = string_p("false".to_owned());
    proof {
        reveal_strlit("true");
        reveal_strlit("false");
        assert(t.lit@ =~= true_text());
        assert(f.lit@ =~= false_text());
    }
    let r = fmap_by(or(t, f), ToBool);
    assert forall|s: Seq<char>| r.spec_parse(s) == bool_spec(s) by {
        assert(true_text().len() == 4);
        assert(false_text().len() == 5);
        assert(false_text() != true_text());
    }
    r
}

pub open spec fn quote_text() -> Seq<char> {
    seq!['"']
}

/// A parser for one double quote.
pub fn parse_quote() -> (r: Literal)
    ensures
        r.lit@ == quote_text(),
{
    let q = string_p("\"".to_owned());
    proof {
        reveal_strlit("\"");
        assert(q.lit@ =~= quote_text());
    }
    q
}

/// Passes every character but the double quote.
pub struct NotQuote;

impl CharPredicate for NotQuote {
    open spec fn pred_ready(&self) -> bool {
        true
    }

    open spec fn holds(&self, c: char) -> bool {
        c != '"'
    }

    fn test(&self, c: &char) -> (b: bool) {
        *c != '"'
    }
}

/// Model of the string parser: a quote, the longest run without a quote, and a quote.
pub open spec fn string_spec(s: Seq<char>) -> Option<(JsonModel, Seq<char>)> {
    if s.len() > 0 && s[0] == '"' {
        let k = span_len(NotQuote, s.skip(1)) as int;
        if k + 1 < s.len() {
            Some((JsonModel::Text(s.subrange(1, k + 1)), s.skip(k + 2)))
        } else {
            None
        }
    } else {
        None
    }
}

/// Wraps text as a JSON string.
pub struct ToJsonString;

impl Transform<String, JsonValue> for ToJsonString {
    open spec fn transform_ready(&self) -> bool {
        true
    }

    open spec fn spec_apply(&self, av: Seq<char>) -> JsonModel {
        JsonModel::Text(av)
    }

    fn apply(&self, a: String) -> (b: JsonValue) {
        JsonValue::JsonString(a)
    }
}

/// A quote, a run of characters other than the quote, and a quote, mapped to a string value.
pub type StringParser = Fmap<
    Left<Right<Literal, Span<NotQuote>>, Literal>,
    ToJsonString,
    String,
    JsonValue,
>;

/// A parser for a double-quoted string without escapes.
pub fn parse_string() -> (r: StringParser)
    ensures
        r.well_formed(),
        forall|s: Seq<char>| r.spec_parse(s) == string_spec(s),
{
    let body = Span { pred: NotQuote };
    let r = fmap_by(left(right(parse_quote(), body), parse_quote()), ToJsonString);
    assert forall|s: Seq<char>| r.spec_parse(s) == string_spec(s) by {
        if s.len() > 0 && s[0] == '"' {
            assert(quote_text().is_prefix_of(s));
            let t = s.skip(1);
            let k = span_len(NotQuote, t) as int;
            lemma_span_len_bound(NotQuote, t);
            if k < t.len() {
                lemma_span_len_stop(NotQuote, t);
                assert(quote_text().is_prefix_of(t.skip(k)));
                assert(t.skip(k).skip(1) =~= s.skip(k + 2));
            } else {
                assert(!quote_text().is_prefix_of(t.skip(k)));
            }
            assert(t.take(k) =~= s.subrange(1, k + 1));
        } else if s.len() > 0 {
            assert(s.take(1)[0] != quote_text()[0]);
        }
    }
    r
}

/// Passes the decimal digits `0` to `9`.
pub struct IsDigit;

impl CharPredicate for IsDigit {
    open spec fn pred_ready(&self) -> bool {
        true
    }

    open spec fn holds(&self, c: char) -> bool {
        '0' <= c && c <= '9'
    }

    fn test(&self, c: &char) -> (b: bool) {
        '0' <= *c && *c <= '9'
    }
}

/// The value of a decimal digit.
pub open spec fn digit_value(c: char) -> nat {
    ((c as u32) - ('0' as u32)) as nat
}

/// The number that a run of decimal digits denotes.
pub open spec fn digits_value(d: Seq<char>) -> nat
    decreases d.len(),
{
    if d.len() == 0 {
        0
    } else {
        digits_value(d.drop_last()) * 10 + digit_value(d.last())
    }
}

/// A longer run of digits never denotes a smaller number.
pub proof fn lemma_digits_value_prefix(d: Seq<char>, i: int)
    requires
        0 <= i <= d.len(),
    ensures
        digits_value(d.take(i)) <= digits_value(d),
    decreases d.len(),
{
    if i < d.len() {
        assert(d.drop_last().take(i) =~= d.take(i));
        lemma_digits_value_prefix(d.drop_last(), i);
    } else {
        assert(d.take(i) =~= d);
    }
}

/// Model of the number parser: the longest run of digits, which must be non-empty and
/// denote a number that fits in 64 bits.
pub open spec fn number_spec(s: Seq<char>) -> Option<(JsonModel, Seq<char>)> {
    let k = span_len(IsDigit, s) as int;
    if k == 0 {
        None
    } else if digits_value(s.take(k)) <= u64::MAX {
        Some((JsonModel::Number(digits_value(s.take(k)) as u64), s.skip(k)))
    } else {
        None
    }
}

/// The number that the digit run `d` denotes, or `None` where it does not fit in 64 bits.
pub fn decimal_value(d: &str) -> (r: Option<u64>)
    requires
        forall|j: int| 0 <= j < d@.len() ==> IsDigit.holds(#[trigger] d@[j]),
    ensures
        r == (if digits_value(d@) <= u64::MAX {
            Some(digits_value(d@) as u64)
        } else {
            None
        }),
{
    let n = d.unicode_len();
    let mut acc: u64 = 0;
    let mut i: usize = 0;
    while i < n
        invariant
            n == d@.len(),
            i <= n,
            acc == digits_value(d@.take(i as int)),
            forall|j: int| 0 <= j < d@.len() ==> IsDigit.holds(#[trigger] d@[j]),
        decreases n - i,
    {
        let c = d.get_char(i);
        let dv = (c as u32 - '0' as u32) as u64;
        proof {
            assert(IsDigit.holds(d@[i as int]));
            assert(d@.take(i + 1).drop_last() =~= d@.take(i as int));
            lemma_digits_value_prefix(d@, i + 1);
        }
        match acc.checked_mul(10) {
            Some(m) => match m.checked_add(dv) {
                Some(a) => {
                    acc = a;
                },
                None => {
                    return None;
                },
            },
            None => {
                proof {
                    assert(digits_value(d@.take(i + 1)) >= acc * 10);
                }
                return None;
            },
        }
        i = i + 1;
    }
    assert(d@.take(n as int) =~= d@);
    Some(acc)
}

/// A parser for a run of decimal digits that denotes a 64-bit unsigned number.
pub struct NumberParser {
    pub digits: Span<IsDigit>,
}

impl Parser<JsonValue> for NumberParser {
    open spec fn spec_parse(&self, s: Seq<char>) -> Option<(JsonModel, Seq<char>)> {
        number_spec(s)
    }

    open spec fn well_formed(&self) -> bool {
        true
    }

    fn parse(&self, s: String) -> (r: Option<ParseResult<JsonValue>>) {
        match self.digits.parse(s) {
            Some(pr) => {
                let ParseResult { value, s: rest } = pr;
                proof {
                    lemma_span_len_stop(IsDigit, s@);
                }
                if value.as_str().unicode_len() == 0 {
                    None
                } else {
                    match decimal_value(value.as_str()) {
                        Some(n) => Some(ParseResult { value: JsonValue::JsonNumber(n), s: rest }),
                        None => None,
                    }
                }
            },
            None => None,
        }
    }
}

/// A parser for an unsigned decimal integer.
pub fn parse_number() -> (r: NumberParser)
    ensures
        r.well_formed(),
        forall|s: Seq<char>| r.spec_parse(s) == number_spec(s),
{
    NumberParser { digits: Span { pred: IsDigit } }
}

/// Model of the scalar parser: `null`, then a boolean, then a number, then a string,
/// the first that matches.
pub open spec fn scalar_spec(s: Seq<char>) -> Option<(JsonModel, Seq<char>)> {
    or_spec(or_spec(or_spec(null_spec(s), bool_spec(s)), number_spec(s)), string_spec(s))
}

/// The four scalar parsers as one left-biased choice.
pub type ScalarParser = Or<Or<Or<NullParser, BoolParser>, NumberParser>, StringParser>;

/// A parser for one scalar JSON value.
pub fn parse_json1() -> (r: ScalarParser)
    ensures
        r.well_formed(),
        forall|s: Seq<char>| r.spec_parse(s) == scalar_spec(s),
{
    or(or(or(parse_null(), parse_bool()), parse_number()), parse_string())
}

/// Model of a whole document: one scalar value and nothing after it.
pub open spec fn json_spec(s: Seq<char>) -> Option<JsonModel> {
    match scalar_spec(s) {
        Some((v, rest)) => if rest.len() == 0 {
            Some(v)
        } else {
            None
        },
        None => None,
    }
}

/// Parses `input` as one scalar JSON value that takes up the whole text.
pub fn parse_json(input: String) -> (r: Option<JsonValue>)
    ensures
        r.deep_view() == json_spec(input@),
{
    match parse_json1().parse(input) {
        Some(pr) => {
            let ParseResult { value, s } = pr;
            if s.as_str().unicode_len() == 0 {
                Some(value)
            } else {
                None
            }
        },
        None => None,
    }
}

pub open spec fn decimal_digits() -> Seq<char> {
    seq!['0', '1', '2', '3', '4', '5', '6', '7', '8', '9']
}

/// The decimal text of `n`, without leading zeros.
pub open spec fn decimal_text(n: nat) -> Seq<char>
    decreases n,
{
    if n < 10 {
        seq![decimal_digits()[n as int]]
    } else {
        decimal_text(n / 10).push(decimal_digits()[(n % 10) as int])
    }
}

/// The canonical text of a scalar value; the containers have none.
pub open spec fn serialize(v: JsonModel) -> Seq<char> {
    match v {
        JsonModel::Null => null_text(),
        JsonModel::Bool(b) => if b {
            true_text()
        } else {
            false_text()
        },
        JsonModel::Number(n) => decimal_text(n as nat),
        JsonModel::Text(x) => quote_text() + x + quote_text(),
        _ => Seq::empty(),
    }
}

proof fn lemma_decimal_text(n: nat)
    ensures
        decimal_text(n).len() >= 1,
        forall|j: int|
            0 <= j < decimal_text(n).len() ==> IsDigit.holds(#[trigger] decimal_text(n)[j]),
        digits_value(decimal_text(n)) == n,
    decreases n,
{
    let d = decimal_digits();
    assert(forall|i: int| 0 <= i < 10 ==> IsDigit.holds(#[trigger] d[i]) && digit_value(d[i]) == i);
    if n >= 10 {
        lemma_decimal_text(n / 10);
        let s = decimal_text(n / 10);
        let m = (n % 10) as int;
        assert(decimal_text(n).drop_last() =~= s);
        assert(decimal_text(n).last() == d[m]);
        assert(digit_value(d[m]) == m);
        assert(digits_value(decimal_text(n)) == digits_value(s) * 10 + m);
        assert(n == (n / 10) * 10 + n % 10);
    } else {
        assert(decimal_text(n).drop_last() =~= Seq::<char>::empty());
        assert(digit_value(d[n as int]) == n);
        assert(digits_value(decimal_text(n)) == digits_value(Seq::<char>::empty()) * 10 + n);
    }
}

proof fn lemma_first_char_differs(p: Seq<char>, s: Seq<char>)
    requires
        p.len() > 0,
        s.len() > 0,
        p[0] != s[0],
    ensures
        !p.is_prefix_of(s),
{
    if p.is_prefix_of(s) {
        assert(s.take(p.len() as int)[0] == s[0]);
    }
}

proof fn lemma_prefix_of_concat(p: Seq<char>, r: Seq<char>)
    ensures
        p.is_prefix_of(p + r),
        (p + r).skip(p.len() as int) == r,
{
    assert((p + r).take(p.len() as int) =~= p);
    assert((p + r).skip(p.len() as int) =~= r);
}

proof fn lemma_number_round_trip(s: Seq<char>)
    requires
        number_spec(s) is Some,
    ensures
        number_spec(s) matches Some((v, r)) && serialize(v).len() > 0 && IsDigit.holds(
            serialize(v)[0],
        ) && number_spec(serialize(v) + r) == Some((v, r)),
{
    let k = span_len(IsDigit, s) as int;
    lemma_span_len_stop(IsDigit, s);
    let n = digits_value(s.take(k));
    let d = decimal_text(n);
    let r = s.skip(k);
    lemma_decimal_text(n);
    let u = d + r;
    assert forall|j: int| 0 <= j < d.len() implies IsDigit.holds(#[trigger] u[j]) by {
        assert(u[j] == d[j]);
    }
    if d.len() < u.len() {
        assert(u[d.len() as int] == s[k]);
    }
    lemma_span_len_at(IsDigit, u, d.len() as int);
    assert(u.take(d.len() as int) =~= d);
    assert(u.skip(d.len() as int) =~= r);
}

proof fn lemma_string_round_trip(s: Seq<char>)
    requires
        string_spec(s) is Some,
    ensures
        string_spec(s) matches Some((v, r)) && serialize(v)[0] == '"' && string_spec(
            serialize(v) + r,
        ) == Some((v, r)),
{
    let t = s.skip(1);
    let k = span_len(NotQuote, t) as int;
    lemma_span_len_stop(NotQuote, t);
    let x = s.subrange(1, k + 1);
    let r = s.skip(k + 2);
    let u = quote_text() + x + quote_text() + r;
    let w = u.skip(1);
    assert(w =~= x + quote_text() + r);
    assert forall|j: int| 0 <= j < x.len() implies NotQuote.holds(#[trigger] w[j]) by {
        assert(w[j] == t[j]);
    }
    lemma_span_len_at(NotQuote, w, x.len() as int);
    assert(u.subrange(1, k + 1) =~= x);
    assert(u.skip(k + 2) =~= r);
}

/// Re-running a scalar parser on the canonical text of the value it produced, followed
/// by the remainder it left, yields the same value and remainder; this holds of each of
/// the four scalar parsers and of their ordered union.
pub proof fn law_round_trip(s: Seq<char>)
    ensures
        null_spec(s) matches Some((v, r)) ==> null_spec(serialize(v) + r) == Some((v, r)),
        bool_spec(s) matches Some((v, r)) ==> bool_spec(serialize(v) + r) == Some((v, r)),
        number_spec(s) matches Some((v, r)) ==> number_spec(serialize(v) + r) == Some((v, r)),
        string_spec(s) matches Some((v, r)) ==> string_spec(serialize(v) + r) == Some((v, r)),
        scalar_spec(s) matches Some((v, r)) ==> scalar_spec(serialize(v) + r) == Some((v, r)),
{
    reveal_with_fuel(span_len, 2);
    let nt = null_text();
    let tt = true_text();
    let ft = false_text();
    let qt = quote_text();
    if let Some((v, r)) = null_spec(s) {
        lemma_prefix_of_concat(nt, r);
    }
    if let Some((v, r)) = bool_spec(s) {
        let u = serialize(v) + r;
        lemma_prefix_of_concat(serialize(v), r);
        assert(u[0] == serialize(v)[0]);
        lemma_first_char_differs(nt, u);
        if v == JsonModel::Bool(false) {
            lemma_first_char_differs(tt, u);
        }
    }
    if number_spec(s) is Some {
        lemma_number_round_trip(s);
        let (v, r) = number_spec(s)->0;
        let u = serialize(v) + r;
        assert(u[0] == serialize(v)[0]);
        lemma_first_char_differs(nt, u);
        lemma_first_char_differs(tt, u);
        lemma_first_char_differs(ft, u);
    }
    if string_spec(s) is Some {
        lemma_string_round_trip(s);
        let (v, r) = string_spec(s)->0;
        let u = serialize(v) + r;
        assert(u[0] == serialize(v)[0]);
        lemma_first_char_differs(nt, u);
        lemma_first_char_differs(tt, u);
        lemma_first_char_differs(ft, u);
        assert(!IsDigit.holds(u[0]));
    }
}

} // verus!
