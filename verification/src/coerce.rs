//! The value coercer: raw operator text to a typed value.

use crate::text::{contains, occurs_in, to_chars};
use vstd::prelude::*;

verus! {

/// The kind of value an option holds.
#[derive(Clone, Copy, Debug, PartialEq, Eq, Structural)]
pub enum OptionType {
    String,
    Number,
    Boolean,
}

/// A value after coercion.
#[derive(Debug, PartialEq, Eq)]
pub enum TypedValue {
    String(String),
    Integer(i32),
    Boolean(bool),
}

/// Why a raw text could not be coerced; each variant carries that text.
#[derive(Debug, PartialEq, Eq)]
pub enum CoercionError {
    NotANumber(String),
    NotABoolean(String),
}

/// Mathematical model of a [`TypedValue`].
pub enum TypedValueView {
    String(Seq<char>),
    Integer(int),
    Boolean(bool),
}

/// Mathematical model of a [`CoercionError`].
pub enum CoercionErrorView {
    NotANumber(Seq<char>),
    NotABoolean(Seq<char>),
}

impl View for TypedValue {
    type V = TypedValueView;

    open spec fn view(&self) -> TypedValueView {
        match self {
            TypedValue::String(s) => TypedValueView::String(s@),
            TypedValue::Integer(n) => TypedValueView::Integer(*n as int),
            TypedValue::Boolean(b) => TypedValueView::Boolean(*b),
        }
    }
}

impl View for CoercionError {
    type V = CoercionErrorView;

    open spec fn view(&self) -> CoercionErrorView {
        match self {
            CoercionError::NotANumber(raw) => CoercionErrorView::NotANumber(raw@),
            CoercionError::NotABoolean(raw) => CoercionErrorView::NotABoolean(raw@),
        }
    }
}

/// `c` is one of the ten decimal digits.
pub open spec fn is_digit(c: char) -> bool {
    '0' <= c <= '9'
}

/// The number a decimal digit stands for.
pub open spec fn digit_value(c: char) -> int {
    c as int - '0' as int
}

/// Every character of `s` is a decimal digit.
pub open spec fn all_digits(s: Seq<char>) -> bool {
    forall|i: int| 0 <= i < s.len() ==> is_digit(#[trigger] s[i])
}

/// The number that a sequence of decimal digits writes, most significant
/// digit first; leading zeros count for nothing.
pub open spec fn digits_value(digits: Seq<char>) -> int
    decreases digits.len(),
{
    if digits.len() == 0 {
        0
    } else {
        10 * digits_value(digits.drop_last()) + digit_value(digits.last())
    }
}

/// The integer that `text` writes in base ten, if it writes one that fits in
/// 32 bits: an optional `+` or `-`, then one or more decimal digits, and
/// nothing else.
pub open spec fn spec_number(text: Seq<char>) -> Option<i32> {
    let signed = text.len() > 0 && (text[0] == '-' || text[0] == '+');
    let digits = if signed {
        text.skip(1)
    } else {
        text
    };
    let magnitude = digits_value(digits);
    let value = if text.len() > 0 && text[0] == '-' {
        -magnitude
    } else {
        magnitude
    };
    if digits.len() > 0 && all_digits(digits) && i32::MIN <= value <= i32::MAX {
        Some(value as i32)
    } else {
        None
    }
}

/// Appending digits never lowers the number written.
pub proof fn lemma_digits_value_grows(digits: Seq<char>, k: int)
    requires
        all_digits(digits),
        0 <= k <= digits.len(),
    ensures
        0 <= digits_value(digits.take(k)) <= digits_value(digits),
    decreases digits.len() - k,
{
    lemma_digits_value_nonnegative(digits.take(k));
    if k < digits.len() {
        lemma_digits_value_grows(digits, k + 1);
        assert(digits.take(k + 1).drop_last() =~= digits.take(k));
    } else {
        assert(digits.take(k) =~= digits);
    }
}

/// A sequence of digits writes no negative number.
pub proof fn lemma_digits_value_nonnegative(digits: Seq<char>)
    requires
        all_digits(digits),
    ensures
        0 <= digits_value(digits),
    decreases digits.len(),
{
    if digits.len() > 0 {
        lemma_digits_value_nonnegative(digits.drop_last());
    }
}

/// Parses a signed 32-bit integer written in base ten.
pub fn number(s: &str) -> (parsed: Option<i32>)
    ensures
        parsed == spec_number(s@),
{
    let chars = to_chars(s);
    let n: usize = chars.len();
    if n == 0 {
        return None;
    }
    let negative = chars[0] == '-';
    let start: usize = if chars[0] == '-' || chars[0] == '+' {
        1
    } else {
        0
    };
    if start == n {
        return None;
    }
    let ghost digits = chars@.skip(start as int);
    let mut magnitude: i64 = 0;
    let mut k: usize = start;
    while k < n
        invariant
            start <= k <= n,
            0 < n == chars.len(),
            chars@ == s@,
            negative == (chars@[0] == '-'),
            start == if chars@[0] == '-' || chars@[0] == '+' { 1usize } else { 0usize },
            digits == chars@.skip(start as int),
            chars@.skip(0) == chars@,
            all_digits(digits.take(k - start)),
            magnitude == digits_value(digits.take(k - start)),
            0 <= magnitude <= 2147483648,
        decreases n - k,
    {
        let c = chars[k];
        if c < '0' || c > '9' {
            assert(!is_digit(digits[k - start]));
            return None;
        }
        let d: i64 = (c as u32 - '0' as u32) as i64;
        assert(digits.take(k + 1 - start).drop_last() =~= digits.take(k - start));
        magnitude = magnitude * 10 + d;
        assert(all_digits(digits.take(k + 1 - start))) by {
            assert forall|i: int| 0 <= i < k + 1 - start implies is_digit(
                #[trigger] digits.take(k + 1 - start)[i],
            ) by {}
        }
        if magnitude > 2147483648 {
            proof {
                if all_digits(digits) {
                    lemma_digits_value_grows(digits, k + 1 - start);
                }
            }
            return None;
        }
        k += 1;
    }
    assert(digits.take(k - start) =~= digits);
    if negative {
        Some((-magnitude) as i32)
    } else if magnitude > 2147483647 {
        None
    } else {
        Some(magnitude as i32)
    }
}

/// The lowercase form of a text, as `str::to_lowercase` gives it.
pub uninterp spec fn lowercase(text: Seq<char>) -> Seq<char>;

/// Lowercases a text with `str::to_lowercase`. The result depends on the
/// characters of `s` alone; which characters it holds is left to the
/// standard library and only named here.
#[verifier::external_body]
fn to_lowercase(s: &str) -> (lowered: String)
    ensures
        lowered@ == lowercase(s@),
{
    s.to_lowercase()
}

/// The texts that count as "yes".
pub open spec fn truthy_tokens() -> Seq<Seq<char>> {
    seq!["yes"@, "true"@, "y"@, "yea"@, "yeah"@, "yep"@, "yup"@, "1"@, "on"@]
}

/// The texts that count as "no".
pub open spec fn falsy_tokens() -> Seq<Seq<char>> {
    seq!["no"@, "false"@, "n"@, "nope"@, "0"@, "off"@]
}

/// The texts that count as "yes", as string slices.
pub fn truthy_vocabulary() -> (list: [&'static str; 9])
    ensures
        token_views(list@) == truthy_tokens(),
{
    let list = ["yes", "true", "y", "yea", "yeah", "yep", "yup", "1", "on"];
    list
}

/// The texts that count as "no", as string slices.
pub fn falsy_vocabulary() -> (list: [&'static str; 6])
    ensures
        token_views(list@) == falsy_tokens(),
{
    let list = ["no", "false", "n", "nope", "0", "off"];
    list
}

/// The character sequences of a list of string slices.
pub open spec fn token_views(list: Seq<&str>) -> Seq<Seq<char>> {
    list.map_values(|token: &str| token@)
}

/// `text` holds at least one of `tokens` as a substring.
pub open spec fn contains_any(text: Seq<char>, tokens: Seq<Seq<char>>) -> bool {
    exists|i: int| 0 <= i < tokens.len() && occurs_in(text, #[trigger] tokens[i])
}

/// Tells whether `text`, taken as it is, holds one of the tokens of `list` as
/// a substring.
pub fn contains_any_token(text: &str, list: &[&str]) -> (found: bool)
    ensures
        found == contains_any(text@, token_views(list@)),
{
    let hay = to_chars(text);
    let mut i: usize = 0;
    while i < list.len()
        invariant
            i <= list.len(),
            hay@ == text@,
            forall|j: int| 0 <= j < i ==> !occurs_in(text@, #[trigger] token_views(list@)[j]),
        decreases list.len() - i,
    {
        let needle = to_chars(list[i]);
        assert(token_views(list@)[i as int] == needle@);
        if contains(hay.as_slice(), needle.as_slice()) {
            return true;
        }
        i += 1;
    }
    false
}

/// Tells whether the lowercase form of `value` holds one of the tokens of
/// `list` as a substring.
pub fn includes(value: &str, list: &[&str]) -> (found: bool)
    ensures
        found == contains_any(lowercase(value@), token_views(list@)),
{
    let lowered = to_lowercase(value);
    contains_any_token(lowered.as_str(), list)
}

/// What an already lowercased text says: yes if it holds a truthy token,
/// else no if it holds a falsy token, else nothing. The tokens are looked
/// for as substrings, so `"onion"` says yes through `"on"`.
pub open spec fn spec_boolean(lowered: Seq<char>) -> Option<bool> {
    if contains_any(lowered, truthy_tokens()) {
        Some(true)
    } else if contains_any(lowered, falsy_tokens()) {
        Some(false)
    } else {
        None
    }
}

/// Reads a yes or no from a text, without regard to case: the text is
/// lowercased once, and the lowercase text decides.
pub fn boolean(s: &str) -> (parsed: Option<bool>)
    ensures
        parsed == spec_boolean(lowercase(s@)),
{
    let lowered = to_lowercase(s);
    boolean_of_lowercase(lowered.as_str())
}

/// Reads a yes or no from a text that is already in lowercase.
pub fn boolean_of_lowercase(lowered: &str) -> (parsed: Option<bool>)
    ensures
        parsed == spec_boolean(lowered@),
{
    let truthy = truthy_vocabulary();
    let falsy = falsy_vocabulary();
    if contains_any_token(lowered, &truthy) {
        Some(true)
    } else if contains_any_token(lowered, &falsy) {
        Some(false)
    } else {
        None
    }
}

/// What coercion makes of a raw text for a given kind: any text is a string;
/// a number is read in base ten; a boolean is read from the lowercase form
/// of the text. A failure carries the raw text.
pub open spec fn spec_coerce(raw: Seq<char>, kind: OptionType) -> Result<
    TypedValueView,
    CoercionErrorView,
> {
    match kind {
        OptionType::String => Ok(TypedValueView::String(raw)),
        OptionType::Number => match spec_number(raw) {
            Some(n) => Ok(TypedValueView::Integer(n as int)),
            None => Err(CoercionErrorView::NotANumber(raw)),
        },
        OptionType::Boolean => match spec_boolean(lowercase(raw)) {
            Some(b) => Ok(TypedValueView::Boolean(b)),
            None => Err(CoercionErrorView::NotABoolean(raw)),
        },
    }
}

/// Mathematical model of the outcome of a coercion.
pub open spec fn coercion_view(outcome: Result<TypedValue, CoercionError>) -> Result<
    TypedValueView,
    CoercionErrorView,
> {
    match outcome {
        Ok(value) => Ok(value@),
        Err(error) => Err(error@),
    }
}

/// Coerces a raw text to a value of the given kind.
pub fn coerce(raw: &str, kind: OptionType) -> (outcome: Result<TypedValue, CoercionError>)
    ensures
        coercion_view(outcome) == spec_coerce(raw@, kind),
{
    match kind {
        OptionType::String => Ok(TypedValue::String(raw.to_owned())),
        OptionType::Number => match number(raw) {
            Some(n) => Ok(TypedValue::Integer(n)),
            None => Err(CoercionError::NotANumber(raw.to_owned())),
        },
        OptionType::Boolean => match boolean(raw) {
            Some(b) => Ok(TypedValue::Boolean(b)),
            None => Err(CoercionError::NotABoolean(raw.to_owned())),
        },
    }
}

/// The character that writes a number below ten.
pub open spec fn digit_char(d: int) -> char {
    ('0' as int + d) as char
}

/// The digits of a natural number in base ten, most significant first,
/// without leading zeros; zero is written `0`.
pub open spec fn decimal_digits(n: nat) -> Seq<char>
    decreases n,
{
    if n < 10 {
        seq![digit_char(n as int)]
    } else {
        decimal_digits(n / 10).push(digit_char((n % 10) as int))
    }
}

/// The canonical text of an integer in base ten: its digits, behind a `-`
/// if it is negative.
pub open spec fn decimal(n: int) -> Seq<char> {
    if n < 0 {
        seq!['-'] + decimal_digits((-n) as nat)
    } else {
        decimal_digits(n as nat)
    }
}

/// The canonical text of a value: a string as it is, an integer in base
/// ten, a boolean as `true` or `false`.
pub open spec fn spec_canonical_text(value: TypedValueView) -> Seq<char> {
    match value {
        TypedValueView::String(s) => s,
        TypedValueView::Integer(n) => decimal(n),
        TypedValueView::Boolean(b) => if b {
            "true"@
        } else {
            "false"@
        },
    }
}

/// The character that writes `d`.
fn digit_to_char(d: u32) -> (c: char)
    requires
        d < 10,
    ensures
        c == digit_char(d as int),
{
    match d {
        0 => '0',
        1 => '1',
        2 => '2',
        3 => '3',
        4 => '4',
        5 => '5',
        6 => '6',
        7 => '7',
        8 => '8',
        _ => '9',
    }
}

/// Appends the digits of `n` to `out`.
fn push_decimal_digits(out: &mut Vec<char>, n: u32)
    ensures
        final(out)@ == old(out)@ + decimal_digits(n as nat),
    decreases n,
{
    if n >= 10 {
        push_decimal_digits(out, n / 10);
    }
    out.push(digit_to_char(n % 10));
}

/// The canonical text of an integer in base ten.
pub fn decimal_text(n: i32) -> (text: Vec<char>)
    ensures
        text@ == decimal(n as int),
{
    let mut text: Vec<char> = Vec::new();
    if n < 0 {
        text.push('-');
        let magnitude: u32 = (-(n as i64)) as u32;
        push_decimal_digits(&mut text, magnitude);
    } else {
        push_decimal_digits(&mut text, n as u32);
    }
    text
}

/// The canonical text of a value.
pub fn canonical_text(value: &TypedValue) -> (text: Vec<char>)
    ensures
        text@ == spec_canonical_text(value@),
{
    match value {
        TypedValue::String(s) => to_chars(s.as_str()),
        TypedValue::Integer(n) => decimal_text(*n),
        TypedValue::Boolean(b) => if *b {
            to_chars("true")
        } else {
            to_chars("false")
        },
    }
}

/// The digits written for a natural number are digits, and they write that
/// number.
pub proof fn lemma_decimal_digits_value(n: nat)
    ensures
        decimal_digits(n).len() > 0,
        all_digits(decimal_digits(n)),
        digits_value(decimal_digits(n)) == n,
    decreases n,
{
    if n < 10 {
        assert(decimal_digits(n).drop_last() =~= Seq::<char>::empty());
        assert(digits_value(Seq::<char>::empty()) == 0);
    } else {
        lemma_decimal_digits_value(n / 10);
        let upper = decimal_digits(n / 10);
        assert(decimal_digits(n).drop_last() =~= upper);
        assert forall|i: int| 0 <= i < decimal_digits(n).len() implies is_digit(
            #[trigger] decimal_digits(n)[i],
        ) by {}
    }
}

/// Reading back the canonical text of a 32-bit integer gives that integer.
pub proof fn lemma_number_reads_decimal(n: i32)
    ensures
        spec_number(decimal(n as int)) == Some(n),
{
    let text = decimal(n as int);
    if n < 0 {
        let digits = decimal_digits((-n) as nat);
        lemma_decimal_digits_value((-n) as nat);
        assert(text.skip(1) =~= digits);
    } else {
        lemma_decimal_digits_value(n as nat);
    }
}

} // verus!
