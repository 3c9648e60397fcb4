//! Typed scalars and the rule that gives each field its type.

use crate::text::chars_of;
use vstd::prelude::*;
use vstd::std_specs::cmp::PartialEqSpecImpl;

verus! {

/// One value of a table, with the type that its text called for.
#[derive(Debug, Clone)]
pub enum ParsedValue {
    /// A whole number that fits in 32 bits with sign.
    Integer(i32),
    /// A decimal number, kept as the text it was written as.
    /// `find_data_type` puts only text here that meets `is_float_text`, the
    /// grammar of decimal numbers, so that its text can be turned into a
    /// binary floating-point number without failure.
    Float(String),
    /// `true` or `false`.
    Boolean(bool),
    /// Anything else, as it stands.
    String(String),
}

/// What a `ParsedValue` stands for: a whole number, the text of a decimal
/// number, a truth value, or text.
pub enum Scalar {
    Integer(int),
    Float(Seq<char>),
    Boolean(bool),
    Text(Seq<char>),
}

impl View for ParsedValue {
    type V = Scalar;

    open spec fn view(&self) -> Scalar {
        match self {
            ParsedValue::Integer(n) => Scalar::Integer(*n as int),
            ParsedValue::Float(text) => Scalar::Float(text@),
            ParsedValue::Boolean(b) => Scalar::Boolean(*b),
            ParsedValue::String(text) => Scalar::Text(text@),
        }
    }
}

impl PartialEq for ParsedValue {
    /// Two values are equal when they are of the same kind and hold the
    /// same whole number, text or truth value. Decimal numbers are
    /// compared by their text: `1.0` and `1.00` differ.
    fn eq(&self, other: &ParsedValue) -> (equal: bool) {
        match (self, other) {
            (ParsedValue::Integer(a), ParsedValue::Integer(b)) => *a == *b,
            (ParsedValue::Float(a), ParsedValue::Float(b)) => *a == *b,
            (ParsedValue::Boolean(a), ParsedValue::Boolean(b)) => *a == *b,
            (ParsedValue::String(a), ParsedValue::String(b)) => *a == *b,
            _ => false,
        }
    }
}

impl PartialEqSpecImpl for ParsedValue {
    open spec fn obeys_eq_spec() -> bool {
        true
    }

    open spec fn eq_spec(&self, other: &ParsedValue) -> bool {
        self@ == other@
    }
}

/// The views of a sequence of values, in the same order.
pub open spec fn scalars(v: Seq<ParsedValue>) -> Seq<Scalar> {
    Seq::new(v.len(), |i: int| v[i]@)
}

/// Whether `c` is one of the ten digits.
pub open spec fn is_digit(c: char) -> bool {
    '0' <= c <= '9'
}

/// Whether `c` is a plus or a minus sign.
pub open spec fn is_sign(c: char) -> bool {
    c == '+' || c == '-'
}

/// The number that a digit stands for.
pub open spec fn digit_value(c: char) -> int {
    c as int - '0' as int
}

/// 1 where `s` starts with a sign, else 0.
pub open spec fn sign_len(s: Seq<char>) -> int {
    if s.len() > 0 && is_sign(s[0]) {
        1
    } else {
        0
    }
}

/// Whether `s` holds nothing but digits.
pub open spec fn all_digits(s: Seq<char>) -> bool {
    forall|i: int| 0 <= i < s.len() ==> is_digit(#[trigger] s[i])
}

/// The number that a sequence of digits stands for in base ten.
pub open spec fn decimal_value(s: Seq<char>) -> int
    decreases s.len(),
{
    if s.len() == 0 {
        0
    } else {
        10 * decimal_value(s.drop_last()) + digit_value(s.last())
    }
}

/// The whole number that `s` denotes, if it denotes one that fits in 32
/// bits with sign: an optional `+` or `-`, then one digit or more, and
/// nothing else.
pub open spec fn integer_value(s: Seq<char>) -> Option<int> {
    let digits = s.skip(sign_len(s));
    let value = if s.len() > 0 && s[0] == '-' {
        -decimal_value(digits)
    } else {
        decimal_value(digits)
    };
    if digits.len() > 0 && all_digits(digits) && i32::MIN <= value <= i32::MAX {
        Some(value)
    } else {
        None
    }
}

/// How many digits stand in a row in `s` from position `from` on.
pub open spec fn digit_run(s: Seq<char>, from: int) -> int
    decreases s.len() - from,
{
    if 0 <= from < s.len() && is_digit(s[from]) {
        1 + digit_run(s, from + 1)
    } else {
        0
    }
}

/// Whether `c` is the lower-case letter `letter` or its upper-case form.
pub open spec fn same_letter(c: char, letter: char) -> bool {
    c == letter || ('A' <= c <= 'Z' && c as int + 32 == letter as int)
}

/// Whether `s` from position `from` to its end spells the lower-case
/// `word`, in letters of either case.
pub open spec fn spells(s: Seq<char>, from: int, word: Seq<char>) -> bool {
    &&& s.len() - from == word.len()
    &&& forall|k: int| 0 <= k < word.len() ==> same_letter(s[from + k], #[trigger] word[k])
}

/// Whether `s` from `from` on names an infinity or a not-a-number.
pub open spec fn is_special(s: Seq<char>, from: int) -> bool {
    ||| spells(s, from, seq!['i', 'n', 'f'])
    ||| spells(s, from, seq!['i', 'n', 'f', 'i', 'n', 'i', 't', 'y'])
    ||| spells(s, from, seq!['n', 'a', 'n'])
}

/// Whether `s` from `from` to its end is an exponent: `e` or `E`, an
/// optional sign, then one digit or more.
pub open spec fn is_exponent(s: Seq<char>, from: int) -> bool {
    let digits = if from + 1 < s.len() && is_sign(s[from + 1]) {
        from + 2
    } else {
        from + 1
    };
    &&& 0 <= from < s.len()
    &&& s[from] == 'e' || s[from] == 'E'
    &&& digit_run(s, digits) >= 1
    &&& digits + digit_run(s, digits) == s.len()
}

/// Whether `s` from `from` to its end is a number: digits, optionally a
/// point and more digits, with a digit on at least one side of the point,
/// optionally followed by an exponent.
pub open spec fn is_number(s: Seq<char>, from: int) -> bool {
    let whole = digit_run(s, from);
    let point = from + whole < s.len() && s[from + whole] == '.';
    let fraction = if point {
        digit_run(s, from + whole + 1)
    } else {
        0
    };
    let end = if point {
        from + whole + 1 + fraction
    } else {
        from + whole
    };
    &&& whole + fraction >= 1
    &&& end == s.len() || is_exponent(s, end)
}

/// Whether `s` is written as a decimal floating-point number: an optional
/// sign, then a number, `inf`, `infinity` or `nan`. Letters count in
/// either case; nothing may come before or after.
pub open spec fn is_float_text(s: Seq<char>) -> bool {
    is_special(s, sign_len(s)) || is_number(s, sign_len(s))
}

/// The text `true`.
pub open spec fn true_text() -> Seq<char> {
    seq!['t', 'r', 'u', 'e']
}

/// The text `false`.
pub open spec fn false_text() -> Seq<char> {
    seq!['f', 'a', 'l', 's', 'e']
}

/// The typed scalar that the text of a field gives: the first of whole
/// number, decimal number and truth value that the text denotes, and the
/// text itself where it denotes none.
pub open spec fn classify(s: Seq<char>) -> Scalar {
    if integer_value(s) is Some {
        Scalar::Integer(integer_value(s)->0)
    } else if is_float_text(s) {
        Scalar::Float(s)
    } else if s == true_text() {
        Scalar::Boolean(true)
    } else if s == false_text() {
        Scalar::Boolean(false)
    } else {
        Scalar::Text(s)
    }
}

/// Every further digit makes the number no smaller.
pub proof fn lemma_decimal_value_grows(s: Seq<char>, k: int)
    requires
        all_digits(s),
        0 <= k <= s.len(),
    ensures
        0 <= decimal_value(s.take(k)) <= decimal_value(s),
    decreases s.len(),
{
    if k == s.len() {
        assert(s.take(k) == s);
        if k > 0 {
            lemma_decimal_value_grows(s.drop_last(), k - 1);
        }
    } else {
        lemma_decimal_value_grows(s.drop_last(), k);
        assert(s.drop_last().take(k) == s.take(k));
    }
}

/// Where only digits stand from `from` to the end, the run of digits
/// reaches the end.
proof fn lemma_digit_run_to_end(s: Seq<char>, from: int)
    requires
        0 <= from <= s.len(),
        forall|i: int| from <= i < s.len() ==> is_digit(#[trigger] s[i]),
    ensures
        digit_run(s, from) == s.len() - from,
    decreases s.len() - from,
{
    if from < s.len() {
        lemma_digit_run_to_end(s, from + 1);
    }
}

/// Why whole numbers are tried first. Every text that denotes a whole
/// number is also written as a decimal number; only the order of the
/// trials makes it an integer.
pub proof fn law_every_integer_is_a_number(s: Seq<char>)
    requires
        integer_value(s) is Some,
    ensures
        is_float_text(s),
        classify(s) == Scalar::Integer(integer_value(s)->0),
{
    let first = sign_len(s);
    let digits = s.skip(first);
    assert forall|i: int| first <= i < s.len() implies is_digit(#[trigger] s[i]) by {
        assert(digits[i - first] == s[i]);
    }
    lemma_digit_run_to_end(s, first);
}

/// `true` and `false` are no numbers, so they are truth values.
pub proof fn law_truth_values_are_no_numbers()
    ensures
        classify(true_text()) == Scalar::Boolean(true),
        classify(false_text()) == Scalar::Boolean(false),
{
}

/// The order of the trials. A text becomes an integer exactly when it
/// denotes a whole number of 32 bits; a decimal number exactly when it
/// does not, but is written as a decimal number; a truth value exactly
/// when it is `true` or `false`; and text exactly when it is none of
/// these. Decimal numbers and text keep the text as it stands.
pub proof fn law_classification_order(s: Seq<char>)
    ensures
        classify(s) is Integer <==> integer_value(s) is Some,
        classify(s) is Float <==> integer_value(s) is None && is_float_text(s),
        classify(s) is Boolean <==> s == true_text() || s == false_text(),
        classify(s) is Text <==> integer_value(s) is None && !is_float_text(s) && s != true_text()
            && s != false_text(),
        classify(s) matches Scalar::Integer(n) ==> integer_value(s) == Some(n),
        classify(s) matches Scalar::Float(text) ==> text == s,
        classify(s) matches Scalar::Boolean(b) ==> b == (s == true_text()),
        classify(s) matches Scalar::Text(text) ==> text == s,
{
    law_truth_values_are_no_numbers();
}

fn is_digit_char(c: char) -> (b: bool)
    ensures
        b == is_digit(c),
{
    '0' <= c && c <= '9'
}

fn is_sign_char(c: char) -> (b: bool)
    ensures
        b == is_sign(c),
{
    c == '+' || c == '-'
}

fn is_same_letter(c: char, letter: char) -> (b: bool)
    ensures
        b == same_letter(c, letter),
{
    c == letter || ('A' <= c && c <= 'Z' && c as u32 + 32 == letter as u32)
}

/// The whole number that `chars` denotes, if any.
pub fn parse_integer(chars: &Vec<char>) -> (value: Option<i32>)
    ensures
        value is Some <==> integer_value(chars@) is Some,
        value matches Some(n) ==> integer_value(chars@) == Some(n as int),
{
    let n = chars.len();
    if n == 0 {
        return None;
    }
    let negative = chars[0] == '-';
    let first: usize = if is_sign_char(chars[0]) {
        1
    } else {
        0
    };
    let ghost digits = chars@.skip(first as int);
    if first == n {
        return None;
    }
    let mut magnitude: i64 = 0;
    let mut i: usize = first;
    while i < n
        invariant
            first <= i <= n == chars.len(),
            first == sign_len(chars@),
            digits == chars@.skip(first as int),
            all_digits(chars@.subrange(first as int, i as int)),
            magnitude == decimal_value(chars@.subrange(first as int, i as int)),
            0 <= magnitude <= 0x8000_0000,
        decreases n - i,
    {
        let c = chars[i];
        if !is_digit_char(c) {
            proof {
                assert(digits[i - first] == c);
            }
            return None;
        }
        proof {
            assert(chars@.subrange(first as int, i + 1).drop_last() == chars@.subrange(
                first as int,
                i as int,
            ));
        }
        magnitude = magnitude * 10 + (c as u32 - '0' as u32) as i64;
        i += 1;
        if magnitude > 0x8000_0000 {
            proof {
                if all_digits(digits) {
                    lemma_decimal_value_grows(digits, i - first);
                    assert(digits.take(i - first) == chars@.subrange(first as int, i as int));
                }
            }
            return None;
        }
    }
    if negative {
        Some((-magnitude) as i32)
    } else if magnitude <= 0x7FFF_FFFF {
        Some(magnitude as i32)
    } else {
        None
    }
}

/// The position behind the digits that stand in a row from `from` on.
fn skip_digits(chars: &Vec<char>, from: usize) -> (to: usize)
    requires
        from <= chars.len(),
    ensures
        from <= to <= chars.len(),
        to - from == digit_run(chars@, from as int),
{
    let mut i: usize = from;
    while i < chars.len() && is_digit_char(chars[i])
        invariant
            from <= i <= chars.len(),
            digit_run(chars@, from as int) == (i - from) + digit_run(chars@, i as int),
        decreases chars.len() - i,
    {
        i += 1;
    }
    i
}

/// Whether `chars` from `from` on spell `word`.
fn spells_word(chars: &Vec<char>, from: usize, word: &Vec<char>) -> (b: bool)
    requires
        from <= chars.len(),
    ensures
        b == spells(chars@, from as int, word@),
{
    if chars.len() - from != word.len() {
        return false;
    }
    let mut k: usize = 0;
    while k < word.len()
        invariant
            k <= word.len() == chars.len() - from,
            forall|j: int| 0 <= j < k ==> same_letter(chars@[from + j], #[trigger] word@[j]),
        decreases word.len() - k,
    {
        if !is_same_letter(chars[from + k], word[k]) {
            return false;
        }
        k += 1;
    }
    true
}

fn is_special_text(chars: &Vec<char>, from: usize) -> (b: bool)
    requires
        from <= chars.len(),
    ensures
        b == is_special(chars@, from as int),
{
    let rest = chars.len() - from;
    if rest == 3 {
        let inf = vec!['i', 'n', 'f'];
        let nan = vec!['n', 'a', 'n'];
        spells_word(chars, from, &inf) || spells_word(chars, from, &nan)
    } else if rest == 8 {
        let infinity = vec!['i', 'n', 'f', 'i', 'n', 'i', 't', 'y'];
        spells_word(chars, from, &infinity)
    } else {
        false
    }
}

fn is_exponent_text(chars: &Vec<char>, from: usize) -> (b: bool)
    requires
        from < chars.len(),
    ensures
        b == is_exponent(chars@, from as int),
{
    if chars[from] != 'e' && chars[from] != 'E' {
        return false;
    }
    let digits: usize = if from + 1 < chars.len() && is_sign_char(chars[from + 1]) {
        from + 2
    } else {
        from + 1
    };
    let end = skip_digits(chars, digits);
    end > digits && end == chars.len()
}

fn is_number_text(chars: &Vec<char>, from: usize) -> (b: bool)
    requires
        from <= chars.len(),
    ensures
        b == is_number(chars@, from as int),
{
    let n = chars.len();
    let point_at = skip_digits(chars, from);
    let mut end: usize = point_at;
    let mut count: usize = point_at - from;
    if point_at < n && chars[point_at] == '.' {
        end = skip_digits(chars, point_at + 1);
        count = count + (end - (point_at + 1));
    }
    if count == 0 {
        false
    } else if end == n {
        true
    } else {
        is_exponent_text(chars, end)
    }
}

/// Whether `chars` are written as a decimal floating-point number.
pub fn is_float(chars: &Vec<char>) -> (b: bool)
    ensures
        b == is_float_text(chars@),
{
    let first: usize = if chars.len() > 0 && is_sign_char(chars[0]) {
        1
    } else {
        0
    };
    is_special_text(chars, first) || is_number_text(chars, first)
}

/// The truth value that `chars` spell, if they are exactly `true` or
/// exactly `false`.
pub fn parse_boolean(chars: &Vec<char>) -> (value: Option<bool>)
    ensures
        value == if chars@ == true_text() {
            Some(true)
        } else if chars@ == false_text() {
            Some(false)
        } else {
            None
        },
{
    let n = chars.len();
    if n == 4 && chars[0] == 't' && chars[1] == 'r' && chars[2] == 'u' && chars[3] == 'e' {
        proof {
            assert(chars@ =~= true_text());
        }
        Some(true)
    } else if n == 5 && chars[0] == 'f' && chars[1] == 'a' && chars[2] == 'l' && chars[3] == 's'
        && chars[4] == 'e' {
        proof {
            assert(chars@ =~= false_text());
        }
        Some(false)
    } else {
        None
    }
}

/// Gives the text of one field its type. The first that fits is taken: a
/// whole number of 32 bits, a decimal number, `true` or `false`, and
/// otherwise the text as it stands. Every text gets a value.
pub fn find_data_type(value: &str) -> (parsed: ParsedValue)
    ensures
        parsed@ == classify(value@),
{
    let chars = chars_of(value);
    if let Some(n) = parse_integer(&chars) {
        ParsedValue::Integer(n)
    } else if is_float(&chars) {
        ParsedValue::Float(value.to_owned())
    } else if let Some(b) = parse_boolean(&chars) {
        ParsedValue::Boolean(b)
    } else {
        ParsedValue::String(value.to_owned())
    }
}

} // verus!
