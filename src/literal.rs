//! Classification of a completed word: operator, integer or float literal,
//! or identifier.
use vstd::prelude::*;
use crate::token::{error_view, kind_view, text_of, Lexeme, LexerErrorType, TokenType};

verus! {

/// An ASCII decimal digit. Literals of this language are written in ASCII
/// digits only: a digit of another script makes no number.
pub open spec fn is_digit(c: char) -> bool {
    '0' <= c && c <= '9'
}

pub open spec fn digit_value(c: char) -> int {
    (c as u32) as int - 48
}

pub open spec fn all_digits(s: Seq<char>) -> bool {
    forall|i: int| 0 <= i < s.len() ==> is_digit(#[trigger] s[i])
}

pub open spec fn has_digit(s: Seq<char>) -> bool {
    exists|i: int| 0 <= i < s.len() && is_digit(#[trigger] s[i])
}

/// Some `.` is directly followed by a digit: the word has a fractional part
/// and so is meant as a float.
pub open spec fn has_dot_digit(s: Seq<char>) -> bool {
    exists|i: int| 0 <= i < s.len() - 1 && #[trigger] s[i] == '.' && is_digit(s[i + 1])
}

/// The reserved operator words, matched against a whole word.
pub open spec fn operator_word(s: Seq<char>) -> bool {
    ||| s.len() == 1 && (s[0] == '+' || s[0] == '-' || s[0] == '*' || s[0] == '/' || s[0] == '^'
        || s[0] == '%' || s[0] == '>' || s[0] == '<' || s[0] == '=')
    ||| s.len() == 2 && s[1] == '=' && (s[0] == '=' || s[0] == '!' || s[0] == '<' || s[0] == '>'
        || s[0] == ':' || s[0] == 'v')
    ||| s.len() == 2 && s[0] == 'o' && s[1] == 'r'
    ||| s.len() == 3 && s[0] == 'a' && s[1] == 'n' && s[2] == 'd'
    ||| s.len() == 3 && s[0] == 'n' && s[1] == 'o' && s[2] == 't'
}

/// An optional `-` followed by one or more decimal digits.
pub open spec fn is_int_text(s: Seq<char>) -> bool {
    if s.len() > 0 && s[0] == '-' {
        s.len() > 1 && all_digits(s.drop_first())
    } else {
        s.len() > 0 && all_digits(s)
    }
}

pub open spec fn digits_value(s: Seq<char>) -> int
    decreases s.len(),
{
    if s.len() == 0 {
        0
    } else {
        10 * digits_value(s.drop_last()) + digit_value(s.last())
    }
}

pub open spec fn int_value(s: Seq<char>) -> int {
    if s.len() > 0 && s[0] == '-' {
        -digits_value(s.drop_first())
    } else {
        digits_value(s)
    }
}

/// Digits with at most one `.` among them, and at least one digit.
pub open spec fn is_mantissa(s: Seq<char>) -> bool {
    &&& has_digit(s)
    &&& forall|i: int| 0 <= i < s.len() ==> is_digit(#[trigger] s[i]) || s[i] == '.'
    &&& forall|i: int, j: int|
        0 <= i < s.len() && 0 <= j < s.len() && #[trigger] s[i] == '.' && #[trigger] s[j] == '.'
            ==> i == j
}

pub open spec fn is_exponent_mark(c: char) -> bool {
    c == 'e' || c == 'E'
}

/// An optional sign followed by one or more digits.
pub open spec fn is_signed_digits(s: Seq<char>) -> bool {
    if s.len() > 0 && (s[0] == '+' || s[0] == '-') {
        s.len() > 1 && all_digits(s.drop_first())
    } else {
        s.len() > 0 && all_digits(s)
    }
}

/// A mantissa, optionally followed by an exponent mark and a signed
/// exponent.
pub open spec fn is_float_body(s: Seq<char>) -> bool {
    ||| is_mantissa(s)
    ||| exists|k: int|
        0 <= k < s.len() && is_exponent_mark(#[trigger] s[k]) && is_mantissa(s.take(k))
            && is_signed_digits(s.skip(k + 1))
}

/// An optional sign, then digits with at most one `.`, then an optional
/// exponent: the decimal forms that parse as a floating-point number.
pub open spec fn is_float_text(s: Seq<char>) -> bool {
    if s.len() > 0 && (s[0] == '+' || s[0] == '-') {
        is_float_body(s.drop_first())
    } else {
        is_float_body(s)
    }
}

/// What a completed word is, first match winning: an operator, an integer
/// (in range of `i64`, else an error), a word with a `.` followed by a digit
/// (a float if it has the float form, else an error), or an identifier.
pub open spec fn classify(w: Seq<char>) -> Lexeme {
    if operator_word(w) {
        Lexeme::Operator(w)
    } else if is_int_text(w) {
        if i64::MIN <= int_value(w) <= i64::MAX {
            Lexeme::IntLiteral(int_value(w))
        } else {
            Lexeme::BadInt(w)
        }
    } else if has_dot_digit(w) {
        if is_float_text(w) {
            Lexeme::FloatLiteral(w)
        } else {
            Lexeme::BadFloat(w)
        }
    } else {
        Lexeme::Identifier(w)
    }
}

pub open spec fn result_view(r: Result<TokenType, LexerErrorType>) -> Lexeme {
    match r {
        Ok(k) => kind_view(k),
        Err(e) => error_view(e),
    }
}

proof fn lemma_digits_value_prefix(s: Seq<char>, k: int)
    requires
        all_digits(s),
        0 <= k <= s.len(),
    ensures
        0 <= digits_value(s.take(k)) <= digits_value(s),
    decreases s.len(),
{
    if k == s.len() {
        assert(s.take(k) =~= s);
        if s.len() > 0 {
            lemma_digits_value_prefix(s.drop_last(), k - 1);
            assert(s.drop_last().take(k - 1) =~= s.drop_last());
        }
    } else {
        assert(s.take(k) =~= s.drop_last().take(k));
        lemma_digits_value_prefix(s.drop_last(), k);
        assert(s.drop_last().take(s.len() - 1) =~= s.drop_last());
        lemma_digits_value_prefix(s.drop_last(), s.len() - 1);
    }
}

/// Whether the word is one of the reserved operators.
pub fn is_operator(w: &[char]) -> (r: bool)
    ensures
        r == operator_word(w@),
{
    let n = w.len();
    if n == 1 {
        let c = w[0];
        c == '+' || c == '-' || c == '*' || c == '/' || c == '^' || c == '%' || c == '>' || c == '<'
            || c == '='
    } else if n == 2 {
        let (a, b) = (w[0], w[1]);
        (b == '=' && (a == '=' || a == '!' || a == '<' || a == '>' || a == ':' || a == 'v')) || (a
            == 'o' && b == 'r')
    } else if n == 3 {
        let (a, b, c) = (w[0], w[1], w[2]);
        (a == 'a' && b == 'n' && c == 'd') || (a == 'n' && b == 'o' && c == 't')
    } else {
        false
    }
}

fn is_digit_char(c: char) -> (r: bool)
    ensures
        r == is_digit(c),
{
    '0' <= c && c <= '9'
}

fn all_digits_from(w: &[char], start: usize) -> (r: bool)
    requires
        start <= w@.len(),
    ensures
        r == all_digits(w@.skip(start as int)),
{
    let mut i = start;
    while i < w.len()
        invariant
            start <= i <= w@.len(),
            forall|j: int| start <= j < i ==> is_digit(#[trigger] w@[j]),
        decreases w@.len() - i,
    {
        if !is_digit_char(w[i]) {
            assert(w@.skip(start as int)[i - start] == w@[i as int]);
            return false;
        }
        i = i + 1;
    }
    assert forall|j: int| 0 <= j < w@.skip(start as int).len() implies is_digit(
        #[trigger] w@.skip(start as int)[j],
    ) by {
        assert(w@.skip(start as int)[j] == w@[start + j]);
    }
    true
}

/// Whether the word is an optional `-` followed by decimal digits.
pub fn is_int_word(w: &[char]) -> (r: bool)
    ensures
        r == is_int_text(w@),
{
    if w.len() > 0 && w[0] == '-' {
        assert(w@.drop_first() =~= w@.skip(1));
        w.len() > 1 && all_digits_from(w, 1)
    } else {
        assert(w@ =~= w@.skip(0));
        w.len() > 0 && all_digits_from(w, 0)
    }
}

/// The value of an integer word, or `None` where it does not fit in `i64`.
pub fn parse_int(w: &[char]) -> (r: Option<i64>)
    requires
        is_int_text(w@),
    ensures
        r matches Some(v) ==> v == int_value(w@),
        r is None <==> !(i64::MIN <= int_value(w@) <= i64::MAX),
{
    let neg = w[0] == '-';
    let start: usize = if neg { 1 } else { 0 };
    let ghost digits = w@.skip(start as int);
    assert(neg ==> digits =~= w@.drop_first());
    assert(!neg ==> digits =~= w@);
    let mut acc: u128 = 0;
    let mut i = start;
    while i < w.len()
        invariant
            start <= i <= w@.len(),
            digits == w@.skip(start as int),
            neg ==> digits == w@.drop_first(),
            !neg ==> digits == w@,
            neg == (w@[0] == '-'),
            is_int_text(w@),
            all_digits(digits),
            acc as int == digits_value(digits.take(i - start)),
            acc <= 9223372036854775808,
        decreases w@.len() - i,
    {
        assert(is_digit(digits[i - start]));
        let d = (w[i] as u32 - 48) as u128;
        assert(digits.take(i + 1 - start).drop_last() =~= digits.take(i - start));
        assert(digits.take(i + 1 - start).last() == w@[i as int]);
        acc = acc * 10 + d;
        i = i + 1;
        if acc > 9223372036854775808 {
            proof {
                assert(acc as int == digits_value(digits.take(i - start)));
                lemma_digits_value_prefix(digits, i - start);
                assert(digits.take(digits.len() as int) =~= digits);
                lemma_digits_value_prefix(digits, digits.len() as int);
            }
            return None;
        }
    }
    assert(digits.take(i - start) =~= digits);
    if neg {
        Some((0 - (acc as i128)) as i64)
    } else if acc <= 9223372036854775807 {
        Some(acc as i64)
    } else {
        None
    }
}

/// Whether some `.` of the word is directly followed by a digit.
pub fn contains_dot_digit(w: &[char]) -> (r: bool)
    ensures
        r == has_dot_digit(w@),
{
    let mut i: usize = 0;
    while w.len() - i > 1
        invariant
            i <= w@.len(),
            forall|j: int| 0 <= j < i && j < w@.len() - 1 ==> !(#[trigger] w@[j] == '.' && is_digit(
                w@[j + 1],
            )),
        decreases w@.len() - i,
    {
        if w[i] == '.' && is_digit_char(w[i + 1]) {
            return true;
        }
        i = i + 1;
    }
    false
}

fn is_mantissa_range(w: &[char], a: usize, b: usize) -> (r: bool)
    requires
        a <= b <= w@.len(),
    ensures
        r == is_mantissa(w@.subrange(a as int, b as int)),
{
    let ghost s = w@.subrange(a as int, b as int);
    let mut i = a;
    let mut dot: Option<usize> = None;
    let mut digit = false;
    while i < b
        invariant
            a <= i <= b <= w@.len(),
            s == w@.subrange(a as int, b as int),
            forall|j: int| a <= j < i ==> is_digit(#[trigger] w@[j]) || w@[j] == '.',
            dot matches Some(d) ==> a <= d < i && w@[d as int] == '.',
            forall|j: int| a <= j < i && #[trigger] w@[j] == '.' ==> dot == Some(j as usize),
            digit <==> exists|j: int| a <= j < i && is_digit(#[trigger] w@[j]),
        decreases b - i,
    {
        let c = w[i];
        if c == '.' {
            if dot.is_some() {
                let d = dot.unwrap();
                assert(s[d - a] == '.' && s[i - a] == '.');
                return false;
            }
            dot = Some(i);
        } else if is_digit_char(c) {
            digit = true;
        } else {
            assert(s[i - a] == c);
            return false;
        }
        i = i + 1;
    }
    assert forall|j: int| 0 <= j < s.len() implies is_digit(#[trigger] s[j]) || s[j] == '.' by {
        assert(s[j] == w@[a + j]);
    }
    assert forall|x: int, y: int|
        0 <= x < s.len() && 0 <= y < s.len() && #[trigger] s[x] == '.' && #[trigger] s[y] == '.'
        implies x == y by {
        assert(s[x] == w@[a + x]);
        assert(s[y] == w@[a + y]);
    }
    if digit {
        let ghost j = choose|j: int| a <= j < i && is_digit(#[trigger] w@[j]);
        assert(s[j - a] == w@[j]);
    } else {
        assert forall|j: int| 0 <= j < s.len() implies !is_digit(#[trigger] s[j]) by {
            assert(s[j] == w@[a + j]);
        }
    }
    digit
}

fn is_signed_digits_from(w: &[char], a: usize) -> (r: bool)
    requires
        a <= w@.len(),
    ensures
        r == is_signed_digits(w@.skip(a as int)),
{
    let ghost s = w@.skip(a as int);
    if a < w.len() && (w[a] == '+' || w[a] == '-') {
        assert(s[0] == w@[a as int]);
        assert(s.drop_first() =~= w@.skip(a + 1));
        a + 1 < w.len() && all_digits_from(w, a + 1)
    } else {
        if a < w.len() {
            assert(s[0] == w@[a as int]);
        }
        a < w.len() && all_digits_from(w, a)
    }
}

fn is_float_body_from(w: &[char], start: usize) -> (r: bool)
    requires
        start <= w@.len(),
    ensures
        r == is_float_body(w@.skip(start as int)),
{
    let ghost s = w@.skip(start as int);
    let mut k = start;
    while k < w.len() && !(w[k] == 'e' || w[k] == 'E')
        invariant
            start <= k <= w@.len(),
            forall|j: int| start <= j < k ==> !is_exponent_mark(#[trigger] w@[j]),
        decreases w@.len() - k,
    {
        k = k + 1;
    }
    if k == w.len() {
        assert(w@.subrange(start as int, k as int) =~= s);
        let m = is_mantissa_range(w, start, k);
        assert forall|x: int| 0 <= x < s.len() implies !is_exponent_mark(#[trigger] s[x]) by {
            assert(s[x] == w@[start + x]);
        }
        return m;
    }
    assert(s[k - start] == w@[k as int]);
    assert(s.take(k - start) =~= w@.subrange(start as int, k as int));
    assert(s.skip(k - start + 1) =~= w@.skip(k + 1));
    let m = is_mantissa_range(w, start, k);
    let e = is_signed_digits_from(w, k + 1);
    assert(!is_mantissa(s)) by {
        assert(!(is_digit(s[k - start]) || s[k - start] == '.'));
    }
    if !(m && e) {
        assert forall|x: int|
            0 <= x < s.len() && is_exponent_mark(#[trigger] s[x]) && is_mantissa(s.take(x))
            implies !is_signed_digits(s.skip(x + 1)) by {
            assert(s[x] == w@[start + x]);
            if x > k - start {
                assert(s.take(x)[k - start] == s[k - start]);
            }
        }
    }
    m && e
}

/// Whether the word has the float form: an optional sign, digits with at most
/// one `.` and at least one digit, then optionally `e` or `E` and a signed
/// exponent.
pub fn is_float_word(w: &[char]) -> (r: bool)
    ensures
        r == is_float_text(w@),
{
    if w.len() > 0 && (w[0] == '+' || w[0] == '-') {
        assert(w@.drop_first() =~= w@.skip(1));
        is_float_body_from(w, 1)
    } else {
        assert(w@ =~= w@.skip(0));
        is_float_body_from(w, 0)
    }
}

/// Classifies a completed word.
pub fn classify_word(w: &[char]) -> (r: Result<TokenType, LexerErrorType>)
    ensures
        result_view(r) == classify(w@),
{
    if is_operator(w) {
        return Ok(TokenType::Operator(text_of(w)));
    }
    if is_int_word(w) {
        return match parse_int(w) {
            Some(v) => Ok(TokenType::IntLiteral(v)),
            None => Err(LexerErrorType::InvalidIntLiteral(text_of(w))),
        };
    }
    if contains_dot_digit(w) {
        if is_float_word(w) {
            return Ok(TokenType::FloatLiteral(text_of(w)));
        }
        return Err(LexerErrorType::InvalidFloatLiteral(text_of(w)));
    }
    Ok(TokenType::Identifier(text_of(w)))
}

} // verus!
