//! The lexical side of the wire grammar: whitespace, number tokens and
//! their classification into integer-shaped and float-shaped forms, and
//! decimal integer text in both directions.
use vstd::prelude::*;

verus! {

pub open spec fn is_ws(c: char) -> bool {
    c == ' ' || c == '\t' || c == '\n' || c == '\r'
}

pub open spec fn is_digit(c: char) -> bool {
    '0' <= c && c <= '9'
}

/// The characters a number token may be built from; a maximal run of them
/// is taken as one token and then validated.
pub open spec fn is_num_char(c: char) -> bool {
    is_digit(c) || c == '-' || c == '+' || c == '.' || c == 'e' || c == 'E'
}

/// The numeric value of a digit character.
pub open spec fn digit_val(c: char) -> int {
    c as int - '0' as int
}

/// The first position at or after `i` that does not hold a digit.
pub open spec fn span_digits(s: Seq<char>, i: int) -> int
    decreases s.len() - i when 0 <= i <= s.len()
{
    if i < s.len() && is_digit(s[i]) {
        span_digits(s, i + 1)
    } else {
        i
    }
}

pub proof fn lemma_span_digits(s: Seq<char>, i: int)
    requires
        0 <= i <= s.len(),
    ensures
        i <= span_digits(s, i) <= s.len(),
        forall|k: int| i <= k < span_digits(s, i) ==> is_digit(s[k]),
        span_digits(s, i) < s.len() ==> !is_digit(s[span_digits(s, i)]),
    decreases s.len() - i,
{
    if i < s.len() && is_digit(s[i]) {
        lemma_span_digits(s, i + 1);
    }
}

/// End of the integer part starting at `i`: one zero, or a nonzero digit
/// followed by more digits; negative when no valid integer part is there.
pub open spec fn int_part_end(s: Seq<char>, i: int) -> int {
    if i < s.len() && is_digit(s[i]) {
        if s[i] == '0' {
            i + 1
        } else {
            span_digits(s, i)
        }
    } else {
        -1
    }
}

/// End of the optional fraction part starting at `i`; `i` itself when none
/// starts there, negative when a fraction starts but is invalid.
pub open spec fn frac_end(s: Seq<char>, i: int) -> int {
    if 0 <= i < s.len() && s[i] == '.' {
        if i + 1 < s.len() && is_digit(s[i + 1]) {
            span_digits(s, i + 1)
        } else {
            -1
        }
    } else {
        i
    }
}

/// End of the optional exponent part starting at `i`; `i` itself when none
/// starts there, negative when an exponent starts but is invalid.
pub open spec fn exp_end(s: Seq<char>, i: int) -> int {
    if 0 <= i < s.len() && (s[i] == 'e' || s[i] == 'E') {
        let j = if i + 1 < s.len() && (s[i + 1] == '+' || s[i + 1] == '-') {
            i + 2
        } else {
            i + 1
        };
        if j < s.len() && is_digit(s[j]) {
            span_digits(s, j)
        } else {
            -1
        }
    } else {
        i
    }
}

/// Whether `s` as a whole is a number token of the wire grammar:
/// an optional minus, an integer part without leading zeros, then an
/// optional fraction and an optional exponent.
pub open spec fn is_json_number(s: Seq<char>) -> bool {
    let i0: int = if s.len() > 0 && s[0] == '-' { 1 } else { 0 };
    let i1 = int_part_end(s, i0);
    i1 >= 0 && {
        let i2 = frac_end(s, i1);
        i2 >= 0 && exp_end(s, i2) == s.len()
    }
}

/// Whether `s` as a whole is an integer-shaped token: an optional minus and
/// an integer part only, with no fraction and no exponent.
pub open spec fn is_int_token(s: Seq<char>) -> bool {
    let i0: int = if s.len() > 0 && s[0] == '-' { 1 } else { 0 };
    int_part_end(s, i0) == s.len()
}

/// Whether the token carries a decimal point or an exponent marker, the
/// mark that dispatches a number to the float variant.
pub open spec fn has_float_shape(s: Seq<char>) -> bool {
    exists|i: int| 0 <= i < s.len() && (s[i] == '.' || s[i] == 'e' || s[i] == 'E')
}

/// The value of a run of digit characters.
pub open spec fn digits_val(s: Seq<char>) -> int
    decreases s,
{
    if s.len() == 0 {
        0
    } else {
        digits_val(s.drop_last()) * 10 + digit_val(s.last())
    }
}

/// The signed value of an integer-shaped token.
pub open spec fn int_value(s: Seq<char>) -> int {
    if s.len() > 0 && s[0] == '-' {
        -digits_val(s.subrange(1, s.len() as int))
    } else {
        digits_val(s)
    }
}

/// Decimal digit text of a nonnegative number, most significant first.
pub open spec fn dec_digits(m: nat) -> Seq<char>
    decreases m,
{
    let last = digit_char((m % 10) as nat);
    if m < 10 {
        seq![last]
    } else {
        dec_digits((m / 10) as nat).push(last)
    }
}

/// Decimal text of a signed number.
pub open spec fn int_text(v: int) -> Seq<char> {
    if v < 0 {
        seq!['-'] + dec_digits((-v) as nat)
    } else {
        dec_digits(v as nat)
    }
}

/// The digit character for a value below ten.
pub open spec fn digit_char(d: nat) -> char {
    if d == 0 { '0' }
    else if d == 1 { '1' }
    else if d == 2 { '2' }
    else if d == 3 { '3' }
    else if d == 4 { '4' }
    else if d == 5 { '5' }
    else if d == 6 { '6' }
    else if d == 7 { '7' }
    else if d == 8 { '8' }
    else { '9' }
}


pub open spec fn pow10(n: nat) -> int
    decreases n,
{
    if n == 0 {
        1
    } else {
        10 * pow10((n - 1) as nat)
    }
}

pub proof fn lemma_digits_val_bounds(s: Seq<char>)
    requires
        forall|i: int| 0 <= i < s.len() ==> is_digit(s[i]),
    ensures
        0 <= digits_val(s) < pow10(s.len()),
    decreases s,
{
    if s.len() > 0 {
        assert(forall|i: int| 0 <= i < s.len() - 1 ==> s.drop_last()[i] == s[i]);
        lemma_digits_val_bounds(s.drop_last());
        assert(is_digit(s.last()));
        assert(0 <= digit_val(s.last()) <= 9);
    }
}

pub proof fn lemma_digits_val_lower(s: Seq<char>)
    requires
        forall|i: int| 0 <= i < s.len() ==> is_digit(s[i]),
        s.len() >= 1,
        digit_val(s[0]) >= 1,
    ensures
        digits_val(s) >= pow10((s.len() - 1) as nat),
    decreases s,
{
    if s.len() == 1 {
    } else {
        assert(forall|i: int| 0 <= i < s.len() - 1 ==> s.drop_last()[i] == s[i]);
        lemma_digits_val_lower(s.drop_last());
        assert(0 <= digit_val(s.last()));
        assert(pow10((s.len() - 1) as nat) == 10 * pow10((s.len() - 2) as nat));
        assert(digits_val(s.drop_last()) >= pow10((s.len() - 2) as nat));
        assert(digits_val(s) == digits_val(s.drop_last()) * 10 + digit_val(s.last()));
    }
}

pub proof fn lemma_pow10_10()
    ensures
        pow10(10) == 10_000_000_000,
{
    assert(pow10(0) == 1);
    assert(pow10(1) == 10);
    assert(pow10(2) == 100);
    assert(pow10(3) == 1000);
    assert(pow10(4) == 10000);
    assert(pow10(5) == 100000);
    assert(pow10(6) == 1000000);
    assert(pow10(7) == 10000000);
    assert(pow10(8) == 100000000);
    assert(pow10(9) == 1000000000);
    assert(pow10(10) == 10000000000);
}

/// A valid number token that is not integer-shaped carries a point or an
/// exponent marker.
pub proof fn lemma_number_shape(s: Seq<char>)
    requires
        is_json_number(s),
        !is_int_token(s),
    ensures
        has_float_shape(s),
{
    let i0: int = if s.len() > 0 && s[0] == '-' { 1 } else { 0 };
    let i1 = int_part_end(s, i0);
    let i2 = frac_end(s, i1);
    if i1 < s.len() {
        if s[i1] == '.' {
            assert(s[i1] == '.' && 0 <= i1 < s.len());
        } else {
            assert(i2 == i1);
            assert(exp_end(s, i1) == s.len());
            assert(s[i1] == 'e' || s[i1] == 'E');
        }
    }
}

/// Every character of a valid number token is a number character.
pub proof fn lemma_number_chars(s: Seq<char>)
    requires
        is_json_number(s),
    ensures
        forall|i: int| 0 <= i < s.len() ==> is_num_char(s[i]),
{
    let i0: int = if s.len() > 0 && s[0] == '-' { 1 } else { 0 };
    let i1 = int_part_end(s, i0);
    let i2 = frac_end(s, i1);
    let i3 = exp_end(s, i2);
    assert(0 <= i0 <= s.len());
    if s[i0] == '0' {
    } else {
        lemma_span_digits(s, i0);
    }
    assert(i0 <= i1 <= s.len());
    assert(forall|k: int| i0 <= k < i1 ==> is_digit(s[k]));
    if i1 < s.len() && s[i1] == '.' {
        lemma_span_digits(s, i1 + 1);
        assert(forall|k: int| i1 + 1 <= k < i2 ==> is_digit(s[k]));
    }
    assert(i1 <= i2 <= s.len());
    if i2 < s.len() && (s[i2] == 'e' || s[i2] == 'E') {
        let j = if i2 + 1 < s.len() && (s[i2 + 1] == '+' || s[i2 + 1] == '-') {
            i2 + 2
        } else {
            i2 + 1
        };
        lemma_span_digits(s, j);
        assert(forall|k: int| j <= k < i3 ==> is_digit(s[k]));
    }
    assert(i3 == s.len());
    assert forall|i: int| 0 <= i < s.len() implies is_num_char(s[i]) by {
        if i < i0 {
            assert(s[i] == '-');
        } else if i < i1 {
            assert(is_digit(s[i]));
        } else if i < i2 {
            if i == i1 {
                assert(s[i] == '.');
            } else {
                assert(is_digit(s[i]));
            }
        } else {
            if i == i2 {
                assert(s[i] == 'e' || s[i] == 'E');
            } else if i == i2 + 1 && (s[i] == '+' || s[i] == '-') {
            } else {
                assert(is_digit(s[i]));
            }
        }
    }
}


pub proof fn lemma_pow10_pos(n: nat)
    ensures
        pow10(n) >= 1,
    decreases n,
{
    if n > 0 {
        lemma_pow10_pos((n - 1) as nat);
    }
}

pub proof fn lemma_pow10_mono(a: nat, b: nat)
    requires
        a <= b,
    ensures
        pow10(a) <= pow10(b),
    decreases b,
{
    if a < b {
        lemma_pow10_mono(a, (b - 1) as nat);
        lemma_pow10_pos((b - 1) as nat);
    }
}


/// An integer-shaped token carries no point and no exponent marker.
pub proof fn lemma_int_token_shape(s: Seq<char>)
    requires
        is_int_token(s),
    ensures
        !has_float_shape(s),
{
    let i0: int = if s.len() > 0 && s[0] == '-' { 1 } else { 0 };
    assert(int_part_end(s, i0) == s.len());
    assert(i0 < s.len() && is_digit(s[i0]));
    if s[i0] == '0' {
        assert(s.len() == i0 + 1);
    } else {
        lemma_span_digits(s, i0);
    }
    assert(forall|k: int| i0 <= k < s.len() ==> is_digit(s[k]));
    if has_float_shape(s) {
        let i = choose|i: int|
            0 <= i < s.len() && (s[i] == '.' || s[i] == 'e' || s[i] == 'E');
        if i < i0 {
            assert(s[i] == '-');
        } else {
            assert(is_digit(s[i]));
        }
        assert(false);
    }
}

} // verus!
