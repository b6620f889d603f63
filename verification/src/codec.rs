//! The text codec: the wire grammar's value forms, a specification-level
//! parser with the shape-directed dispatch policy, the compact serializer,
//! and the trusted number canonicalization that stands in for 64-bit float
//! reading and printing.
use vstd::prelude::*;

use crate::grammar::{
    dec_digits, digit_char, int_text, int_value, is_digit, is_json_number, is_num_char,
    is_ws,
};
use crate::value::{Json, JsonError, JsonView};

verus! {

/// Names the canonical decimal text that the host number library gives a
/// number token: the shortest text that reads back as the same number, or
/// nothing when the token's value cannot be represented. It depends on the
/// token alone.
pub uninterp spec fn num_canon(s: Seq<char>) -> Option<Seq<char>>;

/// Relies on serde_json with its `float_roundtrip` feature:
/// `serde_json::from_str` for `serde_json::Number` accepts exactly the
/// wire grammar's number tokens whose value fits the host's number
/// representation (a finite 64-bit float or a 64-bit integer), reading
/// float texts with full precision, and `Number`'s `Display` prints the
/// canonical shortest text. Because printing is shortest-round-trip and
/// parsing is exact, the canonical text reads back as the very same
/// number and re-canonicalizes to itself; a float value always prints
/// with a decimal point or an exponent.
#[verifier::external_body]
pub(crate) fn canonical_number(s: &str) -> (r: Option<String>)
    ensures
        match r {
            Some(c) => num_canon(s@) == Some(c@) && is_json_number(c@) && num_canon(c@)
                == Some(c@) && (has_float_shape_g(s@) ==> has_float_shape_g(c@)),
            None => num_canon(s@) is None,
        },
{
    match s.parse::<serde_json::Number>() {
        Ok(n) => Some(n.to_string()),
        Err(_) => None,
    }
}

// A short alias so the trusted contract above stays readable.
pub open spec fn has_float_shape_g(s: Seq<char>) -> bool {
    crate::grammar::has_float_shape(s)
}

/// The token handed to the host number library for the float variant: a
/// token without a point or exponent (a 32-bit-overflowing integer form)
/// gets a fractional mark first, so the canonical text it comes back with
/// dispatches to Float on re-parse.
pub open spec fn float_token_of(tok: Seq<char>) -> Seq<char> {
    if has_float_shape_g(tok) {
        tok
    } else {
        tok + seq!['.', '0']
    }
}

/// Relies on char::from_u32: it answers exactly for the values that are
/// not surrogates and not beyond the greatest scalar value, with the
/// character of that code.
#[verifier::external_body]
pub(crate) fn char_from_u32(n: u32) -> (r: Option<char>)
    ensures
        r matches Some(c) ==> c as u32 == n,
        (n < 0xD800 || (0xE000 <= n && n <= 0x10FFFF)) ==> r is Some,
{
    char::from_u32(n)
}

/// Relies on String::from_iter over characters: the collected string holds
/// exactly the characters of the vector, in order.
#[verifier::external_body]
pub(crate) fn chars_to_string(v: &Vec<char>) -> (r: String)
    ensures
        r@ == v@,
{
    v.iter().collect()
}

/// The code of a character.
pub open spec fn char_code(c: char) -> int {
    (c as u32) as int
}

/// The character with the given code.
pub open spec fn char_of(n: int) -> char {
    choose|c: char| char_code(c) == n
}

pub proof fn lemma_char_of(c: char)
    ensures
        char_of(char_code(c)) == c,
{
    assert(char_code(c) == char_code(c));
    let w = choose|c2: char| char_code(c2) == char_code(c);
    assert(char_code(w) == char_code(c));
    assert(w as u32 == c as u32);
    vstd::utf8::char_u32_cast(c, c as u32);
    vstd::utf8::char_u32_cast(w, w as u32);
    assert(w == c);
}

/// Whether the whole value, including descendants, carries only canonical
/// float payloads, so that re-parsing its text reproduces it exactly.
pub open spec fn canonical(v: Json) -> bool
    decreases v,
{
    match v {
        Json::Float(p) => num_canon(p@) == Some(p@),
        Json::Array(a) => canon_list(a@),
        Json::Object(m) => canon_members(m@),
        _ => true,
    }
}

pub open spec fn canon_list(s: Seq<Json>) -> bool
    decreases s,
{
    s.len() == 0 || (canon_list(s.drop_last()) && canonical(s.last()))
}

pub open spec fn canon_members(s: Seq<(String, Json)>) -> bool
    decreases s,
{
    s.len() == 0 || (canon_members(s.drop_last()) && canonical(s.last().1))
}

pub proof fn lemma_canon_list(s: Seq<Json>)
    ensures
        canon_list(s) <==> (forall|i: int| 0 <= i < s.len() ==> canonical(s[i])),
    decreases s,
{
    if s.len() > 0 {
        lemma_canon_list(s.drop_last());
        assert(forall|i: int| 0 <= i < s.len() - 1 ==> s.drop_last()[i] == s[i]);
        assert(s[s.len() - 1] == s.last());
        if canon_list(s) {
            assert forall|i: int| 0 <= i < s.len() implies canonical(s[i]) by {
                if i < s.len() - 1 {
                    assert(canonical(s.drop_last()[i]));
                }
            }
        }
        if forall|i: int| 0 <= i < s.len() ==> canonical(s[i]) {
            assert(forall|i: int| 0 <= i < s.len() - 1 ==> canonical(s.drop_last()[i]));
        }
    }
}

pub proof fn lemma_canon_members(s: Seq<(String, Json)>)
    ensures
        canon_members(s) <==> (forall|i: int| 0 <= i < s.len() ==> canonical(s[i].1)),
    decreases s,
{
    if s.len() > 0 {
        lemma_canon_members(s.drop_last());
        assert(forall|i: int| 0 <= i < s.len() - 1 ==> s.drop_last()[i] == s[i]);
        assert(s[s.len() - 1] == s.last());
        if canon_members(s) {
            assert forall|i: int| 0 <= i < s.len() implies canonical(s[i].1) by {
                if i < s.len() - 1 {
                    assert(canonical(s.drop_last()[i].1));
                }
            }
        }
        if forall|i: int| 0 <= i < s.len() ==> canonical(s[i].1) {
            assert(forall|i: int| 0 <= i < s.len() - 1 ==> canonical(s.drop_last()[i].1));
        }
    }
}

// ---------------------------------------------------------------------
// The specification-level parser.
// ---------------------------------------------------------------------

/// The first position at or after `i` that holds no whitespace.
pub open spec fn skip_ws(t: Seq<char>, i: int) -> int
    decreases t.len() - i when 0 <= i <= t.len()
{
    if i < t.len() && is_ws(t[i]) {
        skip_ws(t, i + 1)
    } else {
        i
    }
}

/// The first position at or after `i` that holds no number character.
pub open spec fn span_num(t: Seq<char>, i: int) -> int
    decreases t.len() - i when 0 <= i <= t.len()
{
    if i < t.len() && is_num_char(t[i]) {
        span_num(t, i + 1)
    } else {
        i
    }
}

pub proof fn lemma_span_num(t: Seq<char>, i: int)
    requires
        0 <= i <= t.len(),
    ensures
        i <= span_num(t, i) <= t.len(),
        forall|k: int| i <= k < span_num(t, i) ==> is_num_char(t[k]),
        span_num(t, i) < t.len() ==> !is_num_char(t[span_num(t, i)]),
    decreases t.len() - i,
{
    if i < t.len() && is_num_char(t[i]) {
        lemma_span_num(t, i + 1);
    }
}

pub open spec fn hex_val(c: char) -> int {
    if is_digit(c) {
        c as int - 48
    } else if 'a' <= c && c <= 'f' {
        c as int - 87
    } else if 'A' <= c && c <= 'F' {
        c as int - 55
    } else {
        -1
    }
}

pub open spec fn is_hex(c: char) -> bool {
    hex_val(c) >= 0
}

/// The shape-directed classification of one number token: an
/// integer-shaped token that fits the 32-bit width is an Integer; any
/// other valid token is a Float with canonical text, always carrying a
/// point or an exponent; a token whose value the host cannot represent
/// is refused.
pub open spec fn p_number(tok: Seq<char>, j: int) -> Option<(JsonView, int)> {
    if !is_json_number(tok) {
        None
    } else if crate::grammar::is_int_token(tok) && -0x8000_0000 <= int_value(tok)
        <= 0x7fff_ffff {
        Some((JsonView::Integer(int_value(tok)), j))
    } else {
        match num_canon(float_token_of(tok)) {
            Some(c) => Some((JsonView::Float(c), j)),
            None => None,
        }
    }
}

/// The body of a string literal from position `i` (after the opening
/// quote) to its closing quote, unescaped onto `acc`.
pub open spec fn p_string_body(t: Seq<char>, i: int, acc: Seq<char>) -> Option<
    (Seq<char>, int),
>
    decreases t.len() - i when 0 <= i <= t.len()
{
    if i >= t.len() {
        None
    } else {
        let c = t[i];
        if c == '"' {
            Some((acc, i + 1))
        } else if c == '\\' {
            if i + 1 >= t.len() {
                None
            } else {
                let e = t[i + 1];
                if e == '"' || e == '\\' || e == '/' {
                    p_string_body(t, i + 2, acc.push(e))
                } else if e == 'b' {
                    p_string_body(t, i + 2, acc.push(char_of(8)))
                } else if e == 'f' {
                    p_string_body(t, i + 2, acc.push(char_of(12)))
                } else if e == 'n' {
                    p_string_body(t, i + 2, acc.push(char_of(10)))
                } else if e == 'r' {
                    p_string_body(t, i + 2, acc.push(char_of(13)))
                } else if e == 't' {
                    p_string_body(t, i + 2, acc.push(char_of(9)))
                } else if e == 'u' {
                    if i + 6 > t.len() || !(is_hex(t[i + 2]) && is_hex(t[i + 3]) && is_hex(
                        t[i + 4],
                    ) && is_hex(t[i + 5])) {
                        None
                    } else {
                        let h = hex_val(t[i + 2]) * 4096 + hex_val(t[i + 3]) * 256 + hex_val(
                            t[i + 4],
                        ) * 16 + hex_val(t[i + 5]);
                        if 0xD800 <= h < 0xDC00 {
                            if i + 12 > t.len() || !(t[i + 6] == '\\' && t[i + 7] == 'u'
                                && is_hex(t[i + 8]) && is_hex(t[i + 9]) && is_hex(t[i + 10])
                                && is_hex(t[i + 11])) {
                                None
                            } else {
                                let l = hex_val(t[i + 8]) * 4096 + hex_val(t[i + 9]) * 256
                                    + hex_val(t[i + 10]) * 16 + hex_val(t[i + 11]);
                                if 0xDC00 <= l < 0xE000 {
                                    p_string_body(
                                        t,
                                        i + 12,
                                        acc.push(
                                            char_of(
                                                0x10000 + (h - 0xD800) * 0x400 + (l - 0xDC00),
                                            ),
                                        ),
                                    )
                                } else {
                                    None
                                }
                            }
                        } else if 0xDC00 <= h < 0xE000 {
                            None
                        } else {
                            p_string_body(t, i + 6, acc.push(char_of(h)))
                        }
                    }
                } else {
                    None
                }
            }
        } else if (c as u32) < 32 {
            None
        } else {
            p_string_body(t, i + 1, acc.push(c))
        }
    }
}

/// One value starting exactly at position `i`, dispatched on the shape of
/// its first character.
pub open spec fn p_value(t: Seq<char>, i: int) -> Option<(JsonView, int)>
    decreases t.len() - i, 1int when 0 <= i <= t.len()
{
    if i >= t.len() {
        None
    } else {
        let c = t[i];
        if c == '"' {
            match p_string_body(t, i + 1, Seq::empty()) {
                Some((s, j)) => Some((JsonView::Text(s), j)),
                None => None,
            }
        } else if c == 't' {
            if i + 4 <= t.len() && t[i + 1] == 'r' && t[i + 2] == 'u' && t[i + 3] == 'e' {
                Some((JsonView::Boolean(true), i + 4))
            } else {
                None
            }
        } else if c == 'f' {
            if i + 5 <= t.len() && t[i + 1] == 'a' && t[i + 2] == 'l' && t[i + 3] == 's'
                && t[i + 4] == 'e' {
                Some((JsonView::Boolean(false), i + 5))
            } else {
                None
            }
        } else if c == 'n' {
            if i + 4 <= t.len() && t[i + 1] == 'u' && t[i + 2] == 'l' && t[i + 3] == 'l' {
                Some((JsonView::Null, i + 4))
            } else {
                None
            }
        } else if c == '[' {
            let j = skip_ws(t, i + 1);
            if i + 1 <= j && j < t.len() && t[j] == ']' {
                Some((JsonView::Array(Seq::empty()), j + 1))
            } else {
                p_elems(t, i + 1, Seq::empty())
            }
        } else if c == '{' {
            let j = skip_ws(t, i + 1);
            if i + 1 <= j && j < t.len() && t[j] == '}' {
                Some((JsonView::Object(Map::empty()), j + 1))
            } else {
                p_members(t, i + 1, Map::empty())
            }
        } else if c == '-' || is_digit(c) {
            let j = span_num(t, i);
            if i < j <= t.len() {
                p_number(t.subrange(i, j), j)
            } else {
                None
            }
        } else {
            None
        }
    }
}

/// The elements of an array from position `i` (after `[` or a comma),
/// accumulated onto `acc`, up to and including the closing bracket.
pub open spec fn p_elems(t: Seq<char>, i: int, acc: Seq<JsonView>) -> Option<
    (JsonView, int),
>
    decreases t.len() - i, 2int when 0 <= i <= t.len()
{
    let j = skip_ws(t, i);
    if !(i <= j <= t.len()) {
        None
    } else {
        match p_value(t, j) {
            None => None,
            Some((v, k)) => {
                if !(j < k <= t.len()) {
                    None
                } else {
                    let k2 = skip_ws(t, k);
                    if !(k <= k2 <= t.len()) {
                        None
                    } else if k2 < t.len() && t[k2] == ',' {
                        p_elems(t, k2 + 1, acc.push(v))
                    } else if k2 < t.len() && t[k2] == ']' {
                        Some((JsonView::Array(acc.push(v)), k2 + 1))
                    } else {
                        None
                    }
                }
            },
        }
    }
}

/// The members of an object from position `i` (after `{` or a comma),
/// accumulated onto `acc` with a later key overwriting an earlier one, up
/// to and including the closing brace.
pub open spec fn p_members(t: Seq<char>, i: int, acc: Map<Seq<char>, JsonView>) -> Option<
    (JsonView, int),
>
    decreases t.len() - i, 2int when 0 <= i <= t.len()
{
    let j = skip_ws(t, i);
    if !(i <= j <= t.len()) {
        None
    } else if j < t.len() && t[j] == '"' {
        match p_string_body(t, j + 1, Seq::empty()) {
            None => None,
            Some((key, k)) => {
                if !(j < k <= t.len()) {
                    None
                } else {
                    let k2 = skip_ws(t, k);
                    if !(k <= k2 <= t.len()) {
                        None
                    } else if k2 < t.len() && t[k2] == ':' {
                        let vv = skip_ws(t, k2 + 1);
                        if !(k2 + 1 <= vv <= t.len()) {
                            None
                        } else {
                        match p_value(t, vv) {
                            None => None,
                            Some((v, k3)) => {
                                if !(k2 < k3 <= t.len()) {
                                    None
                                } else {
                                    let k4 = skip_ws(t, k3);
                                    if !(k3 <= k4 <= t.len()) {
                                        None
                                    } else if k4 < t.len() && t[k4] == ',' {
                                        p_members(t, k4 + 1, acc.insert(key, v))
                                    } else if k4 < t.len() && t[k4] == '}' {
                                        Some((JsonView::Object(acc.insert(key, v)), k4 + 1))
                                    } else {
                                        None
                                    }
                                }
                            },
                        }
                        }
                    } else {
                        None
                    }
                }
            },
        }
    } else {
        None
    }
}

/// The whole-text parse: optional whitespace, one value, optional
/// whitespace, and nothing else.
pub open spec fn parse_spec(t: Seq<char>) -> Option<JsonView> {
    let i = skip_ws(t, 0);
    if !(0 <= i <= t.len()) {
        None
    } else {
        match p_value(t, i) {
            None => None,
            Some((v, j)) => {
                if !(0 <= j <= t.len()) {
                    None
                } else if skip_ws(t, j) == t.len() {
                    Some(v)
                } else {
                    None
                }
            },
        }
    }
}

// ---------------------------------------------------------------------
// The specification-level serializer.
// ---------------------------------------------------------------------

pub open spec fn hexdig(d: int) -> char {
    if d < 10 {
        digit_char(d as nat)
    } else if d == 10 {
        'a'
    } else if d == 11 {
        'b'
    } else if d == 12 {
        'c'
    } else if d == 13 {
        'd'
    } else if d == 14 {
        'e'
    } else {
        'f'
    }
}

/// The escaped form of one character inside a string literal: quotes and
/// backslashes get a backslash, control characters a hexadecimal escape,
/// everything else stands as itself.
pub open spec fn esc_char(c: char) -> Seq<char> {
    if c == '"' {
        seq!['\\', '"']
    } else if c == '\\' {
        seq!['\\', '\\']
    } else if (c as u32) < 32 {
        seq!['\\', 'u', '0', '0', hexdig((c as u32 / 16) as int), hexdig(
            (c as u32 % 16) as int)]
    } else {
        seq![c]
    }
}

pub open spec fn esc_str(s: Seq<char>) -> Seq<char>
    decreases s,
{
    if s.len() == 0 {
        Seq::empty()
    } else {
        esc_str(s.drop_last()) + esc_char(s.last())
    }
}

/// The compact text of one value: no inserted whitespace, numbers per the
/// Integer/Float distinction, strings quoted and escaped.
pub open spec fn ser(j: Json) -> Seq<char>
    decreases j, 0int,
{
    match j {
        Json::Integer(i) => int_text(i as int),
        Json::Float(p) => p@,
        Json::Text(s) => seq!['"'] + esc_str(s@) + seq!['"'],
        Json::Boolean(b) => if b {
            seq!['t', 'r', 'u', 'e']
        } else {
            seq!['f', 'a', 'l', 's', 'e']
        },
        Json::Null => seq!['n', 'u', 'l', 'l'],
        Json::Array(a) => seq!['['] + ser_items(a@, 0) + seq![']'],
        Json::Object(m) => seq!['{'] + ser_members(m@, 0) + seq!['}'],
    }
}

pub open spec fn ser_items(s: Seq<Json>, k: int) -> Seq<char>
    decreases s, s.len() - k,
{
    if !(0 <= k < s.len()) {
        Seq::empty()
    } else {
        let head = ser(s[k]);
        if k + 1 < s.len() {
            head + seq![','] + ser_items(s, k + 1)
        } else {
            head
        }
    }
}

pub open spec fn ser_members(s: Seq<(String, Json)>, k: int) -> Seq<char>
    decreases s, s.len() - k,
{
    if !(0 <= k < s.len()) {
        Seq::empty()
    } else {
        let head = seq!['"'] + esc_str(s[k].0@) + seq!['"', ':'] + ser(s[k].1);
        if k + 1 < s.len() {
            head + seq![','] + ser_members(s, k + 1)
        } else {
            head
        }
    }
}


// ---------------------------------------------------------------------
// The executable serializer.
// ---------------------------------------------------------------------

fn digit_char_x(d: u32) -> (c: char)
    requires
        d < 10,
    ensures
        c == digit_char(d as nat),
{
    if d == 0 { '0' }
    else if d == 1 { '1' }
    else if d == 2 { '2' }
    else if d == 3 { '3' }
    else if d == 4 { '4' }
    else if d == 5 { '5' }
    else if d == 6 { '6' }
    else if d == 7 { '7' }
    else if d == 8 { '8' }
    else { '9' }
}

fn hexdig_x(d: u32) -> (c: char)
    requires
        d < 16,
    ensures
        c == hexdig(d as int),
{
    if d < 10 {
        digit_char_x(d)
    } else if d == 10 { 'a' }
    else if d == 11 { 'b' }
    else if d == 12 { 'c' }
    else if d == 13 { 'd' }
    else if d == 14 { 'e' }
    else { 'f' }
}

fn write_u32(n: u32, out: &mut Vec<char>)
    ensures
        final(out)@ == old(out)@ + dec_digits(n as nat),
    decreases n,
{
    if n < 10 {
        out.push(digit_char_x(n));
    } else {
        write_u32(n / 10, out);
        out.push(digit_char_x(n % 10));
        proof {
            assert(out@ =~= old(out)@ + dec_digits(n as nat));
        }
    }
}

fn write_i32(n: i32, out: &mut Vec<char>)
    ensures
        final(out)@ == old(out)@ + int_text(n as int),
{
    if n < 0 {
        out.push('-');
        let m: u32 = (-(n as i64)) as u32;
        proof {
            assert(m as nat == (-(n as int)) as nat);
        }
        write_u32(m, out);
        proof {
            assert(out@ =~= old(out)@ + int_text(n as int));
        }
    } else {
        write_u32(n as u32, out);
    }
}

/// Append the characters of `s` unchanged.
pub(crate) fn push_str_chars(s: &str, out: &mut Vec<char>)
    ensures
        final(out)@ == old(out)@ + s@,
{
    let n = s.unicode_len();
    let mut i: usize = 0;
    while i < n
        invariant
            i <= n,
            n == s@.len(),
            out@ == old(out)@ + s@.subrange(0, i as int),
        decreases n - i,
    {
        out.push(s.get_char(i));
        proof {
            assert(s@.subrange(0, i + 1 as int) =~= s@.subrange(0, i as int).push(
                s@[i as int]));
            assert(out@ =~= old(out)@ + s@.subrange(0, i + 1 as int));
        }
        i += 1;
    }
    proof {
        assert(s@.subrange(0, n as int) =~= s@);
    }
}

/// Append the escaped form of `s`, without the surrounding quotes.
fn write_escaped(s: &str, out: &mut Vec<char>)
    ensures
        final(out)@ == old(out)@ + esc_str(s@),
{
    let n = s.unicode_len();
    let mut i: usize = 0;
    while i < n
        invariant
            i <= n,
            n == s@.len(),
            out@ == old(out)@ + esc_str(s@.subrange(0, i as int)),
        decreases n - i,
    {
        let c = s.get_char(i);
        if c == '"' {
            out.push('\\');
            out.push('"');
        } else if c == '\\' {
            out.push('\\');
            out.push('\\');
        } else if (c as u32) < 32 {
            let u = c as u32;
            out.push('\\');
            out.push('u');
            out.push('0');
            out.push('0');
            out.push(hexdig_x(u / 16));
            out.push(hexdig_x(u % 16));
        } else {
            out.push(c);
        }
        proof {
            assert(s@.subrange(0, i + 1 as int).drop_last() =~= s@.subrange(0, i as int));
            assert(s@.subrange(0, i + 1 as int).last() == s@[i as int]);
            assert(out@ =~= old(out)@ + esc_str(s@.subrange(0, i + 1 as int)));
        }
        i += 1;
    }
    proof {
        assert(s@.subrange(0, n as int) =~= s@);
    }
}

fn write_value(j: &Json, out: &mut Vec<char>)
    ensures
        final(out)@ == old(out)@ + ser(*j),
    decreases *j, 0int,
{
    match j {
        Json::Integer(i) => {
            write_i32(*i, out);
        },
        Json::Float(p) => {
            push_str_chars(p.as_str(), out);
        },
        Json::Text(t) => {
            out.push('"');
            write_escaped(t.as_str(), out);
            out.push('"');
            proof {
                assert(out@ =~= old(out)@ + ser(*j));
            }
        },
        Json::Boolean(b) => {
            if *b {
                out.push('t');
                out.push('r');
                out.push('u');
                out.push('e');
            } else {
                out.push('f');
                out.push('a');
                out.push('l');
                out.push('s');
                out.push('e');
            }
            proof {
                assert(out@ =~= old(out)@ + ser(*j));
            }
        },
        Json::Null => {
            out.push('n');
            out.push('u');
            out.push('l');
            out.push('l');
            proof {
                assert(out@ =~= old(out)@ + ser(*j));
            }
        },
        Json::Array(a) => {
            proof {
                assert(decreases_to!(*j => (*j)->Array_0));
                assert(decreases_to!(*a => a@));
            }
            out.push('[');
            write_items(a, 0, out);
            out.push(']');
            proof {
                assert(out@ =~= old(out)@ + ser(*j));
            }
        },
        Json::Object(m) => {
            proof {
                assert(decreases_to!(*j => (*j)->Object_0));
                assert(decreases_to!(*m => m@));
            }
            out.push('{');
            write_members(m, 0, out);
            out.push('}');
            proof {
                assert(out@ =~= old(out)@ + ser(*j));
            }
        },
    }
}

fn write_items(a: &Vec<Json>, k: usize, out: &mut Vec<char>)
    ensures
        final(out)@ == old(out)@ + ser_items(a@, k as int),
    decreases a@, a@.len() - k,
{
    if k < a.len() {
        proof {
            assert(decreases_to!(a@ => a@[k as int]));
        }
        write_value(&a[k], out);
        if k + 1 < a.len() {
            out.push(',');
            write_items(a, k + 1, out);
            proof {
                assert(out@ =~= old(out)@ + ser_items(a@, k as int));
            }
        }
    }
}

fn write_members(m: &Vec<(String, Json)>, k: usize, out: &mut Vec<char>)
    ensures
        final(out)@ == old(out)@ + ser_members(m@, k as int),
    decreases m@, m@.len() - k,
{
    if k < m.len() {
        proof {
            assert(decreases_to!(m@ => m@[k as int]));
            assert(decreases_to!(m@[k as int] => m@[k as int].1));
        }
        out.push('"');
        write_escaped(m[k].0.as_str(), out);
        out.push('"');
        out.push(':');
        write_value(&m[k].1, out);
        if k + 1 < m.len() {
            out.push(',');
            write_members(m, k + 1, out);
        }
        proof {
            assert(out@ =~= old(out)@ + ser_members(m@, k as int));
        }
    }
}

impl Json {
    /// Render the value as compact text of the wire grammar. This always
    /// succeeds; the result form keeps the answer shape callers expect
    /// from a codec. A well-formed Float renders with a decimal point or
    /// an exponent, so its text re-parses to Float, never to Integer.
    pub fn to_string(&self) -> (r: Result<String, JsonError>)
        ensures
            r matches Ok(s) && s@ == ser(*self),
            (*self).wf() && *self is Float ==> has_float_shape_g(ser(*self)),
    {
        let mut out: Vec<char> = Vec::new();
        write_value(self, &mut out);
        proof {
            assert(out@ =~= ser(*self));
        }
        Ok(chars_to_string(&out))
    }
}

} // verus!
