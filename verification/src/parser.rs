//! The executable parser: a recursive-descent reading of the wire grammar
//! that provably computes exactly what the specification-level parser in
//! `codec` describes.
use vstd::prelude::*;

use crate::codec::{
    canonical, canonical_number, char_from_u32, char_of, chars_to_string,
    float_token_of, hex_val, is_hex, lemma_canon_list, lemma_canon_members,
    lemma_char_of, lemma_span_num, p_elems, p_members, p_number, p_string_body, p_value,
    parse_spec, push_str_chars, skip_ws, span_num,
};
use crate::grammar::{
    digit_val, digits_val, int_part_end, int_value, is_digit, is_json_number,
    is_int_token, is_num_char, lemma_digits_val_bounds, lemma_digits_val_lower,
    lemma_int_token_shape, lemma_number_shape, lemma_pow10_10, lemma_pow10_mono,
    lemma_span_digits, pow10, span_digits,
};
use crate::value::{
    arr_view, keys_unique, lemma_obj_view_push, lemma_obj_view_update, lemma_wf_list,
    lemma_wf_members, obj_view, str_eq, Json, JsonError, JsonView,
};

verus! {

fn is_digit_x(c: char) -> (r: bool)
    ensures
        r == is_digit(c),
{
    let u = c as u32;
    48 <= u && u <= 57
}

fn is_num_char_x(c: char) -> (r: bool)
    ensures
        r == is_num_char(c),
{
    is_digit_x(c) || c == '-' || c == '+' || c == '.' || c == 'e' || c == 'E'
}

/// `(valid, value)`: whether the character is a hexadecimal digit, and its
/// value when it is.
fn hex_val_x(c: char) -> (r: (bool, u32))
    ensures
        r.0 == is_hex(c),
        r.0 ==> r.1 as int == hex_val(c) && r.1 < 16,
{
    let u = c as u32;
    if 48 <= u && u <= 57 {
        (true, u - 48)
    } else if 97 <= u && u <= 102 {
        (true, u - 87)
    } else if 65 <= u && u <= 70 {
        (true, u - 55)
    } else {
        (false, 0)
    }
}

fn ws_to(s: &str, i: usize) -> (j: usize)
    requires
        i <= s@.len(),
    ensures
        j as int == skip_ws(s@, i as int),
        i <= j <= s@.len(),
    decreases s@.len() - i,
{
    if i < s.unicode_len() {
        let c = s.get_char(i);
        if c == ' ' || c == '\t' || c == '\n' || c == '\r' {
            return ws_to(s, i + 1);
        }
    }
    i
}

fn num_to(s: &str, i: usize) -> (j: usize)
    requires
        i <= s@.len(),
    ensures
        j as int == span_num(s@, i as int),
        i <= j <= s@.len(),
    decreases s@.len() - i,
{
    if i < s.unicode_len() {
        if is_num_char_x(s.get_char(i)) {
            return num_to(s, i + 1);
        }
    }
    i
}

fn digits_to(s: &str, i: usize) -> (j: usize)
    requires
        i <= s@.len(),
    ensures
        j as int == span_digits(s@, i as int),
        i <= j <= s@.len(),
    decreases s@.len() - i,
{
    if i < s.unicode_len() {
        if is_digit_x(s.get_char(i)) {
            return digits_to(s, i + 1);
        }
    }
    i
}

/// `(well_formed, integer_shaped)` for one candidate number token.
fn check_number_token(tok: &str) -> (r: (bool, bool))
    ensures
        r.0 == is_json_number(tok@),
        r.1 == is_int_token(tok@),
{
    let n = tok.unicode_len();
    let i0: usize = if n > 0 && tok.get_char(0) == '-' {
        1
    } else {
        0
    };
    if i0 >= n {
        return (false, false);
    }
    let c0 = tok.get_char(i0);
    if !is_digit_x(c0) {
        return (false, false);
    }
    let i1: usize = if c0 == '0' {
        i0 + 1
    } else {
        digits_to(tok, i0)
    };
    proof {
        assert(i1 as int == int_part_end(tok@, i0 as int));
    }
    let is_int = i1 == n;
    let i2: usize;
    if i1 < n && tok.get_char(i1) == '.' {
        if i1 + 1 < n && is_digit_x(tok.get_char(i1 + 1)) {
            i2 = digits_to(tok, i1 + 1);
        } else {
            return (false, is_int);
        }
    } else {
        i2 = i1;
    }
    if i2 < n && (tok.get_char(i2) == 'e' || tok.get_char(i2) == 'E') {
        let jj: usize = if i2 + 1 < n && (tok.get_char(i2 + 1) == '+' || tok.get_char(
            i2 + 1,
        ) == '-') {
            i2 + 2
        } else {
            i2 + 1
        };
        if jj < n && is_digit_x(tok.get_char(jj)) {
            let i3 = digits_to(tok, jj);
            return (i3 == n, is_int);
        } else {
            return (false, is_int);
        }
    }
    (i2 == n, is_int)
}

/// The exact signed value of an integer-shaped token, when it fits the
/// 32-bit width.
fn int_token_value(tok: &str) -> (r: Option<i32>)
    requires
        is_int_token(tok@),
    ensures
        match r {
            Some(v) => -0x8000_0000 <= int_value(tok@) <= 0x7fff_ffff && v as int
                == int_value(tok@),
            None => !(-0x8000_0000 <= int_value(tok@) <= 0x7fff_ffff),
        },
{
    let n = tok.unicode_len();
    proof {
        assert(int_part_end(tok@, if tok@.len() > 0 && tok@[0] == '-' { 1int } else { 0int })
            == n as int);
        assert(n >= 1);
    }
    let neg = tok.get_char(0) == '-';
    let d0: usize = if neg {
        1
    } else {
        0
    };
    let ghost digits = tok@.subrange(d0 as int, n as int);
    proof {
        assert(d0 < n);
        if tok@[d0 as int] == '0' {
            assert(int_part_end(tok@, d0 as int) == d0 + 1);
        } else {
            lemma_span_digits(tok@, d0 as int);
        }
        assert(forall|k: int| 0 <= k < digits.len() ==> digits[k] == tok@[k + d0]);
        assert(forall|k: int| 0 <= k < digits.len() ==> is_digit(digits[k]));
        if neg {
            assert(digits =~= tok@.subrange(1, tok@.len() as int));
            assert(int_value(tok@) == -digits_val(digits));
        } else {
            assert(digits =~= tok@);
            assert(int_value(tok@) == digits_val(digits));
        }
    }
    let ndig = n - d0;
    if ndig > 10 {
        proof {
            assert(ndig >= 2);
            assert(tok@[d0 as int] != '0');
            assert(digit_val(digits[0]) >= 1);
            lemma_digits_val_lower(digits);
            lemma_pow10_mono(10, (digits.len() - 1) as nat);
            lemma_pow10_10();
            assert(digits_val(digits) >= 10_000_000_000);
        }
        return None;
    }
    let mut acc: u64 = 0;
    let mut k: usize = d0;
    while k < n
        invariant
            d0 <= k <= n,
            n == tok@.len(),
            n - d0 <= 10,
            digits == tok@.subrange(d0 as int, n as int),
            forall|q: int| 0 <= q < digits.len() ==> is_digit(digits[q]),
            acc as int == digits_val(tok@.subrange(d0 as int, k as int)),
            acc < 10_000_000_000,
        decreases n - k,
    {
        let c = tok.get_char(k);
        proof {
            assert(digits[k - d0 as int] == tok@[k as int]);
            assert(is_digit(tok@[k as int]));
            let pre = tok@.subrange(d0 as int, k as int);
            lemma_digits_val_bounds(pre);
            lemma_pow10_mono(pre.len() as nat, 9);
            lemma_pow10_10();
            assert(pow10(9) == 1_000_000_000) by {
                lemma_pow10_10();
            }
            assert(acc < 1_000_000_000);
        }
        let d: u32 = (c as u32) - 48;
        acc = acc * 10 + (d as u64);
        proof {
            let pre = tok@.subrange(d0 as int, k as int);
            let pre2 = tok@.subrange(d0 as int, k + 1 as int);
            assert(pre2 =~= pre.push(tok@[k as int]));
            assert(pre2.drop_last() =~= pre);
            assert(pre2.last() == tok@[k as int]);
            assert(digits_val(pre2) == digits_val(pre) * 10 + digit_val(tok@[k as int]));
            assert(d as int == digit_val(tok@[k as int]));
        }
        k += 1;
    }
    proof {
        assert(tok@.subrange(d0 as int, n as int) =~= digits);
    }
    if neg {
        if acc <= 2_147_483_648 {
            Some((-(acc as i64)) as i32)
        } else {
            None
        }
    } else {
        if acc <= 2_147_483_647 {
            Some(acc as i32)
        } else {
            None
        }
    }
}


/// The body of a string literal, from right after the opening quote to
/// its closing quote.
fn parse_string_body(s: &str, i: usize) -> (r: Option<(String, usize)>)
    requires
        i <= s@.len(),
    ensures
        match r {
            Some(p) => p_string_body(s@, i as int, Seq::empty()) == Some(
                (p.0@, p.1 as int),
            ) && i < p.1 <= s@.len(),
            None => p_string_body(s@, i as int, Seq::empty()) is None,
        },
{
    let n = s.unicode_len();
    let mut acc: Vec<char> = Vec::new();
    let mut cur: usize = i;
    loop
        invariant
            i <= cur <= n,
            n == s@.len(),
            p_string_body(s@, i as int, Seq::empty()) == p_string_body(
                s@, cur as int, acc@),
        decreases n - cur,
    {
        if cur == n {
            return None;
        }
        let c = s.get_char(cur);
        if c == '"' {
            let out = chars_to_string(&acc);
            return Some((out, cur + 1));
        } else if c == '\\' {
            if cur + 1 >= n {
                return None;
            }
            let e = s.get_char(cur + 1);
            if e == '"' || e == '\\' || e == '/' {
                acc.push(e);
                cur = cur + 2;
            } else if e == 'b' {
                proof {
                    lemma_char_of('\u{0008}');
                }
                acc.push('\u{0008}');
                cur = cur + 2;
            } else if e == 'f' {
                proof {
                    lemma_char_of('\u{000C}');
                }
                acc.push('\u{000C}');
                cur = cur + 2;
            } else if e == 'n' {
                proof {
                    lemma_char_of('\n');
                }
                acc.push('\n');
                cur = cur + 2;
            } else if e == 'r' {
                proof {
                    lemma_char_of('\r');
                }
                acc.push('\r');
                cur = cur + 2;
            } else if e == 't' {
                proof {
                    lemma_char_of('\t');
                }
                acc.push('\t');
                cur = cur + 2;
            } else if e == 'u' {
                if n - cur < 6 {
                    return None;
                }
                let h1 = hex_val_x(s.get_char(cur + 2));
                let h2 = hex_val_x(s.get_char(cur + 3));
                let h3 = hex_val_x(s.get_char(cur + 4));
                let h4 = hex_val_x(s.get_char(cur + 5));
                if !(h1.0 && h2.0 && h3.0 && h4.0) {
                    return None;
                }
                let h: u32 = h1.1 * 4096 + h2.1 * 256 + h3.1 * 16 + h4.1;
                if 0xD800 <= h && h < 0xDC00 {
                    if n - cur < 12 {
                        return None;
                    }
                    if !(s.get_char(cur + 6) == '\\' && s.get_char(cur + 7) == 'u') {
                        return None;
                    }
                    let l1 = hex_val_x(s.get_char(cur + 8));
                    let l2 = hex_val_x(s.get_char(cur + 9));
                    let l3 = hex_val_x(s.get_char(cur + 10));
                    let l4 = hex_val_x(s.get_char(cur + 11));
                    if !(l1.0 && l2.0 && l3.0 && l4.0) {
                        return None;
                    }
                    let l: u32 = l1.1 * 4096 + l2.1 * 256 + l3.1 * 16 + l4.1;
                    if !(0xDC00 <= l && l < 0xE000) {
                        return None;
                    }
                    let code: u32 = 0x10000 + (h - 0xD800) * 0x400 + (l - 0xDC00);
                    match char_from_u32(code) {
                        Some(c2) => {
                            proof {
                                lemma_char_of(c2);
                                assert(char_of(code as int) == c2);
                            }
                            acc.push(c2);
                            cur = cur + 12;
                        },
                        None => {
                            proof {
                                assert(false);
                            }
                            return None;
                        },
                    }
                } else if 0xDC00 <= h && h < 0xE000 {
                    return None;
                } else {
                    match char_from_u32(h) {
                        Some(c2) => {
                            proof {
                                lemma_char_of(c2);
                                assert(char_of(h as int) == c2);
                            }
                            acc.push(c2);
                            cur = cur + 6;
                        },
                        None => {
                            proof {
                                assert(false);
                            }
                            return None;
                        },
                    }
                }
            } else {
                return None;
            }
        } else if (c as u32) < 32 {
            return None;
        } else {
            acc.push(c);
            cur = cur + 1;
        }
    }
}

/// Insert or overwrite one member, keeping keys unique.
fn upsert_member(entries: &mut Vec<(String, Json)>, key: String, val: Json)
    ensures
        obj_view(final(entries)@) == obj_view(old(entries)@).insert(key@, val@),
        keys_unique(old(entries)@) ==> keys_unique(final(entries)@),
        (forall|q: int|
            0 <= q < old(entries)@.len() ==> old(entries)@[q].1.wf() && canonical(
                old(entries)@[q].1)) && val.wf() && canonical(val) ==> (forall|q: int|
            0 <= q < final(entries)@.len() ==> final(entries)@[q].1.wf() && canonical(
                final(entries)@[q].1)),
{
    let ghost m0 = entries@;
    let n = entries.len();
    let mut i: usize = n;
    while i > 0
        invariant
            i <= n,
            n == entries@.len(),
            entries@ == m0,
            m0 == old(entries)@,
            forall|j: int| i <= j < n ==> entries@[j].0@ != key@,
        decreases i,
    {
        i -= 1;
        if str_eq(entries[i].0.as_str(), key.as_str()) {
            let _ = entries.remove(i);
            entries.insert(i, (key, val));
            proof {
                assert(entries@ =~= m0.update(i as int, (key, val)));
                lemma_obj_view_update(m0, i as int, key, val);
                assert(keys_unique(m0) ==> keys_unique(entries@));
            }
            return;
        }
    }
    entries.push((key, val));
    proof {
        lemma_obj_view_push(m0, key, val);
        assert(keys_unique(m0) ==> keys_unique(entries@));
    }
}


/// One number starting at `i`, where a minus sign or digit stands.
fn parse_number_at(s: &str, i: usize) -> (r: Option<(Json, usize)>)
    requires
        i < s@.len(),
        s@[i as int] == '-' || is_digit(s@[i as int]),
    ensures
        match r {
            Some(p) => p_value(s@, i as int) == Some((p.0@, p.1 as int)) && i < p.1
                <= s@.len() && p.0.wf() && canonical(p.0),
            None => p_value(s@, i as int) is None,
        },
{
    let j = num_to(s, i);
    proof {
        lemma_span_num(s@, i as int);
        assert(is_num_char(s@[i as int]));
        assert(j > i);
    }
    let tok = s.substring_char(i, j);
    proof {
        assert(tok@ =~= s@.subrange(i as int, j as int));
    }
    let shape = check_number_token(tok);
    if !shape.0 {
        return None;
    }
    if shape.1 {
        match int_token_value(tok) {
            Some(v) => {
                proof {
                    assert(p_number(tok@, j as int) == Some(
                        (JsonView::Integer(v as int), j as int)));
                }
                return Some((Json::Integer(v), j));
            },
            None => {},
        }
    }
    let ftok: String = if shape.1 {
        let mut fv: Vec<char> = Vec::new();
        push_str_chars(tok, &mut fv);
        fv.push('.');
        fv.push('0');
        chars_to_string(&fv)
    } else {
        tok.to_owned()
    };
    proof {
        if shape.1 {
            lemma_int_token_shape(tok@);
            assert(ftok@ == tok@ + seq!['.', '0']);
        } else {
            lemma_number_shape(tok@);
        }
        assert(ftok@ == float_token_of(tok@));
    }
    match canonical_number(ftok.as_str()) {
        Some(c) => {
            proof {
                assert(p_number(tok@, j as int) == Some((JsonView::Float(c@), j as int)));
                if shape.1 {
                    assert(ftok@[tok@.len() as int] == '.');
                    assert(crate::grammar::has_float_shape(ftok@));
                }
                assert(crate::grammar::has_float_shape(c@));
                assert(crate::value::float_payload_ok(c@));
            }
            Some((Json::Float(c), j))
        },
        None => None,
    }
}

/// One value starting exactly at `i`, by shape-directed dispatch on the
/// first character.
fn parse_value(s: &str, i: usize) -> (r: Option<(Json, usize)>)
    requires
        i <= s@.len(),
    ensures
        match r {
            Some(p) => p_value(s@, i as int) == Some((p.0@, p.1 as int)) && i < p.1
                <= s@.len() && p.0.wf() && canonical(p.0),
            None => p_value(s@, i as int) is None,
        },
    decreases s@.len() - i,
{
    let n = s.unicode_len();
    if i == n {
        return None;
    }
    let c = s.get_char(i);
    if c == '"' {
        match parse_string_body(s, i + 1) {
            Some(p) => Some((Json::Text(p.0), p.1)),
            None => None,
        }
    } else if c == 't' {
        if n - i >= 4 && s.get_char(i + 1) == 'r' && s.get_char(i + 2) == 'u'
            && s.get_char(i + 3) == 'e' {
            Some((Json::Boolean(true), i + 4))
        } else {
            None
        }
    } else if c == 'f' {
        if n - i >= 5 && s.get_char(i + 1) == 'a' && s.get_char(i + 2) == 'l'
            && s.get_char(i + 3) == 's' && s.get_char(i + 4) == 'e' {
            Some((Json::Boolean(false), i + 5))
        } else {
            None
        }
    } else if c == 'n' {
        if n - i >= 4 && s.get_char(i + 1) == 'u' && s.get_char(i + 2) == 'l'
            && s.get_char(i + 3) == 'l' {
            Some((Json::Null, i + 4))
        } else {
            None
        }
    } else if c == '[' {
        let j = ws_to(s, i + 1);
        if j < n && s.get_char(j) == ']' {
            proof {
                assert(arr_view(Seq::<Json>::empty()) =~= Seq::<JsonView>::empty());
            }
            return Some((Json::Array(Vec::new()), j + 1));
        }
        proof {
            assert(p_value(s@, i as int) == p_elems(s@, (i + 1) as int,
                Seq::<JsonView>::empty()));
        }
        let mut items: Vec<Json> = Vec::new();
        let mut cur: usize = i + 1;
        loop
            invariant
                i + 1 <= cur <= n,
                n == s@.len(),
                p_value(s@, i as int) == p_elems(s@, cur as int, arr_view(items@)),
                forall|q: int| 0 <= q < items@.len() ==> items@[q].wf() && canonical(
                    items@[q]),
            decreases n - cur,
        {
            let j2 = ws_to(s, cur);
            match parse_value(s, j2) {
                None => {
                    return None;
                },
                Some(p) => {
                    let (v, k) = p;
                    let k2 = ws_to(s, k);
                    let ghost acc0 = arr_view(items@);
                    let ghost items0 = items@;
                    if k2 < n && s.get_char(k2) == ',' {
                        items.push(v);
                        proof {
                            assert(items@.drop_last() =~= items0);
                            assert(items@.last() == v);
                            assert(arr_view(items@) == acc0.push(v@));
                        }
                        cur = k2 + 1;
                    } else if k2 < n && s.get_char(k2) == ']' {
                        items.push(v);
                        proof {
                            assert(items@.drop_last() =~= items0);
                            assert(items@.last() == v);
                            assert(arr_view(items@) == acc0.push(v@));
                            lemma_wf_list(items@);
                            lemma_canon_list(items@);
                        }
                        return Some((Json::Array(items), k2 + 1));
                    } else {
                        return None;
                    }
                },
            }
        }
    } else if c == '{' {
        let j = ws_to(s, i + 1);
        if j < n && s.get_char(j) == '}' {
            proof {
                assert(obj_view(Seq::<(String, Json)>::empty()) =~= Map::<
                    Seq<char>, JsonView>::empty());
            }
            return Some((Json::Object(Vec::new()), j + 1));
        }
        proof {
            assert(p_value(s@, i as int) == p_members(s@, (i + 1) as int, Map::<
                Seq<char>, JsonView>::empty()));
        }
        let mut entries: Vec<(String, Json)> = Vec::new();
        let mut cur: usize = i + 1;
        loop
            invariant
                i + 1 <= cur <= n,
                n == s@.len(),
                p_value(s@, i as int) == p_members(s@, cur as int, obj_view(entries@)),
                keys_unique(entries@),
                forall|q: int| 0 <= q < entries@.len() ==> entries@[q].1.wf() && canonical(
                    entries@[q].1),
            decreases n - cur,
        {
            let j2 = ws_to(s, cur);
            if !(j2 < n && s.get_char(j2) == '"') {
                return None;
            }
            match parse_string_body(s, j2 + 1) {
                None => {
                    return None;
                },
                Some(kp) => {
                    let (key, k) = kp;
                    let k2 = ws_to(s, k);
                    if !(k2 < n && s.get_char(k2) == ':') {
                        return None;
                    }
                    let vv = ws_to(s, k2 + 1);
                    match parse_value(s, vv) {
                        None => {
                            return None;
                        },
                        Some(p) => {
                            let (v, k3) = p;
                            let k4 = ws_to(s, k3);
                            let ghost acc0 = obj_view(entries@);
                            if k4 < n && s.get_char(k4) == ',' {
                                upsert_member(&mut entries, key, v);
                                cur = k4 + 1;
                            } else if k4 < n && s.get_char(k4) == '}' {
                                upsert_member(&mut entries, key, v);
                                proof {
                                    lemma_wf_members(entries@);
                                    lemma_canon_members(entries@);
                                }
                                return Some((Json::Object(entries), k4 + 1));
                            } else {
                                return None;
                            }
                        },
                    }
                },
            }
        }
    } else if c == '-' || is_digit_x(c) {
        parse_number_at(s, i)
    } else {
        None
    }
}

impl Json {
    /// Parse one value from text of the wire grammar: optional whitespace,
    /// one value, optional whitespace, and nothing else. Any other text is
    /// answered with `MalformedInput` and no partial value.
    pub fn from_str(x: &str) -> (r: Result<Json, JsonError>)
        ensures
            r matches Ok(v) ==> parse_spec(x@) == Some(v@) && v.wf() && canonical(v),
            r matches Err(e) ==> parse_spec(x@) is None && e == JsonError::MalformedInput,
    {
        let n = x.unicode_len();
        let i = ws_to(x, 0);
        match parse_value(x, i) {
            None => Err(JsonError::MalformedInput),
            Some(p) => {
                let k = ws_to(x, p.1);
                if k == n {
                    Ok(p.0)
                } else {
                    Err(JsonError::MalformedInput)
                }
            },
        }
    }
}

} // verus!
