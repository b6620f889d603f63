//! The codec's round-trip laws: parsing the serialized text of any
//! well-formed, canonical value reproduces the value, and re-serializing
//! a parsed value gives text with the same parse.
use vstd::prelude::*;

use crate::codec::{
    canonical, char_code, char_of, esc_char, esc_str, float_token_of, hex_val, hexdig,
    is_hex, lemma_canon_list, lemma_canon_members, lemma_char_of, num_canon, p_elems,
    p_members, p_number, p_string_body, p_value, parse_spec, ser, ser_items, ser_members,
    skip_ws, span_num,
};
use crate::grammar::{
    dec_digits, digit_char, digit_val, digits_val, has_float_shape, int_part_end,
    int_text, int_value, is_digit, is_int_token, is_json_number, is_num_char, is_ws,
    lemma_int_token_shape, lemma_number_chars, lemma_span_digits, span_digits,
};
use crate::value::{
    arr_view, float_payload_ok, lemma_arr_view, lemma_wf_list, lemma_wf_members,
    obj_view, Json, JsonView,
};

verus! {

proof fn lemma_digit_char(d: nat)
    requires
        d < 10,
    ensures
        is_digit(digit_char(d)),
        digit_val(digit_char(d)) == d,
        is_num_char(digit_char(d)),
{
}

proof fn lemma_dec_digits(m: nat)
    ensures
        dec_digits(m).len() >= 1,
        forall|i: int| 0 <= i < dec_digits(m).len() ==> is_digit(#[trigger] dec_digits(m)[i]),
        digits_val(dec_digits(m)) == m,
        m >= 1 ==> digit_val(dec_digits(m)[0]) >= 1,
    decreases m,
{
    lemma_digit_char((m % 10) as nat);
    if m < 10 {
        assert(dec_digits(m) == seq![digit_char((m % 10) as nat)]);
        assert(digits_val(dec_digits(m)) == digits_val(
            dec_digits(m).drop_last()) * 10 + digit_val(dec_digits(m).last()));
        assert(dec_digits(m).drop_last() =~= Seq::<char>::empty());
    } else {
        lemma_dec_digits((m / 10) as nat);
        let d = dec_digits((m / 10) as nat);
        let w = dec_digits(m);
        assert(w == d.push(digit_char((m % 10) as nat)));
        assert(w.drop_last() =~= d);
        assert(digits_val(w) == digits_val(d) * 10 + digit_val(w.last()));
        assert(w[0] == d[0]);
    }
}

/// The decimal text of a 32-bit value is a valid integer-shaped number
/// token with that exact value.
proof fn lemma_int_text(v: int)
    ensures
        int_text(v).len() >= 1,
        is_int_token(int_text(v)),
        is_json_number(int_text(v)),
        int_value(int_text(v)) == v,
        forall|i: int| 0 <= i < int_text(v).len() ==> is_num_char(#[trigger] int_text(v)[i]),
        int_text(v)[0] == '-' || is_digit(int_text(v)[0]),
{
    let s = int_text(v);
    if v < 0 {
        let d = dec_digits((-v) as nat);
        lemma_dec_digits((-v) as nat);
        assert(s == seq!['-'] + d);
        assert(s[0] == '-');
        assert(forall|i: int| 1 <= i < s.len() ==> s[i] == d[i - 1]);
        assert(forall|i: int| 1 <= i < s.len() ==> is_digit(s[i]));
        assert(digit_val(d[0]) >= 1);
        assert(s[1] != '0');
        lemma_span_digits(s, 1);
        if span_digits(s, 1) < s.len() {
            assert(!is_digit(s[span_digits(s, 1)]));
            assert(false);
        }
        assert(int_part_end(s, 1) == s.len());
        assert(is_int_token(s));
        assert(s.subrange(1, s.len() as int) =~= d);
        assert(int_value(s) == -digits_val(d));
    } else {
        let d = dec_digits(v as nat);
        lemma_dec_digits(v as nat);
        assert(s == d);
        assert(forall|i: int| 0 <= i < s.len() ==> is_digit(s[i]));
        if s[0] == '0' {
            assert(digit_val(s[0]) == 0);
            assert(v == 0 ==> s.len() == 1);
            if v >= 1 {
                assert(digit_val(d[0]) >= 1);
                assert(false);
            }
            assert(int_part_end(s, 0) == 1);
        } else {
            lemma_span_digits(s, 0);
            if span_digits(s, 0) < s.len() {
                assert(false);
            }
        }
        assert(int_part_end(s, 0) == s.len());
        assert(is_int_token(s));
    }
    assert(crate::grammar::frac_end(s, s.len() as int) == s.len());
    assert(crate::grammar::exp_end(s, s.len() as int) == s.len());
}

/// A run of number characters followed by a boundary spans exactly to the
/// boundary.
proof fn lemma_span_num_seg(t: Seq<char>, i: int, m: int)
    requires
        0 <= i,
        0 <= m,
        i + m <= t.len(),
        forall|k: int| i <= k < i + m ==> is_num_char(t[k]),
        i + m == t.len() || !is_num_char(t[i + m]),
    ensures
        span_num(t, i) == i + m,
    decreases m,
{
    if m > 0 {
        lemma_span_num_seg(t, i + 1, m - 1);
    }
}


/// Pointwise reading of one segment of the text.
proof fn lemma_seg(t: Seq<char>, i: int, w: Seq<char>)
    requires
        0 <= i,
        i + w.len() <= t.len(),
        t.subrange(i, i + w.len() as int) == w,
    ensures
        forall|q: int| 0 <= q < w.len() ==> t[i + q] == w[q],
{
    assert forall|q: int| 0 <= q < w.len() implies t[i + q] == w[q] by {
        assert(t.subrange(i, i + w.len() as int)[q] == w[q]);
    }
}

/// A part of a segment is itself a segment.
proof fn lemma_subseg(t: Seq<char>, i: int, w: Seq<char>, a: int, b: int)
    requires
        0 <= i,
        i + w.len() <= t.len(),
        t.subrange(i, i + w.len() as int) == w,
        0 <= a <= b <= w.len(),
    ensures
        t.subrange(i + a, i + b) == w.subrange(a, b),
{
    lemma_seg(t, i, w);
    assert forall|q: int| 0 <= q < b - a implies t.subrange(i + a, i + b)[q]
        == w.subrange(a, b)[q] by {
        assert(t[i + (a + q)] == w[a + q]);
    }
    assert(t.subrange(i + a, i + b) =~= w.subrange(a, b));
}

proof fn lemma_hexdig(d: int)
    requires
        0 <= d < 16,
    ensures
        is_hex(hexdig(d)),
        hex_val(hexdig(d)) == d,
        hexdig(d) != '"',
        hexdig(d) != '\\',
        (hexdig(d) as int) >= 32,
{
}

/// Left unfolding of string escaping.
proof fn lemma_esc_str_first(s: Seq<char>)
    requires
        s.len() >= 1,
    ensures
        esc_str(s) == esc_char(s[0]) + esc_str(s.drop_first()),
    decreases s,
{
    if s.len() == 1 {
        assert(s.drop_last() =~= Seq::<char>::empty());
        assert(s.drop_first() =~= Seq::<char>::empty());
        assert(esc_str(s) =~= esc_char(s[0]) + esc_str(s.drop_first()));
    } else {
        let dl = s.drop_last();
        lemma_esc_str_first(dl);
        assert(dl[0] == s[0]);
        assert(s.drop_first().drop_last() =~= dl.drop_first());
        assert(esc_str(s.drop_first()) == esc_str(s.drop_first().drop_last()) + esc_char(
            s.drop_first().last()));
        assert(s.drop_first().last() == s.last());
        assert(esc_str(s) == esc_str(dl) + esc_char(s.last()));
        assert(esc_str(s) =~= esc_char(s[0]) + esc_str(s.drop_first()));
    }
}

/// Parsing an escaped string body: the escaped text of `s0` followed by a
/// closing quote unescapes back to `s0`.
#[verifier::rlimit(100)]
proof fn lemma_esc_parse(t: Seq<char>, i: int, s0: Seq<char>, acc: Seq<char>)
    requires
        0 <= i,
        i + esc_str(s0).len() + 1 <= t.len(),
        t.subrange(i, i + esc_str(s0).len()) == esc_str(s0),
        t[i + esc_str(s0).len()] == '"',
    ensures
        p_string_body(t, i, acc) == Some::<(Seq<char>, int)>(
            (acc + s0, i + esc_str(s0).len() + 1),
        ),
    decreases s0.len(),
{
    if s0.len() == 0 {
        assert(esc_str(s0).len() == 0);
        assert(t[i] == '"');
        assert(acc + s0 =~= acc);
    } else {
        let c = s0[0];
        let e = esc_char(c);
        let rest = s0.drop_first();
        lemma_esc_str_first(s0);
        let whole = esc_str(s0);
        let ll = whole.len() as int;
        assert(whole == e + esc_str(rest));
        assert(e.len() >= 1);
        lemma_seg(t, i, whole);
        assert forall|k: int| 0 <= k < e.len() implies t[i + k] == e[k] by {
            assert((e + esc_str(rest))[k] == e[k]);
            assert(t[i + k] == whole[k]);
        }
        let i2 = i + e.len();
        assert(whole.subrange(e.len() as int, ll) =~= esc_str(rest)) by {
            assert forall|k: int| 0 <= k < esc_str(rest).len() implies whole.subrange(
                e.len() as int, ll)[k] == esc_str(rest)[k] by {
                assert((e + esc_str(rest))[e.len() + k] == esc_str(rest)[k]);
            }
        }
        lemma_subseg(t, i, whole, e.len() as int, ll);
        assert(t.subrange(i2, i2 + esc_str(rest).len() as int) == esc_str(rest));
        assert(t[i2 + esc_str(rest).len()] == '"');
        if c == '"' {
            assert(e == seq!['\\', '"']);
            assert(t[i] == '\\' && t[i + 1] == '"');
            lemma_esc_parse(t, i + 2, rest, acc.push('"'));
            assert(acc.push(c) + rest =~= acc + s0);
        } else if c == '\\' {
            assert(e == seq!['\\', '\\']);
            assert(t[i] == '\\' && t[i + 1] == '\\');
            lemma_esc_parse(t, i + 2, rest, acc.push('\\'));
            assert(acc.push(c) + rest =~= acc + s0);
        } else if (c as u32) < 32 {
            assert(e == seq!['\\', 'u', '0', '0', hexdig((c as u32 / 16) as int),
                hexdig((c as u32 % 16) as int)]);
            assert(t[i] == '\\' && t[i + 1] == 'u');
            assert(t[i + 2] == '0' && t[i + 3] == '0');
            assert(t[i + 4] == hexdig((c as u32 / 16) as int));
            assert(t[i + 5] == hexdig((c as u32 % 16) as int));
            assert(hex_val('0') == 0);
            lemma_hexdig((c as u32 / 16) as int);
            lemma_hexdig((c as u32 % 16) as int);
            let h = hex_val(t[i + 2]) * 4096 + hex_val(t[i + 3]) * 256 + hex_val(
                t[i + 4]) * 16 + hex_val(t[i + 5]);
            assert(h == (c as u32) as int);
            assert(0 <= h < 32);
            lemma_char_of(c);
            assert(char_code(c) == h);
            assert(char_of(h) == c);
            lemma_esc_parse(t, i + 6, rest, acc.push(c));
            assert(acc.push(c) + rest =~= acc + s0);
        } else {
            assert(e == seq![c]);
            assert(t[i + 0] == e[0]);
            assert(t[i] == c);
            assert(c != '"' && c != '\\' && (c as u32) >= 32);
            lemma_esc_parse(t, i + 1, rest, acc.push(c));
            assert(acc.push(c) + rest =~= acc + s0);
        }
    }
}

/// The serialized text of a well-formed value is nonempty and starts with
/// a character that is no whitespace and no closing mark.
proof fn lemma_ser_first(v: Json)
    requires
        v.wf(),
    ensures
        ser(v).len() >= 1,
        !is_ws(ser(v)[0]),
        ser(v)[0] != ']',
        ser(v)[0] != '}',
        ser(v)[0] != ',',
        ser(v)[0] != ':',
{
    match v {
        Json::Integer(x) => {
            lemma_int_text(x as int);
        },
        Json::Float(p) => {
            assert(is_json_number(p@));
            if p@[0] != '-' {
                assert(int_part_end(p@, 0) >= 0);
                assert(is_digit(p@[0]));
            }
        },
        _ => {},
    }
}

/// Inserting the members from position `k` on, in order, onto `acc`.
pub open spec fn obj_from(
    acc: Map<Seq<char>, JsonView>,
    s: Seq<(String, Json)>,
    k: int,
) -> Map<Seq<char>, JsonView>
    decreases s.len() - k when k >= 0
{
    if k < 0 || k >= s.len() {
        acc
    } else {
        obj_from(acc.insert(s[k].0@, s[k].1@), s, k + 1)
    }
}

proof fn lemma_obj_from_push(
    acc: Map<Seq<char>, JsonView>,
    s: Seq<(String, Json)>,
    k: int,
)
    requires
        0 <= k <= s.len() - 1,
    ensures
        obj_from(acc, s, k) == obj_from(acc, s.drop_last(), k).insert(
            s.last().0@, s.last().1@),
    decreases s.len() - k,
{
    if k == s.len() - 1 {
        assert(obj_from(acc, s, k) == obj_from(acc.insert(s[k].0@, s[k].1@), s, k + 1));
    } else {
        assert(s.drop_last()[k] == s[k]);
        lemma_obj_from_push(acc.insert(s[k].0@, s[k].1@), s, k + 1);
    }
}

proof fn lemma_obj_from_view(s: Seq<(String, Json)>)
    ensures
        obj_from(Map::empty(), s, 0) == obj_view(s),
    decreases s,
{
    if s.len() > 0 {
        lemma_obj_from_view(s.drop_last());
        lemma_obj_from_push(Map::empty(), s, 0);
    }
}

/// The serialized text of a value parses back to exactly that value's
/// model, consuming exactly the serialized characters.
#[verifier::rlimit(100)]
proof fn lemma_value_round_trip(v: Json, t: Seq<char>, i: int)
    requires
        v.wf(),
        canonical(v),
        0 <= i,
        i + ser(v).len() <= t.len(),
        t.subrange(i, i + ser(v).len() as int) == ser(v),
        i + ser(v).len() == t.len() || !is_num_char(t[i + ser(v).len()]),
    ensures
        p_value(t, i) == Some::<(JsonView, int)>((v@, i + ser(v).len())),
    decreases v, 0int,
{
    let w = ser(v);
    lemma_seg(t, i, w);
    lemma_ser_first(v);
    match v {
        Json::Integer(x) => {
            lemma_int_text(x as int);
            assert forall|k: int| i <= k < i + w.len() implies is_num_char(t[k]) by {
                assert(t[i + (k - i)] == w[k - i]);
                assert(is_num_char(w[k - i]));
            }
            lemma_span_num_seg(t, i, w.len() as int);
            assert(t.subrange(i, i + w.len() as int) =~= w);
            assert(t[i] == w[0]);
            assert(p_number(w, i + w.len()) == Some::<(JsonView, int)>(
                (JsonView::Integer(x as int), i + w.len())));
        },
        Json::Float(p) => {
            assert(is_json_number(p@));
            lemma_number_chars(p@);
            assert forall|k: int| i <= k < i + w.len() implies is_num_char(t[k]) by {
                assert(t[i + (k - i)] == w[k - i]);
                assert(is_num_char(w[k - i]));
            }
            lemma_span_num_seg(t, i, w.len() as int);
            assert(t.subrange(i, i + w.len() as int) =~= p@);
            assert(t[i] == p@[0]);
            if p@[0] != '-' {
                assert(int_part_end(p@, 0) >= 0);
                assert(is_digit(p@[0]));
            }
            assert(float_payload_ok(p@));
            if is_int_token(p@) {
                lemma_int_token_shape(p@);
                assert(!has_float_shape(p@));
                assert(false);
            }
            assert(float_token_of(p@) == p@);
            assert(num_canon(p@) == Some(p@));
            assert(p_number(p@, i + w.len()) == Some::<(JsonView, int)>(
                (JsonView::Float(p@), i + w.len())));
        },
        Json::Text(s) => {
            let es = esc_str(s@);
            let el = es.len() as int;
            assert(w == seq!['"'] + es + seq!['"']);
            assert(t[i] == w[0]);
            assert(w[0] == '"');
            assert(w.subrange(1, 1 + el) =~= es) by {
                assert forall|q: int| 0 <= q < el implies w.subrange(1, 1 + el)[q]
                    == es[q] by {
                    assert(w[1 + q] == ((seq!['"'] + es) + seq!['"'])[1 + q]);
                }
            }
            lemma_subseg(t, i, w, 1, 1 + el);
            assert(t[i + 1 + el] == w[1 + el]);
            assert(w[1 + el] == '"');
            lemma_esc_parse(t, i + 1, s@, Seq::empty());
            assert(Seq::<char>::empty() + s@ =~= s@);
        },
        Json::Boolean(b) => {
            if b {
                assert(t[i] == 't' && t[i + 1] == 'r' && t[i + 2] == 'u' && t[i + 3]
                    == 'e');
            } else {
                assert(t[i] == 'f' && t[i + 1] == 'a' && t[i + 2] == 'l' && t[i + 3]
                    == 's' && t[i + 4] == 'e');
            }
        },
        Json::Null => {
            assert(t[i] == 'n' && t[i + 1] == 'u' && t[i + 2] == 'l' && t[i + 3] == 'l');
        },
        Json::Array(a) => {
            assert(t[i] == '[');
            let items = ser_items(a@, 0);
            let il = items.len() as int;
            assert(w == seq!['['] + items + seq![']']);
            assert(t[i + 1 + il] == w[1 + il]);
            assert(w[1 + il] == ']');
            if a@.len() == 0 {
                assert(items.len() == 0);
                assert(t[i + 1] == ']');
                assert(!is_ws(t[i + 1]));
                assert(skip_ws(t, i + 1) == i + 1);
                assert(arr_view(a@) =~= Seq::<JsonView>::empty());
            } else {
                lemma_wf_list(a@);
                lemma_canon_list(a@);
                assert(a@[0].wf());
                lemma_ser_first(a@[0]);
                assert(items == ser(a@[0]) + (if 1 < a@.len() { seq![','] + ser_items(
                    a@, 1) } else { Seq::<char>::empty() }));
                assert(items[0] == ser(a@[0])[0]);
                assert(w.subrange(1, 1 + il) =~= items) by {
                    assert forall|q: int| 0 <= q < il implies w.subrange(1, 1 + il)[q]
                        == items[q] by {
                        assert(w[1 + q] == ((seq!['['] + items) + seq![']'])[1 + q]);
                    }
                }
                lemma_subseg(t, i, w, 1, 1 + il);
                assert(t[i + 1] == w[1]);
                assert(w[1] == items[0]);
                assert(!is_ws(t[i + 1]));
                assert(skip_ws(t, i + 1) == i + 1);
                assert(t[i + 1] != ']');
                lemma_elems_round(a@, 0, t, i + 1, Seq::empty());
                lemma_arr_view(a@);
                assert(arr_view(a@).subrange(0, a@.len() as int) =~= arr_view(a@));
                assert(Seq::<JsonView>::empty() + arr_view(a@) =~= arr_view(a@));
            }
        },
        Json::Object(m) => {
            assert(t[i] == '{');
            let items = ser_members(m@, 0);
            let il = items.len() as int;
            assert(w == seq!['{'] + items + seq!['}']);
            assert(t[i + 1 + il] == w[1 + il]);
            assert(w[1 + il] == '}');
            if m@.len() == 0 {
                assert(items.len() == 0);
                assert(t[i + 1] == '}');
                assert(!is_ws(t[i + 1]));
                assert(skip_ws(t, i + 1) == i + 1);
                assert(obj_view(m@) =~= Map::<Seq<char>, JsonView>::empty());
            } else {
                lemma_wf_members(m@);
                lemma_canon_members(m@);
                assert(items == (seq!['"'] + esc_str(m@[0].0@) + seq!['"', ':'] + ser(
                    m@[0].1)) + (if 1 < m@.len() { seq![','] + ser_members(m@, 1) } else {
                    Seq::<char>::empty() }));
                assert(items[0] == '"');
                assert(w.subrange(1, 1 + il) =~= items) by {
                    assert forall|q: int| 0 <= q < il implies w.subrange(1, 1 + il)[q]
                        == items[q] by {
                        assert(w[1 + q] == ((seq!['{'] + items) + seq!['}'])[1 + q]);
                    }
                }
                lemma_subseg(t, i, w, 1, 1 + il);
                assert(t[i + 1] == w[1]);
                assert(w[1] == items[0]);
                assert(!is_ws(t[i + 1]));
                assert(skip_ws(t, i + 1) == i + 1);
                assert(t[i + 1] != '}');
                lemma_members_round(m@, 0, t, i + 1, Map::empty());
                lemma_obj_from_view(m@);
            }
        },
    }
}

#[verifier::rlimit(100)]
proof fn lemma_elems_round(
    s: Seq<Json>,
    k: int,
    t: Seq<char>,
    i: int,
    acc: Seq<JsonView>,
)
    requires
        forall|q: int| 0 <= q < s.len() ==> (#[trigger] s[q]).wf() && canonical(s[q]),
        0 <= k < s.len(),
        0 <= i,
        i + ser_items(s, k).len() + 1 <= t.len(),
        t.subrange(i, i + ser_items(s, k).len()) == ser_items(s, k),
        t[i + ser_items(s, k).len()] == ']',
    ensures
        p_elems(t, i, acc) == Some::<(JsonView, int)>(
            (
                JsonView::Array(acc + arr_view(s).subrange(k, s.len() as int)),
                i + ser_items(s, k).len() + 1,
            ),
        ),
    decreases s, s.len() - k,
{
    let w = ser_items(s, k);
    let head = ser(s[k]);
    let hl = head.len() as int;
    let wl = w.len() as int;
    lemma_seg(t, i, w);
    assert(s[k].wf() && canonical(s[k]));
    lemma_ser_first(s[k]);
    lemma_arr_view(s);
    let e = i + hl;
    if k + 1 < s.len() {
        let rest = ser_items(s, k + 1);
        let rl = rest.len() as int;
        assert(w == head + seq![','] + rest);
        assert(w.subrange(0, hl) =~= head) by {
            assert forall|q: int| 0 <= q < hl implies w.subrange(0, hl)[q] == head[q] by {
                assert(w[q] == ((head + seq![',']) + rest)[q]);
                assert((head + seq![','])[q] == head[q]);
            }
        }
        lemma_subseg(t, i, w, 0, hl);
        assert(t[i] == w[0]);
        assert(w[0] == head[0]) by {
            assert((head + seq![','])[0] == head[0]);
        }
        assert(!is_ws(t[i]));
        assert(skip_ws(t, i) == i);
        assert(t[e] == w[hl]);
        assert(w[hl] == ',') by {
            assert((head + seq![','])[hl] == ',');
        }
        lemma_value_round_trip(s[k], t, i);
        assert(p_value(t, i) == Some::<(JsonView, int)>((s[k]@, e)));
        assert(!is_ws(t[e]));
        assert(skip_ws(t, e) == e);
        assert(w.subrange(hl + 1, wl) =~= rest) by {
            assert forall|q: int| 0 <= q < rl implies w.subrange(hl + 1, wl)[q]
                == rest[q] by {
                assert(w[hl + 1 + q] == ((head + seq![',']) + rest)[hl + 1 + q]);
            }
        }
        lemma_subseg(t, i, w, hl + 1, wl);
        assert(t.subrange(e + 1, e + 1 + rl) == rest);
        assert(t[e + 1 + rl] == ']');
        lemma_elems_round(s, k + 1, t, e + 1, acc.push(s[k]@));
        assert(acc.push(s[k]@) + arr_view(s).subrange(k + 1, s.len() as int) =~= acc
            + arr_view(s).subrange(k, s.len() as int));
    } else {
        assert(w == head);
        assert(t[i] == w[0]);
        assert(!is_ws(t[i]));
        assert(skip_ws(t, i) == i);
        assert(t[e] == ']');
        lemma_value_round_trip(s[k], t, i);
        assert(p_value(t, i) == Some::<(JsonView, int)>((s[k]@, e)));
        assert(!is_ws(t[e]));
        assert(skip_ws(t, e) == e);
        assert(acc.push(s[k]@) =~= acc + arr_view(s).subrange(k, s.len() as int));
    }
}

#[verifier::rlimit(100)]
proof fn lemma_members_round(
    s: Seq<(String, Json)>,
    k: int,
    t: Seq<char>,
    i: int,
    acc: Map<Seq<char>, JsonView>,
)
    requires
        forall|q: int| 0 <= q < s.len() ==> (#[trigger] s[q].1).wf() && canonical(s[q].1),
        0 <= k < s.len(),
        0 <= i,
        i + ser_members(s, k).len() + 1 <= t.len(),
        t.subrange(i, i + ser_members(s, k).len()) == ser_members(s, k),
        t[i + ser_members(s, k).len()] == '}',
    ensures
        p_members(t, i, acc) == Some::<(JsonView, int)>(
            (
                JsonView::Object(obj_from(acc, s, k)),
                i + ser_members(s, k).len() + 1,
            ),
        ),
    decreases s, s.len() - k,
{
    let w = ser_members(s, k);
    let key = s[k].0;
    let ek = esc_str(key@);
    let ekl = ek.len() as int;
    let vw = ser(s[k].1);
    let vl = vw.len() as int;
    let head2 = seq!['"'] + ek;
    let head3 = head2 + seq!['"', ':'];
    let head = head3 + vw;
    let hl = head.len() as int;
    let wl = w.len() as int;
    assert(hl == 3 + ekl + vl);
    lemma_seg(t, i, w);
    assert(s[k].1.wf() && canonical(s[k].1));
    lemma_ser_first(s[k].1);
    let e = i + hl;
    assert(w == head + (if k + 1 < s.len() { seq![','] + ser_members(s, k + 1) } else {
        Seq::<char>::empty() }));
    assert forall|q: int| 0 <= q < hl implies w[q] == head[q] by {
        if k + 1 < s.len() {
            assert(w[q] == ((head + seq![',']) + ser_members(s, k + 1))[q]);
            assert((head + seq![','])[q] == head[q]);
        }
    }
    assert(head[0] == '"') by {
        assert(head2[0] == '"');
        assert(head3[0] == head2[0]);
        assert(head[0] == head3[0]);
    }
    assert(t[i] == w[0]);
    assert(!is_ws(t[i]));
    assert(skip_ws(t, i) == i);
    // the key string segment
    assert forall|q: int| 0 <= q < ekl implies head[1 + q] == ek[q] by {
        assert(head2[1 + q] == ek[q]);
        assert(head3[1 + q] == head2[1 + q]);
        assert(head[1 + q] == head3[1 + q]);
    }
    assert(w.subrange(1, 1 + ekl) =~= ek) by {
        assert forall|q: int| 0 <= q < ekl implies w.subrange(1, 1 + ekl)[q] == ek[q] by {
            assert(w[1 + q] == head[1 + q]);
        }
    }
    lemma_subseg(t, i, w, 1, 1 + ekl);
    assert(head[1 + ekl] == '"') by {
        assert(head3[1 + ekl] == '"');
    }
    assert(head[2 + ekl] == ':') by {
        assert(head3[2 + ekl] == ':');
    }
    assert(t[i + 1 + ekl] == w[1 + ekl]);
    assert(t[i + 1 + ekl] == '"');
    lemma_esc_parse(t, i + 1, key@, Seq::empty());
    assert(Seq::<char>::empty() + key@ =~= key@);
    let kq = i + 2 + ekl;
    assert(p_string_body(t, i + 1, Seq::empty()) == Some::<(Seq<char>, int)>(
        (key@, kq)));
    assert(t[kq] == w[2 + ekl]);
    assert(t[kq] == ':');
    assert(!is_ws(t[kq]));
    assert(skip_ws(t, kq) == kq);
    // the value segment
    let vi = kq + 1;
    assert(head[3 + ekl + 0] == vw[0]) by {
        assert(head[head3.len() as int + 0] == vw[0]);
    }
    assert(t[vi] == w[3 + ekl]);
    assert(t[vi] == vw[0]);
    assert(!is_ws(t[vi]));
    assert(skip_ws(t, vi) == vi);
    assert forall|q: int| 0 <= q < vl implies head[3 + ekl + q] == vw[q] by {
        assert(head[head3.len() + q] == vw[q]);
    }
    assert(w.subrange(3 + ekl, 3 + ekl + vl) =~= vw) by {
        assert forall|q: int| 0 <= q < vl implies w.subrange(3 + ekl, 3 + ekl + vl)[q]
            == vw[q] by {
            assert(w[3 + ekl + q] == head[3 + ekl + q]);
        }
    }
    lemma_subseg(t, i, w, 3 + ekl, 3 + ekl + vl);
    assert(t.subrange(vi, vi + vl) == vw);
    if k + 1 < s.len() {
        let rest = ser_members(s, k + 1);
        let rl = rest.len() as int;
        assert(w == (head + seq![',']) + rest);
        assert(t[e] == w[hl]);
        assert(w[hl] == ',') by {
            assert((head + seq![','])[hl] == ',');
        }
        lemma_value_round_trip(s[k].1, t, vi);
        assert(!is_ws(t[e]));
        assert(skip_ws(t, e) == e);
        assert(w.subrange(hl + 1, wl) =~= rest) by {
            assert forall|q: int| 0 <= q < rl implies w.subrange(hl + 1, wl)[q]
                == rest[q] by {
                assert(w[hl + 1 + q] == ((head + seq![',']) + rest)[hl + 1 + q]);
            }
        }
        lemma_subseg(t, i, w, hl + 1, wl);
        assert(t.subrange(e + 1, e + 1 + rl) == rest);
        assert(t[e + 1 + rl] == '}');
        lemma_members_round(s, k + 1, t, e + 1, acc.insert(key@, s[k].1@));
        assert(obj_from(acc.insert(key@, s[k].1@), s, k + 1) == obj_from(acc, s, k));
    } else {
        assert(w =~= head);
        assert(t[e] == '}');
        lemma_value_round_trip(s[k].1, t, vi);
        assert(!is_ws(t[e]));
        assert(skip_ws(t, e) == e);
        assert(obj_from(acc.insert(key@, s[k].1@), s, k + 1) == obj_from(acc, s, k));
    }
}

/// Round-trip law: for every well-formed value whose float payloads are
/// canonical, parsing the serialized text yields a structurally equal
/// value.
pub proof fn lemma_parse_serialize(v: Json)
    ensures
        v.wf() && canonical(v) ==> parse_spec(ser(v)) == Some(v@),
{
    if v.wf() && canonical(v) {
        let t = ser(v);
        lemma_ser_first(v);
        assert(!is_ws(t[0]));
        assert(skip_ws(t, 0) == 0);
        assert(t.subrange(0, t.len() as int) =~= t);
        lemma_value_round_trip(v, t, 0);
        assert(skip_ws(t, t.len() as int) == t.len());
    }
}

/// Re-parse law: when well-formed input text parses to a value, the
/// value's own serialized text parses to the same model, so serializing
/// and re-parsing loses nothing.
pub proof fn lemma_reparse(t: Seq<char>, v: Json)
    ensures
        v.wf() && canonical(v) && parse_spec(t) == Some(v@) ==> parse_spec(ser(v))
            == parse_spec(t),
{
    lemma_parse_serialize(v);
}


/// Serialization keeps the Float letter of the wire form: a well-formed
/// Float's text always carries a decimal point or an exponent marker, so
/// re-parsing it dispatches to Float, never to Integer.
pub proof fn lemma_float_text_shape(v: Json)
    ensures
        v.wf() && v is Float ==> has_float_shape(ser(v)),
{
}

} // verus!
