//! The value model: a closed tagged union for JSON-shaped data, with a
//! mathematical view, structural equality, navigation and scoped update.
//!
//! A `Float` payload is the number's canonical decimal text (the shortest
//! form that reads back as the same 64-bit float), because the verifier has
//! no model of floating-point values; the codec keeps payloads canonical.
use vstd::map::*;
use vstd::prelude::*;

use crate::grammar::{has_float_shape, is_json_number};

verus! {

/// One JSON-shaped value; exactly one variant is active at a time.
#[derive(Debug)]
pub enum Json {
    /// A number without fractional or exponent part that fits a signed
    /// 32-bit integer.
    Integer(i32),
    /// Any other number, held as its canonical decimal text, which always
    /// carries a decimal point or an exponent in a well-formed value.
    Float(String),
    Text(String),
    Boolean(bool),
    Array(Vec<Json>),
    /// Key-value members; member order is not significant for equality,
    /// and well-formed objects have pairwise distinct keys.
    Object(Vec<(String, Json)>),
    Null,
}

/// The mathematical model of a `Json` value: arrays become sequences and
/// objects become maps from key text to model values, so object equality
/// ignores member order while array equality keeps it.
pub enum JsonView {
    Integer(int),
    Float(Seq<char>),
    Text(Seq<char>),
    Boolean(bool),
    Array(Seq<JsonView>),
    Object(Map<Seq<char>, JsonView>),
    Null,
}

/// Navigation and conversion failures, kept apart so callers can tell an
/// expected miss from a hard failure.
#[derive(Debug, Clone, Copy, PartialEq, Eq, Structural)]
pub enum JsonError {
    /// The text is not a well-formed value of the wire grammar.
    MalformedInput,
    /// A value's shape does not match the target typed structure, or a
    /// typed structure cannot be rendered to text.
    ConversionError,
    /// Object lookup of an absent key, or lookup on a non-object.
    KeyNotFound,
    /// Array index beyond the bounds, or indexing a non-array.
    IndexOutOfRange,
}

/// The map modeled by object members, with a later member overwriting an
/// earlier one of the same key.
pub open spec fn obj_view(entries: Seq<(String, Json)>) -> Map<Seq<char>, JsonView>
    decreases entries,
{
    if entries.len() == 0 {
        Map::empty()
    } else {
        obj_view(entries.drop_last()).insert(entries.last().0@, entries.last().1@)
    }
}

/// The sequence modeled by array elements, in element order.
pub open spec fn arr_view(s: Seq<Json>) -> Seq<JsonView>
    decreases s,
{
    if s.len() == 0 {
        Seq::empty()
    } else {
        arr_view(s.drop_last()).push(s.last()@)
    }
}

impl View for Json {
    type V = JsonView;

    open spec fn view(&self) -> JsonView
        decreases self,
    {
        match self {
            Json::Integer(i) => JsonView::Integer(*i as int),
            Json::Float(p) => JsonView::Float(p@),
            Json::Text(s) => JsonView::Text(s@),
            Json::Boolean(b) => JsonView::Boolean(*b),
            Json::Array(a) => JsonView::Array(arr_view(a@)),
            Json::Object(m) => JsonView::Object(obj_view(m@)),
            Json::Null => JsonView::Null,
        }
    }
}

/// Pairwise distinct member keys.
pub open spec fn keys_unique(entries: Seq<(String, Json)>) -> bool {
    forall|i: int, j: int|
        0 <= i < j < entries.len() ==> entries[i].0@ != entries[j].0@
}

/// A float payload must be a number token that carries a decimal point or
/// an exponent marker, so the parser dispatches it back to the float
/// variant, never to Integer.
pub open spec fn float_payload_ok(p: Seq<char>) -> bool {
    is_json_number(p) && has_float_shape(p)
}

pub open spec fn wf_list(s: Seq<Json>) -> bool
    decreases s,
{
    s.len() == 0 || (wf_list(s.drop_last()) && s.last().wf())
}

pub open spec fn wf_members(s: Seq<(String, Json)>) -> bool
    decreases s,
{
    s.len() == 0 || (wf_members(s.drop_last()) && s.last().1.wf())
}

impl Json {
    /// Well-formedness: every float payload dispatches back to a float,
    /// and every object has pairwise distinct keys.
    pub open spec fn wf(self) -> bool
        decreases self,
    {
        match self {
            Json::Float(p) => float_payload_ok(p@),
            Json::Array(a) => wf_list(a@),
            Json::Object(m) => keys_unique(m@) && wf_members(m@),
            _ => true,
        }
    }
}

pub proof fn lemma_arr_view(s: Seq<Json>)
    ensures
        arr_view(s).len() == s.len(),
        forall|i: int| 0 <= i < s.len() ==> arr_view(s)[i] == s[i]@,
    decreases s,
{
    if s.len() > 0 {
        lemma_arr_view(s.drop_last());
        assert(arr_view(s) == arr_view(s.drop_last()).push(s.last()@));
        assert(arr_view(s.drop_last()).len() == s.drop_last().len());
        assert(s.drop_last().len() == s.len() - 1);
        assert(arr_view(s).len() == s.len());
        assert forall|i: int| 0 <= i < s.len() implies arr_view(s)[i] == s[i]@ by {
            if i < s.len() - 1 {
                assert(arr_view(s)[i] == arr_view(s.drop_last())[i]);
                assert(s.drop_last()[i] == s[i]);
            } else {
                assert(arr_view(s)[i] == s.last()@);
            }
        }
    }
}

pub proof fn lemma_wf_list(s: Seq<Json>)
    ensures
        wf_list(s) <==> (forall|i: int| 0 <= i < s.len() ==> s[i].wf()),
    decreases s,
{
    if s.len() > 0 {
        lemma_wf_list(s.drop_last());
        assert(forall|i: int| 0 <= i < s.len() - 1 ==> s.drop_last()[i] == s[i]);
        assert(s[s.len() - 1] == s.last());
        if wf_list(s) {
            assert forall|i: int| 0 <= i < s.len() implies s[i].wf() by {
                if i < s.len() - 1 {
                    assert(s.drop_last()[i].wf());
                }
            }
        }
        if forall|i: int| 0 <= i < s.len() ==> s[i].wf() {
            assert(forall|i: int| 0 <= i < s.len() - 1 ==> s.drop_last()[i].wf());
        }
    }
}

pub proof fn lemma_wf_members(s: Seq<(String, Json)>)
    ensures
        wf_members(s) <==> (forall|i: int| 0 <= i < s.len() ==> s[i].1.wf()),
    decreases s,
{
    if s.len() > 0 {
        lemma_wf_members(s.drop_last());
        assert(forall|i: int| 0 <= i < s.len() - 1 ==> s.drop_last()[i] == s[i]);
        assert(s[s.len() - 1] == s.last());
        if wf_members(s) {
            assert forall|i: int| 0 <= i < s.len() implies s[i].1.wf() by {
                if i < s.len() - 1 {
                    assert(s.drop_last()[i].1.wf());
                }
            }
        }
        if forall|i: int| 0 <= i < s.len() ==> s[i].1.wf() {
            assert(forall|i: int| 0 <= i < s.len() - 1 ==> s.drop_last()[i].1.wf());
        }
    }
}

pub proof fn lemma_obj_view_contains(entries: Seq<(String, Json)>, k: Seq<char>)
    ensures
        obj_view(entries).contains_key(k) <==> (exists|i: int|
            0 <= i < entries.len() && entries[i].0@ == k),
    decreases entries,
{
    if entries.len() > 0 {
        lemma_obj_view_contains(entries.drop_last(), k);
        assert(forall|i: int|
            0 <= i < entries.len() - 1 ==> entries.drop_last()[i] == entries[i]);
        assert(obj_view(entries) == obj_view(entries.drop_last()).insert(
            entries.last().0@, entries.last().1@));
        if entries.last().0@ == k {
            assert(entries[entries.len() - 1].0@ == k);
        } else if obj_view(entries).contains_key(k) {
            let i = choose|i: int|
                0 <= i < entries.len() - 1 && entries.drop_last()[i].0@ == k;
            assert(entries[i].0@ == k);
        } else if exists|i: int| 0 <= i < entries.len() && entries[i].0@ == k {
            let i = choose|i: int| 0 <= i < entries.len() && entries[i].0@ == k;
            assert(entries.drop_last()[i].0@ == k);
        }
    }
}

/// Looking up a key returns the value of its last occurrence.
pub proof fn lemma_obj_view_lookup(entries: Seq<(String, Json)>, k: Seq<char>, i: int)
    requires
        0 <= i < entries.len(),
        entries[i].0@ == k,
        forall|j: int| i < j < entries.len() ==> entries[j].0@ != k,
    ensures
        obj_view(entries).contains_key(k),
        obj_view(entries)[k] == entries[i].1@,
    decreases entries,
{
    if i == entries.len() - 1 {
        assert(entries.last() == entries[i]);
        assert(obj_view(entries) == obj_view(entries.drop_last()).insert(k, entries[i].1@));
        assert(obj_view(entries).contains_key(k));
        assert(obj_view(entries)[k] == entries[i].1@);
    } else {
        assert(forall|j: int|
            0 <= j < entries.len() - 1 ==> entries.drop_last()[j] == entries[j]);
        lemma_obj_view_lookup(entries.drop_last(), k, i);
        assert(entries.last().0@ != k);
        assert(obj_view(entries) == obj_view(entries.drop_last()).insert(
            entries.last().0@, entries.last().1@));
        assert(obj_view(entries).contains_key(k));
        assert(obj_view(entries)[k] == entries[i].1@);
    }
}

/// Every key that occurs has a last occurrence.
pub proof fn lemma_last_occurrence(entries: Seq<(String, Json)>, k: Seq<char>)
    requires
        exists|i: int| 0 <= i < entries.len() && entries[i].0@ == k,
    ensures
        exists|i: int|
            0 <= i < entries.len() && entries[i].0@ == k && (forall|j: int|
                i < j < entries.len() ==> entries[j].0@ != k),
    decreases entries,
{
    if entries.last().0@ == k {
        let w = entries.len() - 1;
        assert(entries[w].0@ == k && (forall|j: int|
            w < j < entries.len() ==> entries[j].0@ != k));
    } else {
        assert(forall|j: int|
            0 <= j < entries.len() - 1 ==> entries.drop_last()[j] == entries[j]);
        let i0 = choose|i: int| 0 <= i < entries.len() && entries[i].0@ == k;
        assert(i0 < entries.len() - 1);
        assert(entries.drop_last()[i0].0@ == k);
        lemma_last_occurrence(entries.drop_last(), k);
        let w = choose|i: int|
            0 <= i < entries.len() - 1 && entries.drop_last()[i].0@ == k && (forall|j: int|
                i < j < entries.len() - 1 ==> entries.drop_last()[j].0@ != k);
        assert(entries[w].0@ == k);
        assert(forall|j: int| w < j < entries.len() ==> entries[j].0@ != k) by {
            assert(forall|j: int|
                w < j < entries.len() - 1 ==> entries[j].0@ == entries.drop_last()[j].0@);
        }
    }
}

/// Replacing the last occurrence of a key models a map insert.
pub proof fn lemma_obj_view_update(
    entries: Seq<(String, Json)>,
    i: int,
    key: String,
    val: Json,
)
    requires
        0 <= i < entries.len(),
        entries[i].0@ == key@,
        forall|j: int| i < j < entries.len() ==> entries[j].0@ != key@,
    ensures
        obj_view(entries.update(i, (key, val))) =~= obj_view(entries).insert(key@, val@),
    decreases entries,
{
    let upd = entries.update(i, (key, val));
    assert(upd.len() == entries.len());
    if i == entries.len() - 1 {
        assert(upd.drop_last() =~= entries.drop_last());
        assert(upd.last() == (key, val));
        assert(obj_view(upd) == obj_view(entries.drop_last()).insert(key@, val@));
        assert(obj_view(entries) == obj_view(entries.drop_last()).insert(key@, entries[i].1@));
        assert(obj_view(upd) =~= obj_view(entries).insert(key@, val@));
    } else {
        assert(upd.drop_last() =~= entries.drop_last().update(i, (key, val)));
        assert(forall|j: int|
            0 <= j < entries.len() - 1 ==> entries.drop_last()[j] == entries[j]);
        lemma_obj_view_update(entries.drop_last(), i, key, val);
        assert(upd.last() == entries.last());
        assert(entries.last().0@ != key@);
        assert(obj_view(upd) == obj_view(upd.drop_last()).insert(entries.last().0@, entries.last().1@));
        assert(obj_view(entries) == obj_view(entries.drop_last()).insert(entries.last().0@, entries.last().1@));
    }
}

/// Appending a member models a map insert.
pub proof fn lemma_obj_view_push(entries: Seq<(String, Json)>, key: String, val: Json)
    ensures
        obj_view(entries.push((key, val))) =~= obj_view(entries).insert(key@, val@),
{
    assert(entries.push((key, val)).drop_last() =~= entries);
}

/// Character-for-character string comparison.
pub fn str_eq(a: &str, b: &str) -> (r: bool)
    ensures
        r == (a@ == b@),
{
    let na = a.unicode_len();
    let nb = b.unicode_len();
    if na != nb {
        assert(a@ != b@) by {
            assert(a@.len() != b@.len());
        }
        return false;
    }
    let mut i: usize = 0;
    while i < na
        invariant
            na == a@.len() && na == b@.len(),
            0 <= i <= na,
            forall|k: int| 0 <= k < i ==> a@[k] == b@[k],
        decreases na - i,
    {
        if a.get_char(i) != b.get_char(i) {
            return false;
        }
        i += 1;
    }
    proof {
        assert(a@ =~= b@);
    }
    true
}

/// The value at the last occurrence of `key` among the members, if any.
pub fn get_member<'a>(entries: &'a Vec<(String, Json)>, key: &str) -> (r: Option<&'a Json>)
    ensures
        match r {
            Some(v) => obj_view(entries@).contains_key(key@) && v@ == obj_view(entries@)[key@],
            None => !obj_view(entries@).contains_key(key@),
        },
{
    let n = entries.len();
    let mut i: usize = n;
    while i > 0
        invariant
            i <= n,
            n == entries@.len(),
            forall|j: int| i <= j < n ==> entries@[j].0@ != key@,
        decreases i,
    {
        i -= 1;
        if str_eq(entries[i].0.as_str(), key) {
            proof {
                lemma_obj_view_lookup(entries@, key@, i as int);
            }
            return Some(&entries[i].1);
        }
    }
    proof {
        lemma_obj_view_contains(entries@, key@);
    }
    None
}

impl Json {
    /// Object member lookup by key; an absent key, or a non-object
    /// receiver, answers with an explicit `KeyNotFound` signal.
    pub fn get<'a>(&'a self, key: &str) -> (r: Result<&'a Json, JsonError>)
        ensures
            self matches Json::Object(m) ==> match r {
                Ok(v) => obj_view(m@).contains_key(key@) && v@ == obj_view(m@)[key@],
                Err(e) => e == JsonError::KeyNotFound && !obj_view(m@).contains_key(key@),
            },
            !(self is Object) ==> r == Err::<&'a Json, JsonError>(JsonError::KeyNotFound),
    {
        match self {
            Json::Object(m) => match get_member(m, key) {
                Some(v) => Ok(v),
                None => Err(JsonError::KeyNotFound),
            },
            _ => Err(JsonError::KeyNotFound),
        }
    }

    /// Array element lookup by position; an out-of-range index, or a
    /// non-array receiver, answers with an explicit `IndexOutOfRange`.
    pub fn index(&self, i: usize) -> (r: Result<&Json, JsonError>)
        ensures
            self matches Json::Array(a) ==> match r {
                Ok(v) => i < a@.len() && v@ == arr_view(a@)[i as int],
                Err(e) => e == JsonError::IndexOutOfRange && i >= a@.len(),
            },
            !(self is Array) ==> r == Err::<&Json, JsonError>(JsonError::IndexOutOfRange),
    {
        match self {
            Json::Array(a) => {
                if i < a.len() {
                    proof {
                        lemma_arr_view(a@);
                    }
                    Ok(&a[i])
                } else {
                    Err(JsonError::IndexOutOfRange)
                }
            },
            _ => Err(JsonError::IndexOutOfRange),
        }
    }
}


/// Whether position `i` holds the last occurrence of its key.
pub open spec fn last_occ(s: Seq<(String, Json)>, i: int) -> bool {
    forall|j: int| i < j < s.len() ==> s[j].0@ != s[i].0@
}

/// Members with pointwise equal key text and value views model the same
/// map.
pub proof fn lemma_obj_view_congruent(e1: Seq<(String, Json)>, e2: Seq<(String, Json)>)
    requires
        e1.len() == e2.len(),
        forall|i: int| 0 <= i < e1.len() ==> e1[i].0@ == e2[i].0@ && e1[i].1@ == e2[i].1@,
    ensures
        obj_view(e1) == obj_view(e2),
    decreases e1,
{
    if e1.len() > 0 {
        assert(forall|i: int| 0 <= i < e1.len() - 1 ==> e1.drop_last()[i] == e1[i]);
        assert(forall|i: int| 0 <= i < e2.len() - 1 ==> e2.drop_last()[i] == e2[i]);
        lemma_obj_view_congruent(e1.drop_last(), e2.drop_last());
        assert(e1[e1.len() - 1].0@ == e2[e1.len() - 1].0@);
        assert(e1[e1.len() - 1].1@ == e2[e1.len() - 1].1@);
    }
}

impl Json {
    /// Insert or overwrite the member at `key` of an owned object; a
    /// non-object receiver is left unchanged and answers `KeyNotFound`.
    pub fn set(&mut self, key: String, val: Json) -> (r: Result<(), JsonError>)
        ensures
            *old(self) matches Json::Object(m) ==> r == Ok::<(), JsonError>(())
                && *final(self) is Object
                && (*final(self))@ == JsonView::Object(obj_view(m@).insert(key@, val@)),
            (*old(self)).wf() && val.wf() && *old(self) is Object ==> (*final(self)).wf(),
            !(*old(self) is Object) ==> r == Err::<(), JsonError>(JsonError::KeyNotFound)
                && *final(self) == *old(self),
    {
        let mut current = Json::Null;
        core::mem::swap(self, &mut current);
        match current {
            Json::Object(mut m) => {
                let ghost m0 = m@;
                let n = m.len();
                let mut i: usize = n;
                proof {
                    assert((*old(self))@ == JsonView::Object(obj_view(m0)));
                }
                while i > 0
                    invariant
                        i <= n,
                        n == m@.len(),
                        m@ == m0,
                        *old(self) is Object,
                        (*old(self))@ == JsonView::Object(obj_view(m0)),
                        (*old(self)).wf() <==> keys_unique(m0) && wf_members(m0),
                        forall|j: int| i <= j < n ==> m@[j].0@ != key@,
                    decreases i,
                {
                    i -= 1;
                    if str_eq(m[i].0.as_str(), key.as_str()) {
                        let _ = m.remove(i);
                        m.insert(i, (key, val));
                        proof {
                            assert(m@ =~= m0.update(i as int, (key, val)));
                            lemma_obj_view_update(m0, i as int, key, val);
                            assert(keys_unique(m0) ==> keys_unique(m@));
                            lemma_wf_members(m0);
                            lemma_wf_members(m@);
                        }
                        *self = Json::Object(m);
                        return Ok(());
                    }
                }
                m.push((key, val));
                proof {
                    lemma_obj_view_push(m0, key, val);
                    assert(keys_unique(m0) ==> keys_unique(m@));
                    lemma_wf_members(m0);
                    lemma_wf_members(m@);
                }
                *self = Json::Object(m);
                Ok(())
            },
            other => {
                *self = other;
                Err(JsonError::KeyNotFound)
            },
        }
    }

    /// Replace the element at position `i` of an owned array; the index
    /// must already be in range, there is no implicit growth.
    pub fn set_index(&mut self, i: usize, val: Json) -> (r: Result<(), JsonError>)
        ensures
            *old(self) matches Json::Array(a) ==> (i < a@.len() ==> r == Ok::<(),
                JsonError,
            >(()) && *final(self) is Array && (*final(self))@ == JsonView::Array(
                arr_view(a@).update(i as int, val@),
            )),
            (*old(self)).wf() && val.wf() ==> (*final(self)).wf(),
            *old(self) matches Json::Array(a) ==> (i >= a@.len() ==> r == Err::<(),
                JsonError,
            >(JsonError::IndexOutOfRange) && *final(self) == *old(self)),
            !(*old(self) is Array) ==> r == Err::<(), JsonError>(JsonError::IndexOutOfRange)
                && *final(self) == *old(self),
    {
        match self {
            Json::Array(a) => {
                if i < a.len() {
                    let ghost a0 = a@;
                    let _ = a.remove(i);
                    a.insert(i, val);
                    proof {
                        assert(a@ =~= a0.update(i as int, val));
                        lemma_arr_view(a0);
                        lemma_arr_view(a@);
                        assert(arr_view(a@) =~= arr_view(a0).update(i as int, val@));
                        if (*old(self)).wf() && val.wf() {
                            lemma_wf_list(a0);
                            lemma_wf_list(a@);
                        }
                    }
                    Ok(())
                } else {
                    Err(JsonError::IndexOutOfRange)
                }
            },
            _ => Err(JsonError::IndexOutOfRange),
        }
    }

    /// Structural equality: same variant and recursively equal payload,
    /// order-sensitive for arrays and order-insensitive for objects.
    pub fn equals(&self, other: &Json) -> (r: bool)
        ensures
            r == (self@ == other@),
        decreases self,
    {
        match (self, other) {
            (Json::Integer(x), Json::Integer(y)) => *x == *y,
            (Json::Float(p), Json::Float(q)) => str_eq(p.as_str(), q.as_str()),
            (Json::Text(p), Json::Text(q)) => str_eq(p.as_str(), q.as_str()),
            (Json::Boolean(x), Json::Boolean(y)) => *x == *y,
            (Json::Null, Json::Null) => true,
            (Json::Array(a), Json::Array(b)) => {
                proof {
                    lemma_arr_view(a@);
                    lemma_arr_view(b@);
                }
                if a.len() != b.len() {
                    return false;
                }
                let n = a.len();
                let mut i: usize = 0;
                while i < n
                    invariant
                        0 <= i <= n,
                        n == a@.len() && n == b@.len(),
                        arr_view(a@).len() == n && arr_view(b@).len() == n,
                        forall|k: int| 0 <= k < n ==> arr_view(a@)[k] == a@[k]@,
                        forall|k: int| 0 <= k < n ==> arr_view(b@)[k] == b@[k]@,
                        forall|k: int| 0 <= k < i ==> a@[k]@ == b@[k]@,
                        *self == Json::Array(*a) && *other == Json::Array(*b),
                    decreases n - i,
                {
                    proof {
                        assert(decreases_to!(*self => (*self)->Array_0));
                        assert(decreases_to!(*a => a@));
                        assert(decreases_to!(a@ => a@[i as int]));
                        assert(decreases_to!(*self => a@[i as int]));
                    }
                    if !a[i].equals(&b[i]) {
                        proof {
                            assert(arr_view(a@)[i as int] != arr_view(b@)[i as int]);
                        }
                        return false;
                    }
                    i += 1;
                }
                proof {
                    assert(arr_view(a@) =~= arr_view(b@));
                }
                true
            },
            (Json::Object(a), Json::Object(b)) => {
                let na = a.len();
                let nb = b.len();
                let mut i: usize = 0;
                while i < na
                    invariant
                        0 <= i <= na,
                        na == a@.len() && nb == b@.len(),
                        forall|k: int|
                            0 <= k < i && last_occ(a@, k) ==> {
                                &&& obj_view(b@).contains_key(a@[k].0@)
                                &&& obj_view(a@)[a@[k].0@] == obj_view(b@)[a@[k].0@]
                            },
                        *self == Json::Object(*a) && *other == Json::Object(*b),
                    decreases na - i,
                {
                    let mut later: bool = false;
                    let mut j: usize = i + 1;
                    while j < na
                        invariant
                            i < j <= na,
                            na == a@.len(),
                            later <==> exists|t: int| i < t < j && a@[t].0@ == a@[i as int].0@,
                        decreases na - j,
                    {
                        if str_eq(a[j].0.as_str(), a[i].0.as_str()) {
                            later = true;
                        }
                        j += 1;
                    }
                    if !later {
                        proof {
                            lemma_obj_view_lookup(a@, a@[i as int].0@, i as int);
                        }
                        match get_member(b, a[i].0.as_str()) {
                            None => {
                                proof {
                                    assert(obj_view(a@).contains_key(a@[i as int].0@));
                                    assert(!obj_view(b@).contains_key(a@[i as int].0@));
                                    assert(obj_view(a@) != obj_view(b@));
                                }
                                return false;
                            },
                            Some(vb) => {
                                proof {
                                    assert(decreases_to!(*self => (*self)->Object_0));
                                    assert(decreases_to!(*a => a@));
                                    assert(decreases_to!(a@ => a@[i as int]));
                                    assert(decreases_to!(a@[i as int] => a@[i as int].1));
                                    assert(decreases_to!(*self => a@[i as int].1));
                                }
                                if !a[i].1.equals(vb) {
                                    proof {
                                        assert(obj_view(a@)[a@[i as int].0@] == a@[i as int].1@);
                                        assert(obj_view(b@)[a@[i as int].0@] == vb@);
                                        assert(obj_view(a@) != obj_view(b@));
                                    }
                                    return false;
                                }
                            },
                        }
                    }
                    i += 1;
                }
                let mut j: usize = 0;
                while j < nb
                    invariant
                        0 <= j <= nb,
                        na == a@.len() && nb == b@.len(),
                        forall|k: int|
                            0 <= k < na && last_occ(a@, k) ==> {
                                &&& obj_view(b@).contains_key(a@[k].0@)
                                &&& obj_view(a@)[a@[k].0@] == obj_view(b@)[a@[k].0@]
                            },
                        forall|k: int| 0 <= k < j ==> obj_view(a@).contains_key(b@[k].0@),
                        *self == Json::Object(*a) && *other == Json::Object(*b),
                    decreases nb - j,
                {
                    match get_member(a, b[j].0.as_str()) {
                        None => {
                            proof {
                                lemma_obj_view_contains(b@, b@[j as int].0@);
                                assert(obj_view(b@).contains_key(b@[j as int].0@));
                                assert(obj_view(a@) != obj_view(b@));
                            }
                            return false;
                        },
                        Some(_) => {},
                    }
                    j += 1;
                }
                proof {
                    assert_maps_equal!(obj_view(a@), obj_view(b@), k => {
                        if obj_view(a@).contains_key(k) {
                            lemma_obj_view_contains(a@, k);
                            lemma_last_occurrence(a@, k);
                            let w = choose|t: int|
                                0 <= t < a@.len() && a@[t].0@ == k && (forall|j2: int|
                                    t < j2 < a@.len() ==> a@[j2].0@ != k);
                            assert(last_occ(a@, w));
                            assert(obj_view(b@).contains_key(a@[w].0@)
                                && obj_view(a@)[a@[w].0@] == obj_view(b@)[a@[w].0@]);
                            assert(a@[w].0@ == k);
                        }
                        if obj_view(b@).contains_key(k) {
                            lemma_obj_view_contains(b@, k);
                            let w = choose|t: int| 0 <= t < b@.len() && b@[t].0@ == k;
                            assert(obj_view(a@).contains_key(b@[w].0@));
                        }
                    });
                }
                true
            },
            _ => false,
        }
    }
}

impl PartialEq for Json {
    fn eq(&self, other: &Json) -> (r: bool) {
        self.equals(other)
    }
}

impl vstd::std_specs::cmp::PartialEqSpecImpl for Json {
    open spec fn obeys_eq_spec() -> bool {
        true
    }

    open spec fn eq_spec(&self, other: &Json) -> bool {
        self@ == other@
    }
}

impl Clone for Json {
    /// A deep copy that models the same value.
    fn clone(&self) -> (res: Json)
        ensures
            res@ == self@,
            res.wf() <==> self.wf(),
        decreases self,
    {
        match self {
            Json::Integer(i) => Json::Integer(*i),
            Json::Float(p) => Json::Float(p.clone()),
            Json::Text(s) => Json::Text(s.clone()),
            Json::Boolean(b) => Json::Boolean(*b),
            Json::Null => Json::Null,
            Json::Array(a) => {
                let n = a.len();
                let mut v: Vec<Json> = Vec::new();
                let mut i: usize = 0;
                while i < n
                    invariant
                        0 <= i <= n,
                        n == a@.len(),
                        v@.len() == i,
                        forall|k: int| 0 <= k < i ==> v@[k]@ == a@[k]@,
                        forall|k: int| 0 <= k < i ==> (v@[k].wf() <==> a@[k].wf()),
                        *self == Json::Array(*a),
                    decreases n - i,
                {
                    proof {
                        assert(decreases_to!(*self => (*self)->Array_0));
                        assert(decreases_to!(*a => a@));
                        assert(decreases_to!(a@ => a@[i as int]));
                        assert(decreases_to!(*self => a@[i as int]));
                    }
                    v.push(a[i].clone());
                    i += 1;
                }
                proof {
                    lemma_arr_view(a@);
                    lemma_arr_view(v@);
                    assert(arr_view(v@) =~= arr_view(a@));
                    lemma_wf_list(a@);
                    lemma_wf_list(v@);
                }
                Json::Array(v)
            },
            Json::Object(m) => {
                let n = m.len();
                let mut v: Vec<(String, Json)> = Vec::new();
                let mut i: usize = 0;
                while i < n
                    invariant
                        0 <= i <= n,
                        n == m@.len(),
                        v@.len() == i,
                        forall|k: int| 0 <= k < i ==> v@[k].0@ == m@[k].0@,
                        forall|k: int| 0 <= k < i ==> v@[k].1@ == m@[k].1@,
                        forall|k: int| 0 <= k < i ==> (v@[k].1.wf() <==> m@[k].1.wf()),
                        *self == Json::Object(*m),
                    decreases n - i,
                {
                    proof {
                        assert(decreases_to!(*self => (*self)->Object_0));
                        assert(decreases_to!(*m => m@));
                        assert(decreases_to!(m@ => m@[i as int]));
                        assert(decreases_to!(m@[i as int] => m@[i as int].1));
                        assert(decreases_to!(*self => m@[i as int].1));
                    }
                    v.push((m[i].0.clone(), m[i].1.clone()));
                    i += 1;
                }
                proof {
                    lemma_obj_view_congruent(v@, m@);
                    assert(keys_unique(v@) <==> keys_unique(m@));
                    lemma_wf_members(m@);
                    lemma_wf_members(v@);
                }
                Json::Object(v)
            },
        }
    }
}




/// Object equality ignores member order: member lists with pairwise
/// distinct keys that hold the same key-value pairs model the same map,
/// whatever order the members stand in.
#[verifier::rlimit(100)]
pub proof fn lemma_object_order_insensitive(
    e1: Seq<(String, Json)>,
    e2: Seq<(String, Json)>,
)
    requires
        keys_unique(e1),
        keys_unique(e2),
        forall|i: int|
            0 <= i < e1.len() ==> exists|j: int|
                0 <= j < e2.len() && e2[j].0@ == (#[trigger] e1[i]).0@ && e2[j].1@
                    == e1[i].1@,
        forall|j: int|
            0 <= j < e2.len() ==> exists|i: int|
                0 <= i < e1.len() && e1[i].0@ == (#[trigger] e2[j]).0@ && e1[i].1@
                    == e2[j].1@,
    ensures
        obj_view(e1) == obj_view(e2),
{
    assert_maps_equal!(obj_view(e1), obj_view(e2), k => {
        if obj_view(e1).contains_key(k) {
            lemma_obj_view_contains(e1, k);
            let i = choose|i: int| 0 <= i < e1.len() && e1[i].0@ == k;
            assert(forall|q: int| i < q < e1.len() ==> e1[q].0@ != k);
            lemma_obj_view_lookup(e1, k, i);
            let j = choose|j: int|
                0 <= j < e2.len() && e2[j].0@ == e1[i].0@ && e2[j].1@ == e1[i].1@;
            assert(forall|q: int| j < q < e2.len() ==> e2[q].0@ != k);
            lemma_obj_view_lookup(e2, k, j);
        }
        if obj_view(e2).contains_key(k) {
            lemma_obj_view_contains(e2, k);
            let j = choose|j: int| 0 <= j < e2.len() && e2[j].0@ == k;
            assert(forall|q: int| j < q < e2.len() ==> e2[q].0@ != k);
            lemma_obj_view_lookup(e2, k, j);
            let i = choose|i: int|
                0 <= i < e1.len() && e1[i].0@ == e2[j].0@ && e1[i].1@ == e2[j].1@;
            assert(forall|q: int| i < q < e1.len() ==> e1[q].0@ != k);
            lemma_obj_view_lookup(e1, k, i);
        }
    });
}

} // verus!
