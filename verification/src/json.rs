//! The JSON value tree and its mathematical model.
//!
//! A value is modelled by `JsonV`: numbers as their IEEE-754 bit patterns,
//! strings as character sequences, objects as ordered association sequences
//! with their insertion order kept.  Equality between values is structural,
//! with numbers compared by bit pattern and objects compared as maps.

use vstd::prelude::*;

use crate::num::{Cmp, float_cmp};

verus! {

broadcast use vstd::seq::group_seq_axioms, vstd::std_specs::vec::group_vec_axioms,
    vstd::string::group_string_axioms;

/// A JSON document: the executable value tree.
#[derive(Debug)]
pub enum Json {
    Null,
    Boolean(bool),
    /// The IEEE-754 binary64 bit pattern of the number.
    Number(u64),
    String(String),
    Array(Vec<Json>),
    /// Key/value pairs in insertion order; builders keep the keys pairwise
    /// distinct (`obj_keys_unique`).
    Object(Vec<(String, Json)>),
}

/// The mathematical model of a JSON value.
pub enum JsonV {
    Null,
    Boolean(bool),
    Number(u64),
    String(Seq<char>),
    Array(Seq<JsonV>),
    Object(Seq<(Seq<char>, JsonV)>),
}

pub open spec fn view_arr(s: Seq<Json>) -> Seq<JsonV>
    decreases s,
{
    if s.len() == 0 {
        Seq::empty()
    } else {
        view_arr(s.drop_last()).push(s.last()@)
    }
}

pub open spec fn view_obj(s: Seq<(String, Json)>) -> Seq<(Seq<char>, JsonV)>
    decreases s,
{
    if s.len() == 0 {
        Seq::empty()
    } else {
        view_obj(s.drop_last()).push((s.last().0@, s.last().1@))
    }
}

impl View for Json {
    type V = JsonV;

    open spec fn view(&self) -> JsonV
        decreases self,
    {
        match self {
            Json::Null => JsonV::Null,
            Json::Boolean(b) => JsonV::Boolean(*b),
            Json::Number(b) => JsonV::Number(*b),
            Json::String(s) => JsonV::String(s@),
            Json::Array(a) => JsonV::Array(view_arr(a@)),
            Json::Object(m) => JsonV::Object(view_obj(m@)),
        }
    }
}

pub broadcast proof fn lemma_view_arr(s: Seq<Json>)
    ensures
        (#[trigger] view_arr(s)).len() == s.len(),
        forall|i: int| 0 <= i < s.len() ==> view_arr(s)[i] == s[i]@,
    decreases s,
{
    if s.len() > 0 {
        lemma_view_arr(s.drop_last());
        assert(view_arr(s) == view_arr(s.drop_last()).push(s.last()@));
        assert forall|i: int| 0 <= i < s.len() implies view_arr(s)[i] == s[i]@ by {
            if i < s.len() - 1 {
                assert(s.drop_last()[i] == s[i]);
            } else {
                assert(s[i] == s.last());
            }
        }
    }
}

pub broadcast proof fn lemma_view_obj(s: Seq<(String, Json)>)
    ensures
        (#[trigger] view_obj(s)).len() == s.len(),
        forall|i: int|
            0 <= i < s.len() ==> view_obj(s)[i] == (s[i].0@, s[i].1@),
    decreases s,
{
    if s.len() > 0 {
        lemma_view_obj(s.drop_last());
        assert(view_obj(s) == view_obj(s.drop_last()).push((s.last().0@, s.last().1@)));
        assert forall|i: int| 0 <= i < s.len() implies view_obj(s)[i] == (s[i].0@, s[i].1@) by {
            if i < s.len() - 1 {
                assert(s.drop_last()[i] == s[i]);
            } else {
                assert(s[i] == s.last());
            }
        }
    }
}

/// The value under the first occurrence of key `k`.
pub open spec fn obj_get(m: Seq<(Seq<char>, JsonV)>, k: Seq<char>) -> Option<JsonV>
    decreases m.len(),
{
    if m.len() == 0 {
        None
    } else if m[0].0 == k {
        Some(m[0].1)
    } else {
        obj_get(m.drop_first(), k)
    }
}

/// Structural equality of JSON values: numbers by bit pattern, objects as
/// maps of their keys, key order not significant.
pub open spec fn json_eq(a: JsonV, b: JsonV) -> bool
    decreases a,
{
    match (a, b) {
        (JsonV::Null, JsonV::Null) => true,
        (JsonV::Boolean(x), JsonV::Boolean(y)) => x == y,
        (JsonV::Number(x), JsonV::Number(y)) => x == y,
        (JsonV::String(x), JsonV::String(y)) => x == y,
        (JsonV::Array(x), JsonV::Array(y)) => x.len() == y.len() && arr_eq(x, y),
        (JsonV::Object(x), JsonV::Object(y)) => x.len() == y.len() && obj_le(x, y),
        _ => false,
    }
}

/// Pairwise equality of two equally long value sequences.
pub open spec fn arr_eq(x: Seq<JsonV>, y: Seq<JsonV>) -> bool
    decreases x,
{
    if x.len() == 0 || y.len() == 0 {
        true
    } else {
        json_eq(x[0], y[0]) && arr_eq(x.drop_first(), y.drop_first())
    }
}

/// Every pair of `x` finds an equal value under its key in `y`.
pub open spec fn obj_le(x: Seq<(Seq<char>, JsonV)>, y: Seq<(Seq<char>, JsonV)>) -> bool
    decreases x,
{
    if x.len() == 0 {
        true
    } else {
        (match obj_get(y, x[0].0) {
            Some(v) => json_eq(x[0].1, v),
            None => false,
        }) && obj_le(x.drop_first(), y)
    }
}

/// Ordering of JSON values, defined where both sides share a comparable kind:
/// booleans, numbers, strings and arrays.  `Err` on any other combination;
/// `Ok(None)` where a NaN makes the numeric comparison unordered.
pub open spec fn json_cmp(a: JsonV, b: JsonV) -> Result<Option<Cmp>, ()>
    decreases a,
{
    match (a, b) {
        (JsonV::Boolean(x), JsonV::Boolean(y)) => Ok(
            Some(
                if x == y {
                    Cmp::Equal
                } else if !x {
                    Cmp::Less
                } else {
                    Cmp::Greater
                },
            ),
        ),
        (JsonV::Number(x), JsonV::Number(y)) => Ok(float_cmp(x, y)),
        (JsonV::String(x), JsonV::String(y)) => Ok(Some(str_cmp(x, y))),
        (JsonV::Array(x), JsonV::Array(y)) => arr_cmp(x, y),
        _ => Err(()),
    }
}

/// Lexicographic order on character sequences, by Unicode scalar value.
pub open spec fn str_cmp(x: Seq<char>, y: Seq<char>) -> Cmp
    decreases x.len(),
{
    if x.len() == 0 && y.len() == 0 {
        Cmp::Equal
    } else if x.len() == 0 {
        Cmp::Less
    } else if y.len() == 0 {
        Cmp::Greater
    } else if x[0] < y[0] {
        Cmp::Less
    } else if y[0] < x[0] {
        Cmp::Greater
    } else {
        str_cmp(x.drop_first(), y.drop_first())
    }
}

/// Lexicographic order on value sequences; a shorter strict prefix is less.
pub open spec fn arr_cmp(x: Seq<JsonV>, y: Seq<JsonV>) -> Result<Option<Cmp>, ()>
    decreases x,
{
    if x.len() == 0 && y.len() == 0 {
        Ok(Some(Cmp::Equal))
    } else if x.len() == 0 {
        Ok(Some(Cmp::Less))
    } else if y.len() == 0 {
        Ok(Some(Cmp::Greater))
    } else {
        match json_cmp(x[0], y[0]) {
            Err(()) => Err(()),
            Ok(None) => Ok(None),
            Ok(Some(Cmp::Equal)) => arr_cmp(x.drop_first(), y.drop_first()),
            Ok(Some(o)) => Ok(Some(o)),
        }
    }
}

/// Deep copy of a JSON value, keeping its model.
pub fn clone_json(j: &Json) -> (r: Json)
    ensures
        r@ == j@,
    decreases j,
{
    match j {
        Json::Null => Json::Null,
        Json::Boolean(b) => Json::Boolean(*b),
        Json::Number(n) => Json::Number(*n),
        Json::String(s) => Json::String(s.clone()),
        Json::Array(a) => Json::Array(clone_arr(a)),
        Json::Object(m) => Json::Object(clone_obj(m)),
    }
}

pub fn clone_arr(a: &Vec<Json>) -> (r: Vec<Json>)
    ensures
        view_arr(r@) == view_arr(a@),
        r@.len() == a@.len(),
    decreases a,
{
    let mut v: Vec<Json> = Vec::new();
    let mut i: usize = 0;
    while i < a.len()
        invariant
            0 <= i <= a.len(),
            v@.len() == i,
            forall|k: int| 0 <= k < i ==> v@[k]@ == a@[k]@,
        decreases a.len() - i,
    {
        v.push(clone_json(&a[i]));
        i = i + 1;
    }
    proof {
        lemma_view_arr(v@);
        lemma_view_arr(a@);
        assert(view_arr(v@) =~= view_arr(a@));
    }
    v
}

pub fn clone_obj(m: &Vec<(String, Json)>) -> (r: Vec<(String, Json)>)
    ensures
        view_obj(r@) == view_obj(m@),
        r@.len() == m@.len(),
    decreases m,
{
    let mut v: Vec<(String, Json)> = Vec::new();
    let mut i: usize = 0;
    while i < m.len()
        invariant
            0 <= i <= m.len(),
            v@.len() == i,
            forall|k: int| 0 <= k < i ==> v@[k].0@ == m@[k].0@ && v@[k].1@ == m@[k].1@,
        decreases m.len() - i,
    {
        let key = m[i].0.clone();
        let value = clone_json(&m[i].1);
        v.push((key, value));
        i = i + 1;
    }
    proof {
        lemma_view_obj(v@);
        lemma_view_obj(m@);
        assert(view_obj(v@) =~= view_obj(m@));
    }
    v
}

impl Clone for Json {
    /// A deep copy that keeps the value's model.
    fn clone(&self) -> (r: Self)
        ensures
            r@ == self@,
    {
        clone_json(self)
    }
}

/// Structural equality of two JSON values, numbers by bit pattern and
/// objects as maps.
pub fn eq_json(a: &Json, b: &Json) -> (r: bool)
    ensures
        r == json_eq(a@, b@),
    decreases a,
{
    match (a, b) {
        (Json::Null, Json::Null) => true,
        (Json::Boolean(x), Json::Boolean(y)) => *x == *y,
        (Json::Number(x), Json::Number(y)) => *x == *y,
        (Json::String(x), Json::String(y)) => x.eq(y),
        (Json::Array(x), Json::Array(y)) => {
            proof {
                lemma_view_arr(x@);
                lemma_view_arr(y@);
            }
            if x.len() != y.len() {
                return false;
            }
            eq_arr(x, y)
        },
        (Json::Object(x), Json::Object(y)) => {
            proof {
                lemma_view_obj(x@);
                lemma_view_obj(y@);
            }
            if x.len() != y.len() {
                return false;
            }
            eq_obj_le(x, y)
        },
        _ => false,
    }
}

fn eq_arr(x: &Vec<Json>, y: &Vec<Json>) -> (r: bool)
    requires
        x@.len() == y@.len(),
    ensures
        r == arr_eq(view_arr(x@), view_arr(y@)),
    decreases x,
{
    let ghost xs = view_arr(x@);
    let ghost ys = view_arr(y@);
    proof {
        lemma_view_arr(x@);
        lemma_view_arr(y@);
        assert(xs.skip(0) =~= xs);
        assert(ys.skip(0) =~= ys);
    }
    let mut i: usize = 0;
    while i < x.len()
        invariant
            0 <= i <= x.len(),
            x@.len() == y@.len(),
            xs == view_arr(x@) && ys == view_arr(y@),
            xs.len() == x@.len() && ys.len() == y@.len(),
            forall|k: int| 0 <= k < xs.len() ==> xs[k] == x@[k]@,
            forall|k: int| 0 <= k < ys.len() ==> ys[k] == y@[k]@,
            arr_eq(xs, ys) == arr_eq(xs.skip(i as int), ys.skip(i as int)),
        decreases x.len() - i,
    {
        proof {
            let sx = xs.skip(i as int);
            let sy = ys.skip(i as int);
            assert(sx[0] == xs[i as int] && sy[0] == ys[i as int]);
            assert(sx.drop_first() =~= xs.skip(i as int + 1));
            assert(sy.drop_first() =~= ys.skip(i as int + 1));
        }
        if !eq_json(&x[i], &y[i]) {
            return false;
        }
        i = i + 1;
    }
    proof {
        assert(xs.skip(i as int) =~= Seq::<JsonV>::empty());
    }
    true
}

fn eq_obj_le(x: &Vec<(String, Json)>, y: &Vec<(String, Json)>) -> (r: bool)
    ensures
        r == obj_le(view_obj(x@), view_obj(y@)),
    decreases x,
{
    let ghost xs = view_obj(x@);
    let ghost ys = view_obj(y@);
    proof {
        lemma_view_obj(x@);
        assert(xs.skip(0) =~= xs);
    }
    let mut i: usize = 0;
    while i < x.len()
        invariant
            0 <= i <= x.len(),
            xs == view_obj(x@) && ys == view_obj(y@),
            xs.len() == x@.len(),
            forall|k: int| 0 <= k < xs.len() ==> xs[k] == (x@[k].0@, x@[k].1@),
            obj_le(xs, ys) == obj_le(xs.skip(i as int), ys),
        decreases x.len() - i,
    {
        proof {
            let sx = xs.skip(i as int);
            assert(sx[0] == xs[i as int]);
            assert(sx.drop_first() =~= xs.skip(i as int + 1));
        }
        match obj_find(y, &x[i].0) {
            None => {
                return false;
            },
            Some(v) => {
                if !eq_json(&x[i].1, v) {
                    return false;
                }
            },
        }
        i = i + 1;
    }
    proof {
        assert(xs.skip(i as int) =~= Seq::<(Seq<char>, JsonV)>::empty());
    }
    true
}

impl PartialEq for Json {
    /// Structural equality; `json_eq` of the models, by `eq_spec` below.
    fn eq(&self, other: &Self) -> (r: bool) {
        eq_json(self, other)
    }
}

impl vstd::std_specs::cmp::PartialEqSpecImpl for Json {
    open spec fn obeys_eq_spec() -> bool {
        true
    }

    open spec fn eq_spec(&self, other: &Self) -> bool {
        json_eq(self@, other@)
    }
}

/// Look a key up in an object's pair list: the first pair that carries it.
pub fn obj_find<'a>(m: &'a Vec<(String, Json)>, k: &String) -> (r: Option<&'a Json>)
    ensures
        match r {
            Some(v) => obj_get(view_obj(m@), k@) == Some(v@),
            None => obj_get(view_obj(m@), k@) is None,
        },
{
    let ghost ms = view_obj(m@);
    proof {
        lemma_view_obj(m@);
        assert(ms.skip(0) =~= ms);
    }
    let mut i: usize = 0;
    while i < m.len()
        invariant
            0 <= i <= m.len(),
            ms == view_obj(m@),
            ms.len() == m@.len(),
            forall|j: int| 0 <= j < ms.len() ==> ms[j] == (m@[j].0@, m@[j].1@),
            obj_get(ms, k@) == obj_get(ms.skip(i as int), k@),
        decreases m.len() - i,
    {
        proof {
            let sm = ms.skip(i as int);
            assert(sm[0] == ms[i as int]);
            assert(sm.drop_first() =~= ms.skip(i as int + 1));
        }
        if m[i].0.eq(k) {
            return Some(&m[i].1);
        }
        i = i + 1;
    }
    proof {
        assert(ms.skip(i as int) =~= Seq::<(Seq<char>, JsonV)>::empty());
    }
    None
}

/// An object after binding `k` to `v`: the first pair carrying `k` is
/// replaced in place, or the pair is appended at the end.
pub open spec fn obj_set(m: Seq<(Seq<char>, JsonV)>, k: Seq<char>, v: JsonV) -> Seq<
    (Seq<char>, JsonV),
>
    decreases m.len(),
{
    if m.len() == 0 {
        seq![(k, v)]
    } else if m[0].0 == k {
        seq![(k, v)] + m.drop_first()
    } else {
        seq![m[0]] + obj_set(m.drop_first(), k, v)
    }
}

/// The object invariant: its keys are pairwise distinct.  The parser and
/// the interpreter build objects only through `obj_set` folds, which the
/// lemmas below show keep this.
pub open spec fn obj_keys_unique(m: Seq<(Seq<char>, JsonV)>) -> bool {
    forall|i: int, j: int| 0 <= i < j < m.len() ==> m[i].0 != m[j].0
}

/// A key that `obj_get` misses equals none of the stored keys.
pub proof fn lemma_obj_get_none(m: Seq<(Seq<char>, JsonV)>, k: Seq<char>)
    requires
        obj_get(m, k) is None,
    ensures
        forall|i: int| 0 <= i < m.len() ==> (#[trigger] m[i]).0 != k,
    decreases m.len(),
{
    if m.len() > 0 {
        lemma_obj_get_none(m.drop_first(), k);
        assert forall|i: int| 0 <= i < m.len() implies (#[trigger] m[i]).0 != k by {
            if i > 0 {
                assert(m.drop_first()[i - 1] == m[i]);
            }
        }
    }
}

/// `obj_set` either replaces one value in place, keeping every key, or
/// appends the fresh pair at the end.
pub proof fn lemma_obj_set_shape(m: Seq<(Seq<char>, JsonV)>, k: Seq<char>, v: JsonV)
    ensures
        obj_get(m, k) is Some ==> obj_set(m, k, v).len() == m.len() && (forall|i: int|
            0 <= i < m.len() ==> (#[trigger] obj_set(m, k, v)[i]).0 == m[i].0),
        obj_get(m, k) is None ==> obj_set(m, k, v) == m.push((k, v)),
    decreases m.len(),
{
    if m.len() == 0 {
        assert(obj_set(m, k, v) =~= m.push((k, v)));
    } else if m[0].0 == k {
        assert forall|i: int| 0 <= i < m.len() implies (#[trigger] obj_set(m, k, v)[i]).0
            == m[i].0 by {
            if i > 0 {
                assert(obj_set(m, k, v)[i] == m.drop_first()[i - 1]);
            }
        }
    } else {
        lemma_obj_set_shape(m.drop_first(), k, v);
        if obj_get(m, k) is Some {
            assert forall|i: int| 0 <= i < m.len() implies (#[trigger] obj_set(m, k, v)[i]).0
                == m[i].0 by {
                if i > 0 {
                    assert(obj_set(m, k, v)[i] == obj_set(m.drop_first(), k, v)[i - 1]);
                    assert(m.drop_first()[i - 1] == m[i]);
                }
            }
        } else {
            assert(obj_set(m, k, v) =~= seq![m[0]] + m.drop_first().push((k, v)));
            assert(seq![m[0]] + m.drop_first().push((k, v)) =~= m.push((k, v)));
        }
    }
}

/// Binding a key keeps the keys pairwise distinct.
pub proof fn lemma_obj_set_unique(m: Seq<(Seq<char>, JsonV)>, k: Seq<char>, v: JsonV)
    requires
        obj_keys_unique(m),
    ensures
        obj_keys_unique(obj_set(m, k, v)),
{
    lemma_obj_set_shape(m, k, v);
    if obj_get(m, k) is None {
        lemma_obj_get_none(m, k);
        let r = m.push((k, v));
        assert forall|i: int, j: int| 0 <= i < j < r.len() implies r[i].0 != r[j].0 by {
            if j < m.len() {
                assert(r[i] == m[i] && r[j] == m[j]);
            } else {
                assert(r[i] == m[i] && r[j] == (k, v));
            }
        }
    }
}

/// Bind `k` to `v` in an object's pair list, replacing an existing binding;
/// distinct keys stay distinct.
pub fn obj_put(m: &mut Vec<(String, Json)>, k: String, v: Json)
    ensures
        view_obj(final(m)@) == obj_set(view_obj(old(m)@), k@, v@),
        obj_keys_unique(view_obj(old(m)@)) ==> obj_keys_unique(view_obj(final(m)@)),
{
    proof {
        if obj_keys_unique(view_obj(old(m)@)) {
            lemma_obj_set_unique(view_obj(old(m)@), k@, v@);
        }
    }
    let ghost ms = view_obj(old(m)@);
    proof {
        lemma_view_obj(old(m)@);
        assert(ms.skip(0) =~= ms);
        assert(ms.take(0) =~= Seq::<(Seq<char>, JsonV)>::empty());
    }
    let mut i: usize = 0;
    while i < m.len()
        invariant
            0 <= i <= m.len(),
            m@ == old(m)@,
            ms == view_obj(m@),
            ms.len() == m@.len(),
            forall|j: int| 0 <= j < ms.len() ==> ms[j] == (m@[j].0@, m@[j].1@),
            obj_set(ms, k@, v@) =~= ms.take(i as int) + obj_set(ms.skip(i as int), k@, v@),
        decreases m.len() - i,
    {
        proof {
            let sm = ms.skip(i as int);
            assert(sm[0] == ms[i as int]);
            assert(sm.drop_first() =~= ms.skip(i as int + 1));
        }
        if m[i].0.eq(&k) {
            proof {
                let sm = ms.skip(i as int);
                assert(obj_set(sm, k@, v@) =~= seq![(k@, v@)] + ms.skip(i as int + 1));
            }
            m.remove(i);
            m.insert(i, (k, v));
            proof {
                lemma_view_obj(m@);
                assert(view_obj(m@) =~= obj_set(ms, k@, v@));
            }
            return ;
        }
        proof {
            let sm = ms.skip(i as int);
            assert(obj_set(sm, k@, v@) =~= seq![sm[0]] + obj_set(sm.drop_first(), k@, v@));
            assert(ms.take(i as int + 1) =~= ms.take(i as int) + seq![ms[i as int]]);
            assert(ms.take(i as int) + obj_set(ms.skip(i as int), k@, v@) =~= ms.take(
                i as int + 1,
            ) + obj_set(ms.skip(i as int + 1), k@, v@));
        }
        i = i + 1;
    }
    proof {
        assert(ms.skip(i as int) =~= Seq::<(Seq<char>, JsonV)>::empty());
        assert(ms.take(i as int) =~= ms);
    }
    m.push((k, v));
    proof {
        lemma_view_obj(old(m)@);
        lemma_view_obj(m@);
        assert(view_obj(m@) =~= obj_set(ms, k@, v@));
    }
}

/// Compare two strings lexicographically by Unicode scalar value.
pub fn str_compare(x: &String, y: &String) -> (r: Cmp)
    ensures
        r == str_cmp(x@, y@),
{
    let xs = x.as_str();
    let ys = y.as_str();
    let xn: usize = xs.unicode_len();
    let yn: usize = ys.unicode_len();
    let mut i: usize = 0;
    proof {
        assert(x@.skip(0) =~= x@);
        assert(y@.skip(0) =~= y@);
    }
    loop
        invariant_except_break
            0 <= i <= xn && i <= yn,
            xn == x@.len() && yn == y@.len(),
            xs@ == x@ && ys@ == y@,
            str_cmp(x@, y@) == str_cmp(x@.skip(i as int), y@.skip(i as int)),
        ensures
            str_cmp(x@, y@) == str_cmp(x@.skip(i as int), y@.skip(i as int)),
            i <= xn && i <= yn && (i == xn || i == yn),
            xn == x@.len() && yn == y@.len(),
        decreases xn - i,
    {
        if i == xn || i == yn {
            break ;
        }
        let cx = xs.get_char(i);
        let cy = ys.get_char(i);
        proof {
            let sx = x@.skip(i as int);
            let sy = y@.skip(i as int);
            assert(sx[0] == x@[i as int] && sy[0] == y@[i as int]);
            assert(sx.drop_first() =~= x@.skip(i as int + 1));
            assert(sy.drop_first() =~= y@.skip(i as int + 1));
        }
        if cx < cy {
            return Cmp::Less;
        }
        if cy < cx {
            return Cmp::Greater;
        }
        i = i + 1;
    }
    proof {
        if i == xn {
            assert(x@.skip(i as int) =~= Seq::<char>::empty());
        }
        if i == yn {
            assert(y@.skip(i as int) =~= Seq::<char>::empty());
        }
    }
    if i == xn && i == yn {
        Cmp::Equal
    } else if i == xn {
        Cmp::Less
    } else {
        Cmp::Greater
    }
}

/// Compare two JSON values where their kinds are comparable.
pub fn cmp_json(a: &Json, b: &Json) -> (r: Result<Option<Cmp>, ()>)
    ensures
        r == json_cmp(a@, b@),
    decreases a,
{
    match (a, b) {
        (Json::Boolean(x), Json::Boolean(y)) => Ok(
            Some(
                if *x == *y {
                    Cmp::Equal
                } else if !*x {
                    Cmp::Less
                } else {
                    Cmp::Greater
                },
            ),
        ),
        (Json::Number(x), Json::Number(y)) => Ok(crate::num::num_cmp(*x, *y)),
        (Json::String(x), Json::String(y)) => Ok(Some(str_compare(x, y))),
        (Json::Array(x), Json::Array(y)) => cmp_arr(x, y),
        _ => Err(()),
    }
}

fn cmp_arr(x: &Vec<Json>, y: &Vec<Json>) -> (r: Result<Option<Cmp>, ()>)
    ensures
        r == arr_cmp(view_arr(x@), view_arr(y@)),
    decreases x,
{
    let ghost xs = view_arr(x@);
    let ghost ys = view_arr(y@);
    proof {
        lemma_view_arr(x@);
        lemma_view_arr(y@);
        assert(xs.skip(0) =~= xs);
        assert(ys.skip(0) =~= ys);
    }
    let mut i: usize = 0;
    loop
        invariant_except_break
            0 <= i <= x.len() && i <= y.len(),
            xs == view_arr(x@) && ys == view_arr(y@),
            xs.len() == x@.len() && ys.len() == y@.len(),
            forall|k: int| 0 <= k < xs.len() ==> xs[k] == x@[k]@,
            forall|k: int| 0 <= k < ys.len() ==> ys[k] == y@[k]@,
            arr_cmp(xs, ys) == arr_cmp(xs.skip(i as int), ys.skip(i as int)),
        ensures
            arr_cmp(xs, ys) == arr_cmp(xs.skip(i as int), ys.skip(i as int)),
            i <= x.len() && i <= y.len() && (i == x.len() || i == y.len()),
            xs.len() == x@.len() && ys.len() == y@.len(),
        decreases x.len() - i,
    {
        if i == x.len() || i == y.len() {
            break ;
        }
        proof {
            let sx = xs.skip(i as int);
            let sy = ys.skip(i as int);
            assert(sx[0] == xs[i as int] && sy[0] == ys[i as int]);
            assert(sx.drop_first() =~= xs.skip(i as int + 1));
            assert(sy.drop_first() =~= ys.skip(i as int + 1));
        }
        match cmp_json(&x[i], &y[i]) {
            Err(()) => {
                return Err(());
            },
            Ok(None) => {
                return Ok(None);
            },
            Ok(Some(Cmp::Equal)) => {},
            Ok(Some(o)) => {
                return Ok(Some(o));
            },
        }
        i = i + 1;
    }
    proof {
        if i == x.len() {
            assert(xs.skip(i as int) =~= Seq::<JsonV>::empty());
        }
        if i == y.len() {
            assert(ys.skip(i as int) =~= Seq::<JsonV>::empty());
        }
    }
    if i == x.len() && i == y.len() {
        Ok(Some(Cmp::Equal))
    } else if i == x.len() {
        Ok(Some(Cmp::Less))
    } else {
        Ok(Some(Cmp::Greater))
    }
}

} // verus!
