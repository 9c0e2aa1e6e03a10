//! The filter abstract syntax tree.
//!
//! `Jq` is the tagged tree that the filter parser builds and the interpreter
//! walks.  It is modelled by `JqV`; two trees are equal when their models
//! are, and the structural hash is a function of the model, so equal trees
//! hash alike.

use vstd::prelude::*;

use crate::json::{Json, JsonV, view_arr, view_obj, lemma_view_arr, lemma_view_obj};

verus! {

broadcast use vstd::seq::group_seq_axioms, vstd::std_specs::vec::group_vec_axioms,
    vstd::string::group_string_axioms;

/// A filter expression.
#[derive(Debug)]
pub enum Jq {
    /// A JSON literal: emits the value, whatever the input.
    Literal(Json),
    /// `[e]`: gathers every output of the children into one array.
    ArrayLit(Vec<Jq>),
    /// `{k: v, ...}`: one singleton object per key/value output pair.
    ObjectLit(Vec<(Jq, Jq)>),
    Pipe(Box<Jq>, Box<Jq>),
    Comma(Box<Jq>, Box<Jq>),
    /// A bare field name inside a chain.
    Id(String),
    /// `.a.b[0]` and the like: a sequence of chained accesses.
    IdChain(Vec<Jq>),
    Identity,
    /// The sentinel a pipe with an empty left side produces; same as Identity.
    Input,
    Optional(Box<Jq>),
    Iterator,
    Recursive,
    Parenthesis(Box<Jq>),
    Slice(Option<usize>, Option<usize>),
    Addition(Box<Jq>, Box<Jq>),
    Subtraction(Box<Jq>, Box<Jq>),
    Multiplication(Box<Jq>, Box<Jq>),
    Division(Box<Jq>, Box<Jq>),
    Modulo(Box<Jq>, Box<Jq>),
    Eq(Box<Jq>, Box<Jq>),
    NotEq(Box<Jq>, Box<Jq>),
    Gt(Box<Jq>, Box<Jq>),
    Gte(Box<Jq>, Box<Jq>),
    Lt(Box<Jq>, Box<Jq>),
    Lte(Box<Jq>, Box<Jq>),
    IfStatement(Box<Jq>, Box<Jq>, Option<Box<Jq>>),
    And(Box<Jq>, Box<Jq>),
    Or(Box<Jq>, Box<Jq>),
    Not(Box<Jq>),
    Alternative(Box<Jq>, Box<Jq>),
    Abs(Option<Box<Jq>>),
    Length(Option<Box<Jq>>),
    Keys(Option<Box<Jq>>),
    Has(Box<Jq>),
    In(Box<Jq>),
    MapFn(Box<Jq>),
}

/// The mathematical model of a filter expression.
pub enum JqV {
    Literal(JsonV),
    ArrayLit(Seq<JqV>),
    ObjectLit(Seq<(JqV, JqV)>),
    Pipe(Box<JqV>, Box<JqV>),
    Comma(Box<JqV>, Box<JqV>),
    Id(Seq<char>),
    IdChain(Seq<JqV>),
    Identity,
    Input,
    Optional(Box<JqV>),
    Iterator,
    Recursive,
    Parenthesis(Box<JqV>),
    Slice(Option<usize>, Option<usize>),
    Addition(Box<JqV>, Box<JqV>),
    Subtraction(Box<JqV>, Box<JqV>),
    Multiplication(Box<JqV>, Box<JqV>),
    Division(Box<JqV>, Box<JqV>),
    Modulo(Box<JqV>, Box<JqV>),
    Eq(Box<JqV>, Box<JqV>),
    NotEq(Box<JqV>, Box<JqV>),
    Gt(Box<JqV>, Box<JqV>),
    Gte(Box<JqV>, Box<JqV>),
    Lt(Box<JqV>, Box<JqV>),
    Lte(Box<JqV>, Box<JqV>),
    IfStatement(Box<JqV>, Box<JqV>, Option<Box<JqV>>),
    And(Box<JqV>, Box<JqV>),
    Or(Box<JqV>, Box<JqV>),
    Not(Box<JqV>),
    Alternative(Box<JqV>, Box<JqV>),
    Abs(Option<Box<JqV>>),
    Length(Option<Box<JqV>>),
    Keys(Option<Box<JqV>>),
    Has(Box<JqV>),
    In(Box<JqV>),
    MapFn(Box<JqV>),
}

pub open spec fn view_jq_seq(s: Seq<Jq>) -> Seq<JqV>
    decreases s,
{
    if s.len() == 0 {
        Seq::empty()
    } else {
        view_jq_seq(s.drop_last()).push(s.last()@)
    }
}

pub open spec fn view_jq_pairs(s: Seq<(Jq, Jq)>) -> Seq<(JqV, JqV)>
    decreases s,
{
    if s.len() == 0 {
        Seq::empty()
    } else {
        view_jq_pairs(s.drop_last()).push((s.last().0@, s.last().1@))
    }
}

impl View for Jq {
    type V = JqV;

    open spec fn view(&self) -> JqV
        decreases self,
    {
        match self {
            Jq::Literal(j) => JqV::Literal(j@),
            Jq::ArrayLit(xs) => JqV::ArrayLit(view_jq_seq(xs@)),
            Jq::ObjectLit(ps) => JqV::ObjectLit(view_jq_pairs(ps@)),
            Jq::Pipe(a, b) => JqV::Pipe(Box::new((**a)@), Box::new((**b)@)),
            Jq::Comma(a, b) => JqV::Comma(Box::new((**a)@), Box::new((**b)@)),
            Jq::Id(s) => JqV::Id(s@),
            Jq::IdChain(xs) => JqV::IdChain(view_jq_seq(xs@)),
            Jq::Identity => JqV::Identity,
            Jq::Input => JqV::Input,
            Jq::Optional(a) => JqV::Optional(Box::new((**a)@)),
            Jq::Iterator => JqV::Iterator,
            Jq::Recursive => JqV::Recursive,
            Jq::Parenthesis(a) => JqV::Parenthesis(Box::new((**a)@)),
            Jq::Slice(lo, ho) => JqV::Slice(*lo, *ho),
            Jq::Addition(a, b) => JqV::Addition(Box::new((**a)@), Box::new((**b)@)),
            Jq::Subtraction(a, b) => JqV::Subtraction(Box::new((**a)@), Box::new((**b)@)),
            Jq::Multiplication(a, b) => JqV::Multiplication(Box::new((**a)@), Box::new((**b)@)),
            Jq::Division(a, b) => JqV::Division(Box::new((**a)@), Box::new((**b)@)),
            Jq::Modulo(a, b) => JqV::Modulo(Box::new((**a)@), Box::new((**b)@)),
            Jq::Eq(a, b) => JqV::Eq(Box::new((**a)@), Box::new((**b)@)),
            Jq::NotEq(a, b) => JqV::NotEq(Box::new((**a)@), Box::new((**b)@)),
            Jq::Gt(a, b) => JqV::Gt(Box::new((**a)@), Box::new((**b)@)),
            Jq::Gte(a, b) => JqV::Gte(Box::new((**a)@), Box::new((**b)@)),
            Jq::Lt(a, b) => JqV::Lt(Box::new((**a)@), Box::new((**b)@)),
            Jq::Lte(a, b) => JqV::Lte(Box::new((**a)@), Box::new((**b)@)),
            Jq::IfStatement(c, t, e) => JqV::IfStatement(
                Box::new((**c)@),
                Box::new((**t)@),
                match e {
                    Some(x) => Some(Box::new((**x)@)),
                    None => None,
                },
            ),
            Jq::And(a, b) => JqV::And(Box::new((**a)@), Box::new((**b)@)),
            Jq::Or(a, b) => JqV::Or(Box::new((**a)@), Box::new((**b)@)),
            Jq::Not(a) => JqV::Not(Box::new((**a)@)),
            Jq::Alternative(a, b) => JqV::Alternative(Box::new((**a)@), Box::new((**b)@)),
            Jq::Abs(a) => JqV::Abs(
                match a {
                    Some(x) => Some(Box::new((**x)@)),
                    None => None,
                },
            ),
            Jq::Length(a) => JqV::Length(
                match a {
                    Some(x) => Some(Box::new((**x)@)),
                    None => None,
                },
            ),
            Jq::Keys(a) => JqV::Keys(
                match a {
                    Some(x) => Some(Box::new((**x)@)),
                    None => None,
                },
            ),
            Jq::Has(a) => JqV::Has(Box::new((**a)@)),
            Jq::In(a) => JqV::In(Box::new((**a)@)),
            Jq::MapFn(a) => JqV::MapFn(Box::new((**a)@)),
        }
    }
}

pub broadcast proof fn lemma_view_jq_seq(s: Seq<Jq>)
    ensures
        (#[trigger] view_jq_seq(s)).len() == s.len(),
        forall|i: int| 0 <= i < s.len() ==> view_jq_seq(s)[i] == s[i]@,
    decreases s,
{
    if s.len() > 0 {
        lemma_view_jq_seq(s.drop_last());
        assert(view_jq_seq(s) == view_jq_seq(s.drop_last()).push(s.last()@));
        assert forall|i: int| 0 <= i < s.len() implies view_jq_seq(s)[i] == s[i]@ by {
            if i < s.len() - 1 {
                assert(s.drop_last()[i] == s[i]);
            } else {
                assert(s[i] == s.last());
            }
        }
    }
}

pub broadcast proof fn lemma_view_jq_pairs(s: Seq<(Jq, Jq)>)
    ensures
        (#[trigger] view_jq_pairs(s)).len() == s.len(),
        forall|i: int| 0 <= i < s.len() ==> view_jq_pairs(s)[i] == (s[i].0@, s[i].1@),
    decreases s,
{
    if s.len() > 0 {
        lemma_view_jq_pairs(s.drop_last());
        assert(view_jq_pairs(s) == view_jq_pairs(s.drop_last()).push((s.last().0@, s.last().1@)));
        assert forall|i: int| 0 <= i < s.len() implies view_jq_pairs(s)[i] == (s[i].0@, s[i].1@)
            by {
            if i < s.len() - 1 {
                assert(s.drop_last()[i] == s[i]);
            } else {
                assert(s[i] == s.last());
            }
        }
    }
}

/// Structural equality of two JSON values, bit for bit and in stored order;
/// this is the equality of the models themselves.
pub fn eq_json_strict(a: &Json, b: &Json) -> (r: bool)
    ensures
        r == (a@ == b@),
    decreases a,
{
    match (a, b) {
        (Json::Null, Json::Null) => true,
        (Json::Boolean(x), Json::Boolean(y)) => *x == *y,
        (Json::Number(x), Json::Number(y)) => *x == *y,
        (Json::String(x), Json::String(y)) => x.eq(y),
        (Json::Array(x), Json::Array(y)) => eq_arr_strict(x, y),
        (Json::Object(x), Json::Object(y)) => eq_obj_strict(x, y),
        _ => false,
    }
}

fn eq_arr_strict(x: &Vec<Json>, y: &Vec<Json>) -> (r: bool)
    ensures
        r == (view_arr(x@) == view_arr(y@)),
    decreases x,
{
    proof {
        lemma_view_arr(x@);
        lemma_view_arr(y@);
    }
    if x.len() != y.len() {
        return false;
    }
    let mut i: usize = 0;
    while i < x.len()
        invariant
            0 <= i <= x.len(),
            x@.len() == y@.len(),
            view_arr(x@).len() == x@.len() && view_arr(y@).len() == y@.len(),
            forall|k: int| 0 <= k < x@.len() ==> view_arr(x@)[k] == x@[k]@,
            forall|k: int| 0 <= k < y@.len() ==> view_arr(y@)[k] == y@[k]@,
            forall|k: int| 0 <= k < i ==> x@[k]@ == y@[k]@,
        decreases x.len() - i,
    {
        if !eq_json_strict(&x[i], &y[i]) {
            proof {
                assert(view_arr(x@)[i as int] != view_arr(y@)[i as int]);
            }
            return false;
        }
        i = i + 1;
    }
    proof {
        assert(view_arr(x@) =~= view_arr(y@));
    }
    true
}

fn eq_obj_strict(x: &Vec<(String, Json)>, y: &Vec<(String, Json)>) -> (r: bool)
    ensures
        r == (view_obj(x@) == view_obj(y@)),
    decreases x,
{
    proof {
        lemma_view_obj(x@);
        lemma_view_obj(y@);
    }
    if x.len() != y.len() {
        return false;
    }
    let mut i: usize = 0;
    while i < x.len()
        invariant
            0 <= i <= x.len(),
            x@.len() == y@.len(),
            view_obj(x@).len() == x@.len() && view_obj(y@).len() == y@.len(),
            forall|k: int| 0 <= k < x@.len() ==> view_obj(x@)[k] == (x@[k].0@, x@[k].1@),
            forall|k: int| 0 <= k < y@.len() ==> view_obj(y@)[k] == (y@[k].0@, y@[k].1@),
            forall|k: int| 0 <= k < i ==> x@[k].0@ == y@[k].0@ && x@[k].1@ == y@[k].1@,
        decreases x.len() - i,
    {
        if !x[i].0.eq(&y[i].0) {
            proof {
                assert(view_obj(x@)[i as int] != view_obj(y@)[i as int]);
            }
            return false;
        }
        if !eq_json_strict(&x[i].1, &y[i].1) {
            proof {
                assert(view_obj(x@)[i as int] != view_obj(y@)[i as int]);
            }
            return false;
        }
        i = i + 1;
    }
    proof {
        assert(view_obj(x@) =~= view_obj(y@));
    }
    true
}

fn eq_opt_box(a: &Option<Box<Jq>>, b: &Option<Box<Jq>>) -> (r: bool)
    ensures
        r == (match (a, b) {
            (Some(x), Some(y)) => (**x)@ == (**y)@,
            (None, None) => true,
            _ => false,
        }),
    decreases a,
{
    match (a, b) {
        (Some(x), Some(y)) => eq_jq(x, y),
        (None, None) => true,
        _ => false,
    }
}

fn eq_jq_seq(x: &Vec<Jq>, y: &Vec<Jq>) -> (r: bool)
    ensures
        r == (view_jq_seq(x@) == view_jq_seq(y@)),
    decreases x,
{
    proof {
        lemma_view_jq_seq(x@);
        lemma_view_jq_seq(y@);
    }
    if x.len() != y.len() {
        return false;
    }
    let mut i: usize = 0;
    while i < x.len()
        invariant
            0 <= i <= x.len(),
            x@.len() == y@.len(),
            view_jq_seq(x@).len() == x@.len() && view_jq_seq(y@).len() == y@.len(),
            forall|k: int| 0 <= k < x@.len() ==> view_jq_seq(x@)[k] == x@[k]@,
            forall|k: int| 0 <= k < y@.len() ==> view_jq_seq(y@)[k] == y@[k]@,
            forall|k: int| 0 <= k < i ==> x@[k]@ == y@[k]@,
        decreases x.len() - i,
    {
        if !eq_jq(&x[i], &y[i]) {
            proof {
                assert(view_jq_seq(x@)[i as int] != view_jq_seq(y@)[i as int]);
            }
            return false;
        }
        i = i + 1;
    }
    proof {
        assert(view_jq_seq(x@) =~= view_jq_seq(y@));
    }
    true
}

fn eq_jq_pairs(x: &Vec<(Jq, Jq)>, y: &Vec<(Jq, Jq)>) -> (r: bool)
    ensures
        r == (view_jq_pairs(x@) == view_jq_pairs(y@)),
    decreases x,
{
    proof {
        lemma_view_jq_pairs(x@);
        lemma_view_jq_pairs(y@);
    }
    if x.len() != y.len() {
        return false;
    }
    let mut i: usize = 0;
    while i < x.len()
        invariant
            0 <= i <= x.len(),
            x@.len() == y@.len(),
            view_jq_pairs(x@).len() == x@.len() && view_jq_pairs(y@).len() == y@.len(),
            forall|k: int| 0 <= k < x@.len() ==> view_jq_pairs(x@)[k] == (x@[k].0@, x@[k].1@),
            forall|k: int| 0 <= k < y@.len() ==> view_jq_pairs(y@)[k] == (y@[k].0@, y@[k].1@),
            forall|k: int| 0 <= k < i ==> x@[k].0@ == y@[k].0@ && x@[k].1@ == y@[k].1@,
        decreases x.len() - i,
    {
        if !eq_jq(&x[i].0, &y[i].0) {
            proof {
                assert(view_jq_pairs(x@)[i as int] != view_jq_pairs(y@)[i as int]);
            }
            return false;
        }
        if !eq_jq(&x[i].1, &y[i].1) {
            proof {
                assert(view_jq_pairs(x@)[i as int] != view_jq_pairs(y@)[i as int]);
            }
            return false;
        }
        i = i + 1;
    }
    proof {
        assert(view_jq_pairs(x@) =~= view_jq_pairs(y@));
    }
    true
}

fn eq_opt_usize(a: &Option<usize>, b: &Option<usize>) -> (r: bool)
    ensures
        r == (a == b),
{
    match (a, b) {
        (Some(x), Some(y)) => *x == *y,
        (None, None) => true,
        _ => false,
    }
}

/// Structural equality of two filter trees: equality of their models.
pub fn eq_jq(a: &Jq, b: &Jq) -> (r: bool)
    ensures
        r == (a@ == b@),
    decreases a,
{
    match (a, b) {
        (Jq::Literal(x), Jq::Literal(y)) => eq_json_strict(x, y),
        (Jq::ArrayLit(x), Jq::ArrayLit(y)) => eq_jq_seq(x, y),
        (Jq::ObjectLit(x), Jq::ObjectLit(y)) => eq_jq_pairs(x, y),
        (Jq::Pipe(a1, b1), Jq::Pipe(a2, b2)) => eq_jq(a1, a2) && eq_jq(b1, b2),
        (Jq::Comma(a1, b1), Jq::Comma(a2, b2)) => eq_jq(a1, a2) && eq_jq(b1, b2),
        (Jq::Id(x), Jq::Id(y)) => x.eq(y),
        (Jq::IdChain(x), Jq::IdChain(y)) => eq_jq_seq(x, y),
        (Jq::Identity, Jq::Identity) => true,
        (Jq::Input, Jq::Input) => true,
        (Jq::Optional(x), Jq::Optional(y)) => eq_jq(x, y),
        (Jq::Iterator, Jq::Iterator) => true,
        (Jq::Recursive, Jq::Recursive) => true,
        (Jq::Parenthesis(x), Jq::Parenthesis(y)) => eq_jq(x, y),
        (Jq::Slice(l1, h1), Jq::Slice(l2, h2)) => eq_opt_usize(l1, l2) && eq_opt_usize(h1, h2),
        (Jq::Addition(a1, b1), Jq::Addition(a2, b2)) => eq_jq(a1, a2) && eq_jq(b1, b2),
        (Jq::Subtraction(a1, b1), Jq::Subtraction(a2, b2)) => eq_jq(a1, a2) && eq_jq(b1, b2),
        (Jq::Multiplication(a1, b1), Jq::Multiplication(a2, b2)) => eq_jq(a1, a2) && eq_jq(
            b1,
            b2,
        ),
        (Jq::Division(a1, b1), Jq::Division(a2, b2)) => eq_jq(a1, a2) && eq_jq(b1, b2),
        (Jq::Modulo(a1, b1), Jq::Modulo(a2, b2)) => eq_jq(a1, a2) && eq_jq(b1, b2),
        (Jq::Eq(a1, b1), Jq::Eq(a2, b2)) => eq_jq(a1, a2) && eq_jq(b1, b2),
        (Jq::NotEq(a1, b1), Jq::NotEq(a2, b2)) => eq_jq(a1, a2) && eq_jq(b1, b2),
        (Jq::Gt(a1, b1), Jq::Gt(a2, b2)) => eq_jq(a1, a2) && eq_jq(b1, b2),
        (Jq::Gte(a1, b1), Jq::Gte(a2, b2)) => eq_jq(a1, a2) && eq_jq(b1, b2),
        (Jq::Lt(a1, b1), Jq::Lt(a2, b2)) => eq_jq(a1, a2) && eq_jq(b1, b2),
        (Jq::Lte(a1, b1), Jq::Lte(a2, b2)) => eq_jq(a1, a2) && eq_jq(b1, b2),
        (Jq::IfStatement(c1, t1, e1), Jq::IfStatement(c2, t2, e2)) => eq_jq(c1, c2) && eq_jq(
            t1,
            t2,
        ) && eq_opt_box(e1, e2),
        (Jq::And(a1, b1), Jq::And(a2, b2)) => eq_jq(a1, a2) && eq_jq(b1, b2),
        (Jq::Or(a1, b1), Jq::Or(a2, b2)) => eq_jq(a1, a2) && eq_jq(b1, b2),
        (Jq::Not(x), Jq::Not(y)) => eq_jq(x, y),
        (Jq::Alternative(a1, b1), Jq::Alternative(a2, b2)) => eq_jq(a1, a2) && eq_jq(b1, b2),
        (Jq::Abs(x), Jq::Abs(y)) => eq_opt_box(x, y),
        (Jq::Length(x), Jq::Length(y)) => eq_opt_box(x, y),
        (Jq::Keys(x), Jq::Keys(y)) => eq_opt_box(x, y),
        (Jq::Has(x), Jq::Has(y)) => eq_jq(x, y),
        (Jq::In(x), Jq::In(y)) => eq_jq(x, y),
        (Jq::MapFn(x), Jq::MapFn(y)) => eq_jq(x, y),
        _ => false,
    }
}

impl PartialEq for Jq {
    /// Structural equality of the trees; equality of the models, by
    /// `eq_spec` below.
    fn eq(&self, other: &Self) -> (r: bool) {
        eq_jq(self, other)
    }
}

impl vstd::std_specs::cmp::PartialEqSpecImpl for Jq {
    open spec fn obeys_eq_spec() -> bool {
        true
    }

    open spec fn eq_spec(&self, other: &Self) -> bool {
        self@ == other@
    }
}

/// One mixing step of the structural hash: multiply and add, wrapping.
pub open spec fn mix(h: u64, x: u64) -> u64 {
    vstd::wrapping::u64_specs::wrapping_add(vstd::wrapping::u64_specs::wrapping_mul(h, 31), x)
}

fn mix_exec(h: u64, x: u64) -> (r: u64)
    ensures
        r == mix(h, x),
{
    h.wrapping_mul(31).wrapping_add(x)
}

pub open spec fn hash_chars(s: Seq<char>) -> u64
    decreases s.len(),
{
    if s.len() == 0 {
        7
    } else {
        mix(hash_chars(s.drop_last()), s.last() as u64)
    }
}

pub open spec fn hash_json_seq(s: Seq<JsonV>) -> u64
    decreases s,
{
    if s.len() == 0 {
        8
    } else {
        mix(hash_json_seq(s.drop_last()), hash_json(s.last()))
    }
}

pub open spec fn hash_json_obj(s: Seq<(Seq<char>, JsonV)>) -> u64
    decreases s,
{
    if s.len() == 0 {
        9
    } else {
        mix(mix(hash_json_obj(s.drop_last()), hash_chars(s.last().0)), hash_json(s.last().1))
    }
}

/// Structural hash of a JSON value's model.
pub open spec fn hash_json(v: JsonV) -> u64
    decreases v,
{
    match v {
        JsonV::Null => 1,
        JsonV::Boolean(b) => mix(
            2,
            if b {
                1
            } else {
                0
            },
        ),
        JsonV::Number(n) => mix(3, n),
        JsonV::String(s) => mix(4, hash_chars(s)),
        JsonV::Array(a) => mix(5, hash_json_seq(a)),
        JsonV::Object(m) => mix(6, hash_json_obj(m)),
    }
}

pub open spec fn hash_opt_usize(o: Option<usize>) -> u64 {
    match o {
        None => 24,
        Some(n) => mix(25, n as u64),
    }
}

pub open spec fn hash_opt_jqv(o: Option<Box<JqV>>) -> u64
    decreases o,
{
    match o {
        None => 54,
        Some(x) => mix(55, hash_jqv(*x)),
    }
}

pub open spec fn hash_jqv_seq(s: Seq<JqV>) -> u64
    decreases s,
{
    if s.len() == 0 {
        13
    } else {
        mix(hash_jqv_seq(s.drop_last()), hash_jqv(s.last()))
    }
}

pub open spec fn hash_jqv_pairs(s: Seq<(JqV, JqV)>) -> u64
    decreases s,
{
    if s.len() == 0 {
        14
    } else {
        mix(mix(hash_jqv_pairs(s.drop_last()), hash_jqv(s.last().0)), hash_jqv(s.last().1))
    }
}

/// Structural hash of a filter tree's model: a total function of the model,
/// so equal trees always hash alike.
pub open spec fn hash_jqv(v: JqV) -> u64
    decreases v,
{
    match v {
        JqV::Literal(j) => mix(10, hash_json(j)),
        JqV::ArrayLit(xs) => mix(11, hash_jqv_seq(xs)),
        JqV::ObjectLit(ps) => mix(12, hash_jqv_pairs(ps)),
        JqV::Id(s) => mix(15, hash_chars(s)),
        JqV::IdChain(xs) => mix(16, hash_jqv_seq(xs)),
        JqV::Identity => 17,
        JqV::Input => 18,
        JqV::Iterator => 20,
        JqV::Recursive => 21,
        JqV::Slice(lo, ho) => mix(mix(23, hash_opt_usize(lo)), hash_opt_usize(ho)),
        JqV::Pipe(a, b) => mix(mix(26, hash_jqv(*a)), hash_jqv(*b)),
        JqV::Comma(a, b) => mix(mix(27, hash_jqv(*a)), hash_jqv(*b)),
        JqV::Addition(a, b) => mix(mix(28, hash_jqv(*a)), hash_jqv(*b)),
        JqV::Subtraction(a, b) => mix(mix(29, hash_jqv(*a)), hash_jqv(*b)),
        JqV::Multiplication(a, b) => mix(mix(30, hash_jqv(*a)), hash_jqv(*b)),
        JqV::Division(a, b) => mix(mix(31, hash_jqv(*a)), hash_jqv(*b)),
        JqV::Modulo(a, b) => mix(mix(32, hash_jqv(*a)), hash_jqv(*b)),
        JqV::Eq(a, b) => mix(mix(33, hash_jqv(*a)), hash_jqv(*b)),
        JqV::NotEq(a, b) => mix(mix(34, hash_jqv(*a)), hash_jqv(*b)),
        JqV::Gt(a, b) => mix(mix(35, hash_jqv(*a)), hash_jqv(*b)),
        JqV::Gte(a, b) => mix(mix(36, hash_jqv(*a)), hash_jqv(*b)),
        JqV::Lt(a, b) => mix(mix(37, hash_jqv(*a)), hash_jqv(*b)),
        JqV::Lte(a, b) => mix(mix(38, hash_jqv(*a)), hash_jqv(*b)),
        JqV::And(a, b) => mix(mix(39, hash_jqv(*a)), hash_jqv(*b)),
        JqV::Or(a, b) => mix(mix(40, hash_jqv(*a)), hash_jqv(*b)),
        JqV::Alternative(a, b) => mix(mix(41, hash_jqv(*a)), hash_jqv(*b)),
        JqV::Optional(a) => mix(42, hash_jqv(*a)),
        JqV::Parenthesis(a) => mix(43, hash_jqv(*a)),
        JqV::Not(a) => mix(44, hash_jqv(*a)),
        JqV::Has(a) => mix(45, hash_jqv(*a)),
        JqV::In(a) => mix(46, hash_jqv(*a)),
        JqV::MapFn(a) => mix(47, hash_jqv(*a)),
        JqV::IfStatement(c, th, e) => mix(mix(mix(48, hash_jqv(*c)), hash_jqv(*th)), hash_opt_jqv(e)),
        JqV::Abs(a) => mix(48, hash_opt_jqv(a)),
        JqV::Length(a) => mix(49, hash_opt_jqv(a)),
        JqV::Keys(a) => mix(50, hash_opt_jqv(a)),
    }
}

fn hash_chars_exec(s: &String) -> (r: u64)
    ensures
        r == hash_chars(s@),
{
    let t = s.as_str();
    let n: usize = t.unicode_len();
    let mut h: u64 = 7;
    let mut i: usize = 0;
    proof {
        assert(s@.take(0) =~= Seq::<char>::empty());
    }
    while i < n
        invariant
            0 <= i <= n,
            n == s@.len(),
            t@ == s@,
            h == hash_chars(s@.take(i as int)),
        decreases n - i,
    {
        let c = t.get_char(i);
        proof {
            assert(s@.take(i as int + 1).drop_last() =~= s@.take(i as int));
            assert(s@.take(i as int + 1).last() == s@[i as int]);
        }
        h = mix_exec(h, c as u64);
        i = i + 1;
    }
    proof {
        assert(s@.take(n as int) =~= s@);
    }
    h
}

fn hash_json_seq_exec(x: &Vec<Json>) -> (r: u64)
    ensures
        r == hash_json_seq(view_arr(x@)),
    decreases x,
{
    let ghost vs = view_arr(x@);
    proof {
        lemma_view_arr(x@);
        assert(vs.take(0) =~= Seq::<JsonV>::empty());
    }
    let mut h: u64 = 8;
    let mut i: usize = 0;
    while i < x.len()
        invariant
            0 <= i <= x.len(),
            vs == view_arr(x@),
            vs.len() == x@.len(),
            forall|k: int| 0 <= k < vs.len() ==> vs[k] == x@[k]@,
            h == hash_json_seq(vs.take(i as int)),
        decreases x.len() - i,
    {
        proof {
            assert(vs.take(i as int + 1).drop_last() =~= vs.take(i as int));
            assert(vs.take(i as int + 1).last() == vs[i as int]);
        }
        let hj = hash_json_exec(&x[i]);
        h = mix_exec(h, hj);
        i = i + 1;
    }
    proof {
        assert(vs.take(x@.len() as int) =~= vs);
    }
    h
}

fn hash_json_obj_exec(x: &Vec<(String, Json)>) -> (r: u64)
    ensures
        r == hash_json_obj(view_obj(x@)),
    decreases x,
{
    let ghost vs = view_obj(x@);
    proof {
        lemma_view_obj(x@);
        assert(vs.take(0) =~= Seq::<(Seq<char>, JsonV)>::empty());
    }
    let mut h: u64 = 9;
    let mut i: usize = 0;
    while i < x.len()
        invariant
            0 <= i <= x.len(),
            vs == view_obj(x@),
            vs.len() == x@.len(),
            forall|k: int| 0 <= k < vs.len() ==> vs[k] == (x@[k].0@, x@[k].1@),
            h == hash_json_obj(vs.take(i as int)),
        decreases x.len() - i,
    {
        proof {
            assert(vs.take(i as int + 1).drop_last() =~= vs.take(i as int));
            assert(vs.take(i as int + 1).last() == vs[i as int]);
        }
        let hk = hash_chars_exec(&x[i].0);
        let hv = hash_json_exec(&x[i].1);
        h = mix_exec(mix_exec(h, hk), hv);
        i = i + 1;
    }
    proof {
        assert(vs.take(x@.len() as int) =~= vs);
    }
    h
}

/// Structural hash of a JSON value.
pub fn hash_json_exec(j: &Json) -> (r: u64)
    ensures
        r == hash_json(j@),
    decreases j,
{
    match j {
        Json::Null => 1,
        Json::Boolean(b) => mix_exec(
            2,
            if *b {
                1
            } else {
                0
            },
        ),
        Json::Number(n) => mix_exec(3, *n),
        Json::String(s) => mix_exec(4, hash_chars_exec(s)),
        Json::Array(a) => mix_exec(5, hash_json_seq_exec(a)),
        Json::Object(m) => mix_exec(6, hash_json_obj_exec(m)),
    }
}

fn hash_opt_usize_exec(o: &Option<usize>) -> (r: u64)
    ensures
        r == hash_opt_usize(*o),
{
    match o {
        None => 24,
        Some(n) => mix_exec(25, *n as u64),
    }
}

fn hash_opt_jq_exec(o: &Option<Box<Jq>>) -> (r: u64)
    ensures
        r == hash_opt_jqv(match o {
            Some(x) => Some(Box::new((**x)@)),
            None => None,
        }),
    decreases o,
{
    match o {
        None => 54,
        Some(x) => mix_exec(55, hash_jq_rec(x)),
    }
}

fn hash_jq_seq_exec(x: &Vec<Jq>) -> (r: u64)
    ensures
        r == hash_jqv_seq(view_jq_seq(x@)),
    decreases x,
{
    let ghost vs = view_jq_seq(x@);
    proof {
        lemma_view_jq_seq(x@);
        assert(vs.take(0) =~= Seq::<JqV>::empty());
    }
    let mut h: u64 = 13;
    let mut i: usize = 0;
    while i < x.len()
        invariant
            0 <= i <= x.len(),
            vs == view_jq_seq(x@),
            vs.len() == x@.len(),
            forall|k: int| 0 <= k < vs.len() ==> vs[k] == x@[k]@,
            h == hash_jqv_seq(vs.take(i as int)),
        decreases x.len() - i,
    {
        proof {
            assert(vs.take(i as int + 1).drop_last() =~= vs.take(i as int));
            assert(vs.take(i as int + 1).last() == vs[i as int]);
        }
        let hj = hash_jq_rec(&x[i]);
        h = mix_exec(h, hj);
        i = i + 1;
    }
    proof {
        assert(vs.take(x@.len() as int) =~= vs);
    }
    h
}

fn hash_jq_pairs_exec(x: &Vec<(Jq, Jq)>) -> (r: u64)
    ensures
        r == hash_jqv_pairs(view_jq_pairs(x@)),
    decreases x,
{
    let ghost vs = view_jq_pairs(x@);
    proof {
        lemma_view_jq_pairs(x@);
        assert(vs.take(0) =~= Seq::<(JqV, JqV)>::empty());
    }
    let mut h: u64 = 14;
    let mut i: usize = 0;
    while i < x.len()
        invariant
            0 <= i <= x.len(),
            vs == view_jq_pairs(x@),
            vs.len() == x@.len(),
            forall|k: int| 0 <= k < vs.len() ==> vs[k] == (x@[k].0@, x@[k].1@),
            h == hash_jqv_pairs(vs.take(i as int)),
        decreases x.len() - i,
    {
        proof {
            assert(vs.take(i as int + 1).drop_last() =~= vs.take(i as int));
            assert(vs.take(i as int + 1).last() == vs[i as int]);
        }
        let hk = hash_jq_rec(&x[i].0);
        let hv = hash_jq_rec(&x[i].1);
        h = mix_exec(mix_exec(h, hk), hv);
        i = i + 1;
    }
    proof {
        assert(vs.take(x@.len() as int) =~= vs);
    }
    h
}

fn hash_jq_rec(j: &Jq) -> (r: u64)
    ensures
        r == hash_jqv(j@),
    decreases j,
{
    match j {
        Jq::Literal(j) => mix_exec(10, hash_json_exec(j)),
        Jq::ArrayLit(xs) => mix_exec(11, hash_jq_seq_exec(xs)),
        Jq::ObjectLit(ps) => mix_exec(12, hash_jq_pairs_exec(ps)),
        Jq::Id(s) => mix_exec(15, hash_chars_exec(s)),
        Jq::IdChain(xs) => mix_exec(16, hash_jq_seq_exec(xs)),
        Jq::Identity => 17,
        Jq::Input => 18,
        Jq::Iterator => 20,
        Jq::Recursive => 21,
        Jq::Slice(lo, ho) => mix_exec(mix_exec(23, hash_opt_usize_exec(lo)), hash_opt_usize_exec(ho)),
        Jq::Pipe(a, b) => mix_exec(mix_exec(26, hash_jq_rec(a)), hash_jq_rec(b)),
        Jq::Comma(a, b) => mix_exec(mix_exec(27, hash_jq_rec(a)), hash_jq_rec(b)),
        Jq::Addition(a, b) => mix_exec(mix_exec(28, hash_jq_rec(a)), hash_jq_rec(b)),
        Jq::Subtraction(a, b) => mix_exec(mix_exec(29, hash_jq_rec(a)), hash_jq_rec(b)),
        Jq::Multiplication(a, b) => mix_exec(mix_exec(30, hash_jq_rec(a)), hash_jq_rec(b)),
        Jq::Division(a, b) => mix_exec(mix_exec(31, hash_jq_rec(a)), hash_jq_rec(b)),
        Jq::Modulo(a, b) => mix_exec(mix_exec(32, hash_jq_rec(a)), hash_jq_rec(b)),
        Jq::Eq(a, b) => mix_exec(mix_exec(33, hash_jq_rec(a)), hash_jq_rec(b)),
        Jq::NotEq(a, b) => mix_exec(mix_exec(34, hash_jq_rec(a)), hash_jq_rec(b)),
        Jq::Gt(a, b) => mix_exec(mix_exec(35, hash_jq_rec(a)), hash_jq_rec(b)),
        Jq::Gte(a, b) => mix_exec(mix_exec(36, hash_jq_rec(a)), hash_jq_rec(b)),
        Jq::Lt(a, b) => mix_exec(mix_exec(37, hash_jq_rec(a)), hash_jq_rec(b)),
        Jq::Lte(a, b) => mix_exec(mix_exec(38, hash_jq_rec(a)), hash_jq_rec(b)),
        Jq::And(a, b) => mix_exec(mix_exec(39, hash_jq_rec(a)), hash_jq_rec(b)),
        Jq::Or(a, b) => mix_exec(mix_exec(40, hash_jq_rec(a)), hash_jq_rec(b)),
        Jq::Alternative(a, b) => mix_exec(mix_exec(41, hash_jq_rec(a)), hash_jq_rec(b)),
        Jq::Optional(a) => mix_exec(42, hash_jq_rec(a)),
        Jq::Parenthesis(a) => mix_exec(43, hash_jq_rec(a)),
        Jq::Not(a) => mix_exec(44, hash_jq_rec(a)),
        Jq::Has(a) => mix_exec(45, hash_jq_rec(a)),
        Jq::In(a) => mix_exec(46, hash_jq_rec(a)),
        Jq::MapFn(a) => mix_exec(47, hash_jq_rec(a)),
        Jq::IfStatement(c, th, e) => mix_exec(mix_exec(mix_exec(48, hash_jq_rec(c)), hash_jq_rec(th)), hash_opt_jq_exec(e)),
        Jq::Abs(a) => mix_exec(48, hash_opt_jq_exec(a)),
        Jq::Length(a) => mix_exec(49, hash_opt_jq_exec(a)),
        Jq::Keys(a) => mix_exec(50, hash_opt_jq_exec(a)),
    }
}

impl Jq {
    /// Structural hash of the tree: a function of the tree's model alone.
    pub fn hash(&self) -> (r: u64)
        ensures
            r == hash_jqv(self@),
    {
        hash_jq_rec(self)
    }
}

fn clone_opt_usize(o: &Option<usize>) -> (r: Option<usize>)
    ensures
        r == *o,
{
    match o {
        None => None,
        Some(n) => Some(*n),
    }
}

fn clone_opt_jq(o: &Option<Box<Jq>>) -> (r: Option<Box<Jq>>)
    ensures
        match (o, r) {
            (Some(x), Some(y)) => (**x)@ == (*y)@,
            (None, None) => true,
            _ => false,
        },
    decreases o,
{
    match o {
        None => None,
        Some(x) => Some(Box::new(clone_jq(x))),
    }
}

fn clone_jq_seq(x: &Vec<Jq>) -> (r: Vec<Jq>)
    ensures
        view_jq_seq(r@) == view_jq_seq(x@),
        r@.len() == x@.len(),
    decreases x,
{
    let mut v: Vec<Jq> = Vec::new();
    let mut i: usize = 0;
    while i < x.len()
        invariant
            0 <= i <= x.len(),
            v@.len() == i,
            forall|k: int| 0 <= k < i ==> v@[k]@ == x@[k]@,
        decreases x.len() - i,
    {
        v.push(clone_jq(&x[i]));
        i = i + 1;
    }
    proof {
        lemma_view_jq_seq(v@);
        lemma_view_jq_seq(x@);
        assert(view_jq_seq(v@) =~= view_jq_seq(x@));
    }
    v
}

fn clone_jq_pairs(x: &Vec<(Jq, Jq)>) -> (r: Vec<(Jq, Jq)>)
    ensures
        view_jq_pairs(r@) == view_jq_pairs(x@),
        r@.len() == x@.len(),
    decreases x,
{
    let mut v: Vec<(Jq, Jq)> = Vec::new();
    let mut i: usize = 0;
    while i < x.len()
        invariant
            0 <= i <= x.len(),
            v@.len() == i,
            forall|k: int| 0 <= k < i ==> v@[k].0@ == x@[k].0@ && v@[k].1@ == x@[k].1@,
        decreases x.len() - i,
    {
        let a = clone_jq(&x[i].0);
        let b = clone_jq(&x[i].1);
        v.push((a, b));
        i = i + 1;
    }
    proof {
        lemma_view_jq_pairs(v@);
        lemma_view_jq_pairs(x@);
        assert(view_jq_pairs(v@) =~= view_jq_pairs(x@));
    }
    v
}

/// Deep copy of a filter tree, keeping its model.
pub fn clone_jq(j: &Jq) -> (r: Jq)
    ensures
        r@ == j@,
    decreases j,
{
    match j {
        Jq::Literal(j) => Jq::Literal(crate::json::clone_json(j)),
        Jq::ArrayLit(xs) => Jq::ArrayLit(clone_jq_seq(xs)),
        Jq::ObjectLit(ps) => Jq::ObjectLit(clone_jq_pairs(ps)),
        Jq::Id(s) => Jq::Id(s.clone()),
        Jq::IdChain(xs) => Jq::IdChain(clone_jq_seq(xs)),
        Jq::Identity => Jq::Identity,
        Jq::Input => Jq::Input,
        Jq::Iterator => Jq::Iterator,
        Jq::Recursive => Jq::Recursive,
        Jq::Slice(lo, ho) => Jq::Slice(clone_opt_usize(lo), clone_opt_usize(ho)),
        Jq::Pipe(a, b) => Jq::Pipe(Box::new(clone_jq(a)), Box::new(clone_jq(b))),
        Jq::Comma(a, b) => Jq::Comma(Box::new(clone_jq(a)), Box::new(clone_jq(b))),
        Jq::Addition(a, b) => Jq::Addition(Box::new(clone_jq(a)), Box::new(clone_jq(b))),
        Jq::Subtraction(a, b) => Jq::Subtraction(Box::new(clone_jq(a)), Box::new(clone_jq(b))),
        Jq::Multiplication(a, b) => Jq::Multiplication(Box::new(clone_jq(a)), Box::new(clone_jq(b))),
        Jq::Division(a, b) => Jq::Division(Box::new(clone_jq(a)), Box::new(clone_jq(b))),
        Jq::Modulo(a, b) => Jq::Modulo(Box::new(clone_jq(a)), Box::new(clone_jq(b))),
        Jq::Eq(a, b) => Jq::Eq(Box::new(clone_jq(a)), Box::new(clone_jq(b))),
        Jq::NotEq(a, b) => Jq::NotEq(Box::new(clone_jq(a)), Box::new(clone_jq(b))),
        Jq::Gt(a, b) => Jq::Gt(Box::new(clone_jq(a)), Box::new(clone_jq(b))),
        Jq::Gte(a, b) => Jq::Gte(Box::new(clone_jq(a)), Box::new(clone_jq(b))),
        Jq::Lt(a, b) => Jq::Lt(Box::new(clone_jq(a)), Box::new(clone_jq(b))),
        Jq::Lte(a, b) => Jq::Lte(Box::new(clone_jq(a)), Box::new(clone_jq(b))),
        Jq::And(a, b) => Jq::And(Box::new(clone_jq(a)), Box::new(clone_jq(b))),
        Jq::Or(a, b) => Jq::Or(Box::new(clone_jq(a)), Box::new(clone_jq(b))),
        Jq::Alternative(a, b) => Jq::Alternative(Box::new(clone_jq(a)), Box::new(clone_jq(b))),
        Jq::Optional(a) => Jq::Optional(Box::new(clone_jq(a))),
        Jq::Parenthesis(a) => Jq::Parenthesis(Box::new(clone_jq(a))),
        Jq::Not(a) => Jq::Not(Box::new(clone_jq(a))),
        Jq::Has(a) => Jq::Has(Box::new(clone_jq(a))),
        Jq::In(a) => Jq::In(Box::new(clone_jq(a))),
        Jq::MapFn(a) => Jq::MapFn(Box::new(clone_jq(a))),
        Jq::IfStatement(c, th, e) => Jq::IfStatement(Box::new(clone_jq(c)), Box::new(clone_jq(th)), clone_opt_jq(e)),
        Jq::Abs(a) => Jq::Abs(clone_opt_jq(a)),
        Jq::Length(a) => Jq::Length(clone_opt_jq(a)),
        Jq::Keys(a) => Jq::Keys(clone_opt_jq(a)),
    }
}

impl Clone for Jq {
    /// A deep copy that keeps the tree's model.
    fn clone(&self) -> (r: Self)
        ensures
            r@ == self@,
    {
        clone_jq(self)
    }
}

/// The filter-tree model that stands for a parsed JSON literal: scalars map
/// to literal nodes, composites to array and object literal nodes.
pub open spec fn jq_of_json(v: JsonV) -> JqV
    decreases v,
{
    match v {
        JsonV::Null => JqV::Literal(JsonV::Null),
        JsonV::Boolean(b) => JqV::Literal(JsonV::Boolean(b)),
        JsonV::Number(n) => JqV::Literal(JsonV::Number(n)),
        JsonV::String(s) => JqV::Literal(JsonV::String(s)),
        JsonV::Array(a) => JqV::ArrayLit(jq_of_seq(a)),
        JsonV::Object(m) => JqV::ObjectLit(jq_of_pairs(m)),
    }
}

pub open spec fn jq_of_seq(s: Seq<JsonV>) -> Seq<JqV>
    decreases s,
{
    if s.len() == 0 {
        Seq::empty()
    } else {
        jq_of_seq(s.drop_last()).push(jq_of_json(s.last()))
    }
}

pub open spec fn jq_of_pairs(s: Seq<(Seq<char>, JsonV)>) -> Seq<(JqV, JqV)>
    decreases s,
{
    if s.len() == 0 {
        Seq::empty()
    } else {
        jq_of_pairs(s.drop_last()).push(
            (JqV::Literal(JsonV::String(s.last().0)), jq_of_json(s.last().1)),
        )
    }
}

/// Turn a parsed JSON value into the filter tree that denotes it.
pub fn from_json(j: &Json) -> (r: Jq)
    ensures
        r@ == jq_of_json(j@),
    decreases j,
{
    match j {
        Json::Null => Jq::Literal(Json::Null),
        Json::Boolean(b) => Jq::Literal(Json::Boolean(*b)),
        Json::Number(n) => Jq::Literal(Json::Number(*n)),
        Json::String(s) => Jq::Literal(Json::String(s.clone())),
        Json::Array(a) => Jq::ArrayLit(from_json_seq(a)),
        Json::Object(m) => Jq::ObjectLit(from_json_pairs(m)),
    }
}

fn from_json_seq(x: &Vec<Json>) -> (r: Vec<Jq>)
    ensures
        view_jq_seq(r@) == jq_of_seq(view_arr(x@)),
    decreases x,
{
    let ghost vs = view_arr(x@);
    proof {
        lemma_view_arr(x@);
    }
    let mut v: Vec<Jq> = Vec::new();
    let mut i: usize = 0;
    proof {
        assert(view_jq_seq(v@) =~= jq_of_seq(vs.take(0)));
    }
    while i < x.len()
        invariant
            0 <= i <= x.len(),
            vs == view_arr(x@),
            vs.len() == x@.len(),
            forall|k: int| 0 <= k < vs.len() ==> vs[k] == x@[k]@,
            v@.len() == i,
            view_jq_seq(v@) == jq_of_seq(vs.take(i as int)),
        decreases x.len() - i,
    {
        let ghost oldv = v@;
        let e = from_json(&x[i]);
        v.push(e);
        proof {
            assert(v@.drop_last() =~= oldv);
            assert(view_jq_seq(v@) == view_jq_seq(oldv).push(e@));
            assert(vs.take(i as int + 1).drop_last() =~= vs.take(i as int));
            assert(vs.take(i as int + 1).last() == vs[i as int]);
        }
        i = i + 1;
    }
    proof {
        assert(vs.take(x@.len() as int) =~= vs);
    }
    v
}

fn from_json_pairs(x: &Vec<(String, Json)>) -> (r: Vec<(Jq, Jq)>)
    ensures
        view_jq_pairs(r@) == jq_of_pairs(view_obj(x@)),
    decreases x,
{
    let ghost vs = view_obj(x@);
    proof {
        lemma_view_obj(x@);
    }
    let mut v: Vec<(Jq, Jq)> = Vec::new();
    let mut i: usize = 0;
    proof {
        assert(view_jq_pairs(v@) =~= jq_of_pairs(vs.take(0)));
    }
    while i < x.len()
        invariant
            0 <= i <= x.len(),
            vs == view_obj(x@),
            vs.len() == x@.len(),
            forall|k: int| 0 <= k < vs.len() ==> vs[k] == (x@[k].0@, x@[k].1@),
            v@.len() == i,
            view_jq_pairs(v@) == jq_of_pairs(vs.take(i as int)),
        decreases x.len() - i,
    {
        let ghost oldv = v@;
        let key = Jq::Literal(Json::String(x[i].0.clone()));
        let value = from_json(&x[i].1);
        v.push((key, value));
        proof {
            assert(v@.drop_last() =~= oldv);
            assert(view_jq_pairs(v@) == view_jq_pairs(oldv).push((v@.last().0@, v@.last().1@)));
            assert(vs.take(i as int + 1).drop_last() =~= vs.take(i as int));
            assert(vs.take(i as int + 1).last() == vs[i as int]);
        }
        i = i + 1;
    }
    proof {
        assert(vs.take(x@.len() as int) =~= vs);
    }
    v
}

} // verus!
