//! The filter interpreter.
//!
//! Evaluation of one filter against one input yields a sequence of JSON
//! values — the value-stream semantics: pipes feed every output of the left
//! side through the right side, commas concatenate, and binary operators
//! work on the cross product of their sides' outputs.  The spec function
//! `eval` defines the semantics; `interpret` computes it.

use vstd::prelude::*;

use crate::json::{
    Json, JsonV, view_arr, view_obj, lemma_view_arr, lemma_view_obj, obj_get, obj_set, obj_put,
    obj_find, json_eq, json_cmp, str_cmp, eq_json, cmp_json, str_compare, clone_json, clone_arr,
    clone_obj, obj_keys_unique, lemma_obj_set_unique,
};
use crate::jq::{Jq, JqV, view_jq_seq, view_jq_pairs, lemma_view_jq_seq, lemma_view_jq_pairs};
use crate::num::{
    Cmp, add_bits, sub_bits, mul_bits, div_bits, rem_bits, abs_bits, usize_bits, floor_usize_bits,
    num_add, num_sub, num_mul, num_div, num_rem, num_abs, num_cmp, num_floor_usize, num_from_usize,
};

verus! {

broadcast use vstd::seq::group_seq_axioms, vstd::std_specs::vec::group_vec_axioms,
    vstd::string::group_string_axioms;

/// One of the five arithmetic operators.
#[derive(Clone, Copy, PartialEq, Eq, Structural, Debug)]
pub enum ArithOp {
    Add,
    Sub,
    Mul,
    Div,
    Rem,
}

/// One of the six comparison operators.
#[derive(Clone, Copy, PartialEq, Eq, Structural, Debug)]
pub enum CmpOp {
    EqOp,
    NeOp,
    GtOp,
    GeOp,
    LtOp,
    LeOp,
}

/// `and` or `or`.
#[derive(Clone, Copy, PartialEq, Eq, Structural, Debug)]
pub enum LogicOp {
    AndOp,
    OrOp,
}

// ------------------------------------------------------------------
// Value-level spec helpers (no recursion back into `eval`).
// ------------------------------------------------------------------

/// The values of an object's pairs, in stored order.
pub open spec fn obj_values(m: Seq<(Seq<char>, JsonV)>) -> Seq<JsonV>
    decreases m,
{
    if m.len() == 0 {
        Seq::empty()
    } else {
        obj_values(m.drop_last()).push(m.last().1)
    }
}

/// A value followed by all its descendants, pre-order.
pub open spec fn rec_descend(v: JsonV) -> Seq<JsonV>
    decreases v,
{
    match v {
        JsonV::Array(a) => seq![v] + rec_descend_seq(a),
        JsonV::Object(m) => seq![v] + rec_descend_obj(m),
        _ => seq![v],
    }
}

pub open spec fn rec_descend_seq(s: Seq<JsonV>) -> Seq<JsonV>
    decreases s,
{
    if s.len() == 0 {
        Seq::empty()
    } else {
        rec_descend_seq(s.drop_last()) + rec_descend(s.last())
    }
}

pub open spec fn rec_descend_obj(s: Seq<(Seq<char>, JsonV)>) -> Seq<JsonV>
    decreases s,
{
    if s.len() == 0 {
        Seq::empty()
    } else {
        rec_descend_obj(s.drop_last()) + rec_descend(s.last().1)
    }
}

/// Whether the sequence holds a value equal to `v` (structural equality).
pub open spec fn seq_contains_val(s: Seq<JsonV>, v: JsonV) -> bool
    decreases s.len(),
{
    if s.len() == 0 {
        false
    } else {
        json_eq(s[0], v) || seq_contains_val(s.drop_first(), v)
    }
}

/// Array difference: the left elements that the right side does not hold,
/// keeping the left order.
pub open spec fn arr_diff(x: Seq<JsonV>, y: Seq<JsonV>) -> Seq<JsonV>
    decreases x,
{
    if x.len() == 0 {
        Seq::empty()
    } else if seq_contains_val(y, x.last()) {
        arr_diff(x.drop_last(), y)
    } else {
        arr_diff(x.drop_last(), y).push(x.last())
    }
}

/// A string repeated `n` times.
pub open spec fn repeat_chars(s: Seq<char>, n: nat) -> Seq<char>
    decreases n,
{
    if n == 0 {
        Seq::empty()
    } else {
        repeat_chars(s, (n - 1) as nat) + s
    }
}

/// The object after the right side's pairs are bound over the left's:
/// on a key collision the right side wins.
pub open spec fn obj_extend(x: Seq<(Seq<char>, JsonV)>, y: Seq<(Seq<char>, JsonV)>) -> Seq<
    (Seq<char>, JsonV),
>
    decreases y,
{
    if y.len() == 0 {
        x
    } else {
        obj_set(obj_extend(x, y.drop_last()), y.last().0, y.last().1)
    }
}

/// Extending an object keeps its keys pairwise distinct.
pub proof fn lemma_obj_extend_unique(x: Seq<(Seq<char>, JsonV)>, y: Seq<(Seq<char>, JsonV)>)
    requires
        obj_keys_unique(x),
    ensures
        obj_keys_unique(obj_extend(x, y)),
    decreases y,
{
    if y.len() > 0 {
        lemma_obj_extend_unique(x, y.drop_last());
        lemma_obj_set_unique(obj_extend(x, y.drop_last()), y.last().0, y.last().1);
    }
}

/// Multiplication of two JSON values: numbers multiply, a number repeats a
/// string, and two objects merge recursively.
pub open spec fn json_mult(a: JsonV, b: JsonV) -> Result<JsonV, ()>
    decreases b, 1int,
{
    match (a, b) {
        (JsonV::Number(x), JsonV::Number(y)) => Ok(JsonV::Number(mul_bits(x, y))),
        (JsonV::Number(x), JsonV::String(s)) => Ok(
            JsonV::String(repeat_chars(s, floor_usize_bits(x) as nat)),
        ),
        (JsonV::String(s), JsonV::Number(y)) => Ok(
            JsonV::String(repeat_chars(s, floor_usize_bits(y) as nat)),
        ),
        (JsonV::Object(x), JsonV::Object(y)) => match json_merge(x, y) {
            Ok(m) => Ok(JsonV::Object(m)),
            Err(()) => Err(()),
        },
        _ => Err(()),
    }
}

/// The recursive object merge behind `*` on two objects: keys of both, and
/// where both sides bind a key, the values multiply recursively.
pub open spec fn json_merge(x: Seq<(Seq<char>, JsonV)>, y: Seq<(Seq<char>, JsonV)>) -> Result<
    Seq<(Seq<char>, JsonV)>,
    (),
>
    decreases y, 0int,
{
    if y.len() == 0 {
        Ok(x)
    } else {
        match json_merge(x, y.drop_last()) {
            Err(()) => Err(()),
            Ok(acc) => {
                let k = y.last().0;
                let v = y.last().1;
                match obj_get(x, k) {
                    Some(xv) => match json_mult(xv, v) {
                        Ok(m) => Ok(obj_set(acc, k, m)),
                        Err(()) => Err(()),
                    },
                    None => Ok(obj_set(acc, k, v)),
                }
            },
        }
    }
}

/// A successful recursive merge keeps the left object's distinct keys
/// distinct.
pub proof fn lemma_json_merge_unique(x: Seq<(Seq<char>, JsonV)>, y: Seq<(Seq<char>, JsonV)>)
    requires
        obj_keys_unique(x),
    ensures
        json_merge(x, y) matches Ok(m) ==> obj_keys_unique(m),
    decreases y,
{
    if y.len() > 0 {
        lemma_json_merge_unique(x, y.drop_last());
        match json_merge(x, y.drop_last()) {
            Ok(acc) => {
                let k = y.last().0;
                match obj_get(x, k) {
                    Some(xv) => {
                        match json_mult(xv, y.last().1) {
                            Ok(m2) => {
                                lemma_obj_set_unique(acc, k, m2);
                            },
                            Err(()) => {},
                        }
                    },
                    None => {
                        lemma_obj_set_unique(acc, k, y.last().1);
                    },
                }
            },
            Err(()) => {},
        }
    }
}

/// One arithmetic operator applied to one pair of values.
pub open spec fn arith_pair(op: ArithOp, a: JsonV, b: JsonV) -> Result<JsonV, ()> {
    match op {
        ArithOp::Add => match (a, b) {
            (JsonV::Number(x), JsonV::Number(y)) => Ok(JsonV::Number(add_bits(x, y))),
            (JsonV::Array(x), JsonV::Array(y)) => Ok(JsonV::Array(x + y)),
            (JsonV::String(x), JsonV::String(y)) => Ok(JsonV::String(x + y)),
            (JsonV::Object(x), JsonV::Object(y)) => Ok(JsonV::Object(obj_extend(x, y))),
            (any, JsonV::Null) => Ok(any),
            _ => Err(()),
        },
        ArithOp::Sub => match (a, b) {
            (JsonV::Number(x), JsonV::Number(y)) => Ok(JsonV::Number(sub_bits(x, y))),
            (JsonV::Array(x), JsonV::Array(y)) => Ok(JsonV::Array(arr_diff(x, y))),
            _ => Err(()),
        },
        ArithOp::Mul => json_mult(a, b),
        ArithOp::Div => match (a, b) {
            (JsonV::Number(x), JsonV::Number(y)) => Ok(JsonV::Number(div_bits(x, y))),
            _ => Err(()),
        },
        ArithOp::Rem => match (a, b) {
            (JsonV::Number(x), JsonV::Number(y)) => Ok(JsonV::Number(rem_bits(x, y))),
            _ => Err(()),
        },
    }
}

/// One row of the arithmetic cross product: `op(l, r)` for each `r`.
pub open spec fn arith_row(op: ArithOp, l: JsonV, rs: Seq<JsonV>) -> Result<Seq<JsonV>, ()>
    decreases rs,
{
    if rs.len() == 0 {
        Ok(Seq::empty())
    } else {
        match (arith_row(op, l, rs.drop_last()), arith_pair(op, l, rs.last())) {
            (Ok(acc), Ok(v)) => Ok(acc.push(v)),
            _ => Err(()),
        }
    }
}

/// The full arithmetic cross product, rows in left order.
pub open spec fn arith_cross(op: ArithOp, ls: Seq<JsonV>, rs: Seq<JsonV>) -> Result<
    Seq<JsonV>,
    (),
>
    decreases ls,
{
    if ls.len() == 0 {
        Ok(Seq::empty())
    } else {
        match (arith_cross(op, ls.drop_last(), rs), arith_row(op, ls.last(), rs)) {
            (Ok(acc), Ok(row)) => Ok(acc + row),
            _ => Err(()),
        }
    }
}

/// One comparison applied to one pair: equality is structural and total;
/// the ordered operators go by `json_cmp` and are false on an unordered
/// pair of numbers.
pub open spec fn cmp_pair(op: CmpOp, a: JsonV, b: JsonV) -> Result<bool, ()> {
    match op {
        CmpOp::EqOp => Ok(json_eq(a, b)),
        CmpOp::NeOp => Ok(!json_eq(a, b)),
        _ => match json_cmp(a, b) {
            Err(()) => Err(()),
            Ok(None) => Ok(false),
            Ok(Some(c)) => Ok(
                match op {
                    CmpOp::GtOp => c is Greater,
                    CmpOp::GeOp => c is Greater || c is Equal,
                    CmpOp::LtOp => c is Less,
                    CmpOp::LeOp => c is Less || c is Equal,
                    _ => false,
                },
            ),
        },
    }
}

pub open spec fn cmp_row(op: CmpOp, l: JsonV, rs: Seq<JsonV>) -> Result<Seq<JsonV>, ()>
    decreases rs,
{
    if rs.len() == 0 {
        Ok(Seq::empty())
    } else {
        match (cmp_row(op, l, rs.drop_last()), cmp_pair(op, l, rs.last())) {
            (Ok(acc), Ok(b)) => Ok(acc.push(JsonV::Boolean(b))),
            _ => Err(()),
        }
    }
}

pub open spec fn cmp_cross(op: CmpOp, ls: Seq<JsonV>, rs: Seq<JsonV>) -> Result<Seq<JsonV>, ()>
    decreases ls,
{
    if ls.len() == 0 {
        Ok(Seq::empty())
    } else {
        match (cmp_cross(op, ls.drop_last(), rs), cmp_row(op, ls.last(), rs)) {
            (Ok(acc), Ok(row)) => Ok(acc + row),
            _ => Err(()),
        }
    }
}

/// `and` / `or` on one pair: any pair that is not two booleans yields false.
pub open spec fn logic_pair(op: LogicOp, a: JsonV, b: JsonV) -> bool {
    match (a, b) {
        (JsonV::Boolean(x), JsonV::Boolean(y)) => match op {
            LogicOp::AndOp => x && y,
            LogicOp::OrOp => x || y,
        },
        _ => false,
    }
}

pub open spec fn logic_row(op: LogicOp, l: JsonV, rs: Seq<JsonV>) -> Seq<JsonV>
    decreases rs,
{
    if rs.len() == 0 {
        Seq::empty()
    } else {
        logic_row(op, l, rs.drop_last()).push(JsonV::Boolean(logic_pair(op, l, rs.last())))
    }
}

pub open spec fn logic_cross(op: LogicOp, ls: Seq<JsonV>, rs: Seq<JsonV>) -> Seq<JsonV>
    decreases ls,
{
    if ls.len() == 0 {
        Seq::empty()
    } else {
        logic_cross(op, ls.drop_last(), rs) + logic_row(op, ls.last(), rs)
    }
}

/// Negation of every value in the stream; an error unless all are booleans.
pub open spec fn not_fold(vs: Seq<JsonV>) -> Result<Seq<JsonV>, ()>
    decreases vs,
{
    if vs.len() == 0 {
        Ok(Seq::empty())
    } else {
        match (not_fold(vs.drop_last()), vs.last()) {
            (Ok(acc), JsonV::Boolean(b)) => Ok(acc.push(JsonV::Boolean(!b))),
            _ => Err(()),
        }
    }
}

/// What the slice of a value is: the chosen part of an array, an empty
/// sequence where the bounds cross, an error out of range or off an array.
pub open spec fn slice_spec(v: JsonV, lo: Option<usize>, ho: Option<usize>) -> Result<
    Seq<JsonV>,
    (),
> {
    match v {
        JsonV::Array(arr) => match (lo, ho) {
            (Some(a), Some(b)) => if a >= b {
                Ok(Seq::empty())
            } else if b < arr.len() {
                Ok(arr.subrange(a as int, b as int))
            } else {
                Err(())
            },
            (Some(a), None) => if a < arr.len() {
                Ok(arr.skip(a as int))
            } else {
                Err(())
            },
            (None, Some(b)) => if b < arr.len() {
                Ok(arr.take(b as int))
            } else {
                Err(())
            },
            (None, None) => Err(()),
        },
        _ => Err(()),
    }
}

/// What the iterator emits: an array's elements, an object's values.
pub open spec fn iter_spec(v: JsonV) -> Result<Seq<JsonV>, ()> {
    match v {
        JsonV::Array(a) => Ok(a),
        JsonV::Object(m) => Ok(obj_values(m)),
        _ => Err(()),
    }
}

/// `a` is at or before `b` in the lexicographic order.
pub open spec fn str_le(a: Seq<char>, b: Seq<char>) -> bool {
    !(str_cmp(a, b) is Greater)
}

/// A key inserted into an already sorted key list, before the first key
/// that is not below it.
pub open spec fn insert_sorted(k: Seq<char>, s: Seq<Seq<char>>) -> Seq<Seq<char>>
    decreases s.len(),
{
    if s.len() == 0 {
        seq![k]
    } else if str_le(k, s[0]) {
        seq![k] + s
    } else {
        seq![s[0]] + insert_sorted(k, s.drop_first())
    }
}

/// The keys sorted lexicographically, by insertion.
pub open spec fn sort_keys(keys: Seq<Seq<char>>) -> Seq<Seq<char>>
    decreases keys,
{
    if keys.len() == 0 {
        Seq::empty()
    } else {
        insert_sorted(keys.last(), sort_keys(keys.drop_last()))
    }
}

/// The keys of an object's pairs, in stored order.
pub open spec fn obj_keys(m: Seq<(Seq<char>, JsonV)>) -> Seq<Seq<char>>
    decreases m,
{
    if m.len() == 0 {
        Seq::empty()
    } else {
        obj_keys(m.drop_last()).push(m.last().0)
    }
}

/// Key strings turned into JSON string values.
pub open spec fn keys_to_values(keys: Seq<Seq<char>>) -> Seq<JsonV>
    decreases keys,
{
    if keys.len() == 0 {
        Seq::empty()
    } else {
        keys_to_values(keys.drop_last()).push(JsonV::String(keys.last()))
    }
}

/// What `keys` yields on a value: the sorted keys of an object.  Under the
/// object invariant `obj_keys_unique`, each key appears exactly once.
pub open spec fn keys_spec(v: JsonV) -> Result<JsonV, ()> {
    match v {
        JsonV::Object(m) => Ok(JsonV::Array(keys_to_values(sort_keys(obj_keys(m))))),
        _ => Err(()),
    }
}

/// What `has` yields: whether an object carries the key, or an array index
/// is in bounds.
pub open spec fn has_pair(container: JsonV, probe: JsonV) -> Result<bool, ()> {
    match (container, probe) {
        (JsonV::Object(m), JsonV::String(k)) => Ok(obj_get(m, k) is Some),
        (JsonV::Array(arr), JsonV::Number(n)) => Ok(floor_usize_bits(n) < arr.len()),
        _ => Err(()),
    }
}

/// `length` of one value: absolute value of a number, byte length of a
/// string, cardinality of a container, zero for null.
pub open spec fn length_spec(v: JsonV) -> Result<JsonV, ()> {
    match v {
        JsonV::Number(n) => Ok(JsonV::Number(abs_bits(n))),
        JsonV::String(s) => Ok(
            JsonV::Number(usize_bits(vstd::utf8::encode_utf8(s).len() as usize)),
        ),
        JsonV::Array(a) => Ok(JsonV::Number(usize_bits(a.len() as usize))),
        JsonV::Object(m) => Ok(JsonV::Number(usize_bits(m.len() as usize))),
        JsonV::Null => Ok(JsonV::Number(0)),
        _ => Err(()),
    }
}

// ------------------------------------------------------------------
// Chained access: `.a.b[0]`, `.a[]`, `.a[1:3]`.
// ------------------------------------------------------------------

/// Evaluate the remaining operations of an access chain against a value.
/// A missing field or an index past the end yields a single `null`; a field
/// access maps over an array's elements; other mismatches are errors.
pub open spec fn eval_chain(inp: JsonV, ops: Seq<JqV>) -> Result<Seq<JsonV>, ()>
    decreases ops, 1int, inp,
{
    if ops.len() == 0 {
        Ok(seq![inp])
    } else {
        match ops[0] {
            JqV::Id(k) => match inp {
                JsonV::Object(m) => match obj_get(m, k) {
                    Some(v) => eval_chain(v, ops.drop_first()),
                    None => Ok(seq![JsonV::Null]),
                },
                JsonV::Array(a) => eval_chain_each(a, ops),
                _ => Err(()),
            },
            JqV::ArrayLit(ids) => match eval_chain_ids(inp, ids, ops) {
                Ok((vs, _)) => Ok(vs),
                Err(()) => Err(()),
            },
            JqV::Iterator => match iter_spec(inp) {
                Ok(els) => eval_chain_each(els, ops.drop_first()),
                Err(()) => Err(()),
            },
            _ => Err(()),
        }
    }
}

/// The chain applied to each element of a stream in turn.
pub open spec fn eval_chain_each(els: Seq<JsonV>, ops: Seq<JqV>) -> Result<Seq<JsonV>, ()>
    decreases ops, 1int, els,
{
    if els.len() == 0 {
        Ok(Seq::empty())
    } else {
        match (eval_chain_each(els.drop_last(), ops), eval_chain(els.last(), ops)) {
            (Ok(acc), Ok(vs)) => Ok(acc + vs),
            _ => Err(()),
        }
    }
}

/// A bracketed subscript list applied to the input: string keys select
/// object fields (a missing field is skipped), numeric keys index arrays,
/// and slices narrow the array (a failing slice is skipped).  An index past
/// the end stops the whole chain with one `null`, discarding earlier
/// output; the flag in the result says that this happened.
pub open spec fn eval_chain_ids(inp: JsonV, ids: Seq<JqV>, ops: Seq<JqV>) -> Result<
    (Seq<JsonV>, bool),
    (),
>
    decreases ops, 0int, ids,
{
    if ids.len() == 0 || ops.len() == 0 {
        Ok((Seq::empty(), false))
    } else {
        match (ids[0], inp) {
            (JqV::Literal(JsonV::String(k)), JsonV::Object(m)) => match obj_get(m, k) {
                Some(v) => match eval_chain(v, ops.drop_first()) {
                    Ok(vs) => ids_glue(vs, eval_chain_ids(inp, ids.drop_first(), ops)),
                    Err(()) => Err(()),
                },
                None => eval_chain_ids(inp, ids.drop_first(), ops),
            },
            (JqV::Literal(JsonV::Number(n)), JsonV::Array(arr)) => {
                let ix = floor_usize_bits(n);
                if ix < arr.len() {
                    match eval_chain(arr[ix as int], ops.drop_first()) {
                        Ok(vs) => ids_glue(vs, eval_chain_ids(inp, ids.drop_first(), ops)),
                        Err(()) => Err(()),
                    }
                } else {
                    Ok((seq![JsonV::Null], true))
                }
            },
            (JqV::Slice(lo, ho), _) => match slice_spec(inp, lo, ho) {
                Ok(part) => match eval_chain(JsonV::Array(part), ops.drop_first()) {
                    Ok(vs) => ids_glue(vs, eval_chain_ids(inp, ids.drop_first(), ops)),
                    Err(()) => Err(()),
                },
                Err(()) => eval_chain_ids(inp, ids.drop_first(), ops),
            },
            _ => Err(()),
        }
    }
}

/// Prepend one subscript's output to the rest of the fold, unless the rest
/// stopped the chain.
pub open spec fn ids_glue(vs: Seq<JsonV>, rest: Result<(Seq<JsonV>, bool), ()>) -> Result<
    (Seq<JsonV>, bool),
    (),
> {
    match rest {
        Ok(p) => if p.1 {
            Ok((p.0, true))
        } else {
            Ok((vs + p.0, false))
        },
        Err(()) => Err(()),
    }
}

// ------------------------------------------------------------------
// Pure per-output folds used by the conditional, the alternative and the
// built-in functions.
// ------------------------------------------------------------------

/// A condition output selects the else branch exactly when it is `null` or
/// `false`.
pub open spec fn picks_else(v: JsonV) -> bool {
    v == JsonV::Null || v == JsonV::Boolean(false)
}

/// Branch outputs of a conditional, concatenated over the condition's
/// outputs; a branch's error surfaces only when some output selects it.
pub open spec fn if_fold(
    cs: Seq<JsonV>,
    tres: Result<Seq<JsonV>, ()>,
    eres: Result<Seq<JsonV>, ()>,
) -> Result<Seq<JsonV>, ()>
    decreases cs,
{
    if cs.len() == 0 {
        Ok(Seq::empty())
    } else {
        match (if_fold(cs.drop_last(), tres, eres), if picks_else(cs.last()) {
            eres
        } else {
            tres
        }) {
            (Ok(acc), Ok(vs)) => Ok(acc + vs),
            _ => Err(()),
        }
    }
}

/// Outputs of `a // b`: each `null` or `false` output of the left side is
/// replaced by the right side's whole stream.
pub open spec fn alt_fold(vs: Seq<JsonV>, bres: Result<Seq<JsonV>, ()>) -> Result<
    Seq<JsonV>,
    (),
>
    decreases vs,
{
    if vs.len() == 0 {
        Ok(Seq::empty())
    } else {
        match alt_fold(vs.drop_last(), bres) {
            Err(()) => Err(()),
            Ok(acc) => if picks_else(vs.last()) {
                match bres {
                    Ok(bs) => Ok(acc + bs),
                    Err(()) => Err(()),
                }
            } else {
                Ok(acc.push(vs.last()))
            },
        }
    }
}

/// Absolute value of every number in the stream; an error on anything else.
pub open spec fn abs_fold(vs: Seq<JsonV>) -> Result<Seq<JsonV>, ()>
    decreases vs,
{
    if vs.len() == 0 {
        Ok(Seq::empty())
    } else {
        match (abs_fold(vs.drop_last()), vs.last()) {
            (Ok(acc), JsonV::Number(n)) => Ok(acc.push(JsonV::Number(abs_bits(n)))),
            _ => Err(()),
        }
    }
}

/// `length` of every value in the stream.
pub open spec fn length_fold(vs: Seq<JsonV>) -> Result<Seq<JsonV>, ()>
    decreases vs,
{
    if vs.len() == 0 {
        Ok(Seq::empty())
    } else {
        match (length_fold(vs.drop_last()), length_spec(vs.last())) {
            (Ok(acc), Ok(v)) => Ok(acc.push(v)),
            _ => Err(()),
        }
    }
}

/// `keys` of every value in the stream.
pub open spec fn keys_fold(vs: Seq<JsonV>) -> Result<Seq<JsonV>, ()>
    decreases vs,
{
    if vs.len() == 0 {
        Ok(Seq::empty())
    } else {
        match (keys_fold(vs.drop_last()), keys_spec(vs.last())) {
            (Ok(acc), Ok(v)) => Ok(acc.push(v)),
            _ => Err(()),
        }
    }
}

/// `has`: the input probed with each argument output.
pub open spec fn has_fold(inp: JsonV, ps: Seq<JsonV>) -> Result<Seq<JsonV>, ()>
    decreases ps,
{
    if ps.len() == 0 {
        Ok(Seq::empty())
    } else {
        match (has_fold(inp, ps.drop_last()), has_pair(inp, ps.last())) {
            (Ok(acc), Ok(b)) => Ok(acc.push(JsonV::Boolean(b))),
            _ => Err(()),
        }
    }
}

/// `in`: each argument output probed with the input.
pub open spec fn in_fold(inp: JsonV, ps: Seq<JsonV>) -> Result<Seq<JsonV>, ()>
    decreases ps,
{
    if ps.len() == 0 {
        Ok(Seq::empty())
    } else {
        match (in_fold(inp, ps.drop_last()), has_pair(ps.last(), inp)) {
            (Ok(acc), Ok(b)) => Ok(acc.push(JsonV::Boolean(b))),
            _ => Err(()),
        }
    }
}

/// Key/value cross product of an object construction: every key output must
/// be a string; each key is paired with every value output as a singleton
/// object.
pub open spec fn obj_row(k: Seq<char>, vs: Seq<JsonV>) -> Seq<JsonV>
    decreases vs,
{
    if vs.len() == 0 {
        Seq::empty()
    } else {
        obj_row(k, vs.drop_last()).push(JsonV::Object(seq![(k, vs.last())]))
    }
}

pub open spec fn obj_cross(ks: Seq<JsonV>, vs: Seq<JsonV>) -> Result<Seq<JsonV>, ()>
    decreases ks,
{
    if ks.len() == 0 {
        Ok(Seq::empty())
    } else {
        match (obj_cross(ks.drop_last(), vs), ks.last()) {
            (Ok(acc), JsonV::String(k)) => Ok(acc + obj_row(k, vs)),
            _ => Err(()),
        }
    }
}

// ------------------------------------------------------------------
// The evaluator.
// ------------------------------------------------------------------

/// The value-stream semantics of one filter on one input: what sequence of
/// JSON values it emits, or that it fails.
pub open spec fn eval(inp: JsonV, f: JqV) -> Result<Seq<JsonV>, ()>
    decreases f, 1int, 0int,
{
    match f {
        JqV::Literal(j) => Ok(seq![j]),
        JqV::ArrayLit(xs) => match eval_gather(inp, xs) {
            Ok(vs) => Ok(seq![JsonV::Array(vs)]),
            Err(()) => Err(()),
        },
        JqV::ObjectLit(ps) => eval_obj_pairs(inp, ps),
        JqV::Pipe(a, b) => match eval(inp, *a) {
            Ok(vs) => eval_list(vs, *b),
            Err(()) => Err(()),
        },
        JqV::Comma(a, b) => match (eval(inp, *a), eval(inp, *b)) {
            (Ok(xs), Ok(ys)) => Ok(xs + ys),
            _ => Err(()),
        },
        JqV::Id(k) => match inp {
            JsonV::Object(m) => match obj_get(m, k) {
                Some(v) => Ok(seq![v]),
                None => Err(()),
            },
            _ => Err(()),
        },
        JqV::IdChain(ops) => eval_chain(inp, ops),
        JqV::Identity => Ok(seq![inp]),
        JqV::Input => Ok(seq![inp]),
        JqV::Optional(e) => match eval(inp, *e) {
            Ok(vs) => Ok(vs),
            Err(()) => Ok(seq![JsonV::Null]),
        },
        JqV::Iterator => iter_spec(inp),
        JqV::Recursive => Ok(rec_descend(inp)),
        JqV::Parenthesis(e) => eval(inp, *e),
        JqV::Slice(lo, ho) => slice_spec(inp, lo, ho),
        JqV::Addition(a, b) => match (eval(inp, *a), eval(inp, *b)) {
            (Ok(ls), Ok(rs)) => arith_cross(ArithOp::Add, ls, rs),
            _ => Err(()),
        },
        JqV::Subtraction(a, b) => match (eval(inp, *a), eval(inp, *b)) {
            (Ok(ls), Ok(rs)) => arith_cross(ArithOp::Sub, ls, rs),
            _ => Err(()),
        },
        JqV::Multiplication(a, b) => match (eval(inp, *a), eval(inp, *b)) {
            (Ok(ls), Ok(rs)) => arith_cross(ArithOp::Mul, ls, rs),
            _ => Err(()),
        },
        JqV::Division(a, b) => match (eval(inp, *a), eval(inp, *b)) {
            (Ok(ls), Ok(rs)) => arith_cross(ArithOp::Div, ls, rs),
            _ => Err(()),
        },
        JqV::Modulo(a, b) => match (eval(inp, *a), eval(inp, *b)) {
            (Ok(ls), Ok(rs)) => arith_cross(ArithOp::Rem, ls, rs),
            _ => Err(()),
        },
        JqV::Eq(a, b) => match (eval(inp, *a), eval(inp, *b)) {
            (Ok(ls), Ok(rs)) => cmp_cross(CmpOp::EqOp, ls, rs),
            _ => Err(()),
        },
        JqV::NotEq(a, b) => match (eval(inp, *a), eval(inp, *b)) {
            (Ok(ls), Ok(rs)) => cmp_cross(CmpOp::NeOp, ls, rs),
            _ => Err(()),
        },
        JqV::Gt(a, b) => match (eval(inp, *a), eval(inp, *b)) {
            (Ok(ls), Ok(rs)) => cmp_cross(CmpOp::GtOp, ls, rs),
            _ => Err(()),
        },
        JqV::Gte(a, b) => match (eval(inp, *a), eval(inp, *b)) {
            (Ok(ls), Ok(rs)) => cmp_cross(CmpOp::GeOp, ls, rs),
            _ => Err(()),
        },
        JqV::Lt(a, b) => match (eval(inp, *a), eval(inp, *b)) {
            (Ok(ls), Ok(rs)) => cmp_cross(CmpOp::LtOp, ls, rs),
            _ => Err(()),
        },
        JqV::Lte(a, b) => match (eval(inp, *a), eval(inp, *b)) {
            (Ok(ls), Ok(rs)) => cmp_cross(CmpOp::LeOp, ls, rs),
            _ => Err(()),
        },
        JqV::IfStatement(c, t, e) => match eval(inp, *c) {
            Err(()) => Err(()),
            Ok(cs) => if_fold(
                cs,
                eval(inp, *t),
                match e {
                    Some(ee) => eval(inp, *ee),
                    None => Ok(seq![inp]),
                },
            ),
        },
        JqV::And(a, b) => match (eval(inp, *a), eval(inp, *b)) {
            (Ok(ls), Ok(rs)) => Ok(logic_cross(LogicOp::AndOp, ls, rs)),
            _ => Err(()),
        },
        JqV::Or(a, b) => match (eval(inp, *a), eval(inp, *b)) {
            (Ok(ls), Ok(rs)) => Ok(logic_cross(LogicOp::OrOp, ls, rs)),
            _ => Err(()),
        },
        JqV::Not(e) => match eval(inp, *e) {
            Ok(vs) => not_fold(vs),
            Err(()) => Err(()),
        },
        JqV::Alternative(a, b) => match eval(inp, *a) {
            Err(()) => eval(inp, *b),
            Ok(vs) => alt_fold(vs, eval(inp, *b)),
        },
        JqV::Abs(arg) => match arg {
            Some(e) => match eval(inp, *e) {
                Ok(vs) => abs_fold(vs),
                Err(()) => Err(()),
            },
            None => abs_fold(seq![inp]),
        },
        JqV::Length(arg) => match arg {
            Some(e) => match eval(inp, *e) {
                Ok(vs) => length_fold(vs),
                Err(()) => Err(()),
            },
            None => length_fold(seq![inp]),
        },
        JqV::Keys(arg) => match arg {
            Some(e) => match eval(inp, *e) {
                Ok(vs) => keys_fold(vs),
                Err(()) => Err(()),
            },
            None => keys_fold(seq![inp]),
        },
        JqV::Has(a) => match eval(inp, *a) {
            Ok(ps) => has_fold(inp, ps),
            Err(()) => Err(()),
        },
        JqV::In(a) => match eval(inp, *a) {
            Ok(ps) => in_fold(inp, ps),
            Err(()) => Err(()),
        },
        JqV::MapFn(e) => match inp {
            JsonV::Array(a) => eval_list(a, *e),
            JsonV::Object(m) => eval_list(obj_values(m), *e),
            _ => Err(()),
        },
    }
}

/// Every child evaluated against the input, all outputs gathered into one
/// stream: the contents of an array construction.
pub open spec fn eval_gather(inp: JsonV, xs: Seq<JqV>) -> Result<Seq<JsonV>, ()>
    decreases xs, 2int, 0int,
{
    if xs.len() == 0 {
        Ok(Seq::empty())
    } else {
        match (eval_gather(inp, xs.drop_last()), eval(inp, xs.last())) {
            (Ok(acc), Ok(vs)) => Ok(acc + vs),
            _ => Err(()),
        }
    }
}

/// The outputs of an object construction: for each pair, the key/value
/// cross product of the two sides' outputs.
pub open spec fn eval_obj_pairs(inp: JsonV, ps: Seq<(JqV, JqV)>) -> Result<Seq<JsonV>, ()>
    decreases ps, 2int, 0int,
{
    if ps.len() == 0 {
        Ok(Seq::empty())
    } else {
        match (eval_obj_pairs(inp, ps.drop_last()), eval(inp, ps.last().0), eval(
            inp,
            ps.last().1,
        )) {
            (Ok(acc), Ok(ks), Ok(vs)) => match obj_cross(ks, vs) {
                Ok(os) => Ok(acc + os),
                _ => Err(()),
            },
            _ => Err(()),
        }
    }
}

/// The filter evaluated against every input in turn, the outputs
/// concatenated in input order.
pub open spec fn eval_list(inps: Seq<JsonV>, f: JqV) -> Result<Seq<JsonV>, ()>
    decreases f, 2int, inps.len(),
{
    if inps.len() == 0 {
        Ok(Seq::empty())
    } else {
        match (eval_list(inps.drop_last(), f), eval(inps.last(), f)) {
            (Ok(acc), Ok(vs)) => Ok(acc + vs),
            _ => Err(()),
        }
    }
}

// ------------------------------------------------------------------
// Executable value-level helpers.
// ------------------------------------------------------------------

fn err_of(msg: &str) -> (r: String) {
    msg.to_owned()
}

/// The values of an object's pairs, in stored order.
fn values_of_obj(m: &Vec<(String, Json)>) -> (r: Vec<Json>)
    ensures
        view_arr(r@) == obj_values(view_obj(m@)),
{
    let ghost ms = view_obj(m@);
    proof {
        lemma_view_obj(m@);
    }
    let mut res: Vec<Json> = Vec::new();
    let mut i: usize = 0;
    proof {
        assert(view_arr(res@) =~= obj_values(ms.take(0)));
    }
    while i < m.len()
        invariant
            0 <= i <= m.len(),
            ms == view_obj(m@),
            ms.len() == m@.len(),
            forall|k: int| 0 <= k < ms.len() ==> ms[k] == (m@[k].0@, m@[k].1@),
            view_arr(res@) == obj_values(ms.take(i as int)),
        decreases m.len() - i,
    {
        let ghost oldr = res@;
        res.push(clone_json(&m[i].1));
        proof {
            assert(res@.drop_last() =~= oldr);
            assert(view_arr(res@) == view_arr(oldr).push(res@.last()@));
            assert(ms.take(i as int + 1).drop_last() =~= ms.take(i as int));
            assert(ms.take(i as int + 1).last() == ms[i as int]);
        }
        i = i + 1;
    }
    proof {
        assert(ms.take(m@.len() as int) =~= ms);
    }
    res
}

/// A value and all its descendants, pre-order.
fn rec_descend_exec(v: &Json) -> (r: Vec<Json>)
    ensures
        view_arr(r@) == rec_descend(v@),
    decreases v,
{
    let mut res: Vec<Json> = Vec::new();
    res.push(clone_json(v));
    proof {
        lemma_view_arr(res@);
        assert(view_arr(res@) =~= seq![v@]);
    }
    match v {
        Json::Array(a) => {
            let mut sub = rec_descend_arr(a);
            let ghost r0 = res@;
            let ghost subv = sub@;
            res.append(&mut sub);
            proof {
                lemma_view_arr(r0);
                lemma_view_arr(subv);
                lemma_view_arr(r0 + subv);
                assert(view_arr(r0 + subv) =~= view_arr(r0) + view_arr(subv));
            }
            res
        },
        Json::Object(m) => {
            let mut sub = rec_descend_objv(m);
            let ghost r0 = res@;
            let ghost subv = sub@;
            res.append(&mut sub);
            proof {
                lemma_view_arr(r0);
                lemma_view_arr(subv);
                lemma_view_arr(r0 + subv);
                assert(view_arr(r0 + subv) =~= view_arr(r0) + view_arr(subv));
            }
            res
        },
        _ => res,
    }
}

/// The descendants of every element of an array, concatenated.
fn rec_descend_arr(a: &Vec<Json>) -> (r: Vec<Json>)
    ensures
        view_arr(r@) == rec_descend_seq(view_arr(a@)),
    decreases a,
{
    let ghost va = view_arr(a@);
    proof {
        lemma_view_arr(a@);
    }
    let mut res: Vec<Json> = Vec::new();
    let mut i: usize = 0;
    proof {
        assert(view_arr(res@) =~= rec_descend_seq(va.take(0)));
    }
    while i < a.len()
        invariant
            0 <= i <= a.len(),
            va == view_arr(a@),
            va.len() == a@.len(),
            forall|k: int| 0 <= k < va.len() ==> va[k] == a@[k]@,
            view_arr(res@) == rec_descend_seq(va.take(i as int)),
        decreases a.len() - i,
    {
        let ghost oldr = res@;
        let mut sub = rec_descend_exec(&a[i]);
        let ghost subv = sub@;
        res.append(&mut sub);
        proof {
            lemma_view_arr(oldr);
            lemma_view_arr(subv);
            lemma_view_arr(oldr + subv);
            assert(view_arr(oldr + subv) =~= view_arr(oldr) + view_arr(subv));
            assert(va.take(i as int + 1).drop_last() =~= va.take(i as int));
            assert(va.take(i as int + 1).last() == va[i as int]);
        }
        i = i + 1;
    }
    proof {
        assert(va.take(a@.len() as int) =~= va);
    }
    res
}

/// The descendants of every value of an object, concatenated.
fn rec_descend_objv(m: &Vec<(String, Json)>) -> (r: Vec<Json>)
    ensures
        view_arr(r@) == rec_descend_obj(view_obj(m@)),
    decreases m,
{
    let ghost ms = view_obj(m@);
    proof {
        lemma_view_obj(m@);
    }
    let mut res: Vec<Json> = Vec::new();
    let mut i: usize = 0;
    proof {
        assert(view_arr(res@) =~= rec_descend_obj(ms.take(0)));
    }
    while i < m.len()
        invariant
            0 <= i <= m.len(),
            ms == view_obj(m@),
            ms.len() == m@.len(),
            forall|k: int| 0 <= k < ms.len() ==> ms[k] == (m@[k].0@, m@[k].1@),
            view_arr(res@) == rec_descend_obj(ms.take(i as int)),
        decreases m.len() - i,
    {
        let ghost oldr = res@;
        let mut sub = rec_descend_exec(&m[i].1);
        let ghost subv = sub@;
        res.append(&mut sub);
        proof {
            lemma_view_arr(oldr);
            lemma_view_arr(subv);
            lemma_view_arr(oldr + subv);
            assert(view_arr(oldr + subv) =~= view_arr(oldr) + view_arr(subv));
            assert(ms.take(i as int + 1).drop_last() =~= ms.take(i as int));
            assert(ms.take(i as int + 1).last() == ms[i as int]);
        }
        i = i + 1;
    }
    proof {
        assert(ms.take(m@.len() as int) =~= ms);
    }
    res
}

/// A clone of the elements `from .. to` of an array.
fn copy_range(a: &Vec<Json>, from: usize, to: usize) -> (r: Vec<Json>)
    requires
        from <= to <= a@.len(),
    ensures
        view_arr(r@) == view_arr(a@).subrange(from as int, to as int),
{
    let ghost va = view_arr(a@);
    proof {
        lemma_view_arr(a@);
    }
    let mut res: Vec<Json> = Vec::new();
    let mut i: usize = from;
    while i < to
        invariant
            from <= i <= to <= a@.len(),
            va == view_arr(a@),
            va.len() == a@.len(),
            forall|k: int| 0 <= k < va.len() ==> va[k] == a@[k]@,
            res@.len() == i - from,
            forall|k: int| 0 <= k < res@.len() ==> res@[k]@ == va[from + k],
        decreases to - i,
    {
        res.push(clone_json(&a[i]));
        i = i + 1;
    }
    proof {
        lemma_view_arr(res@);
        assert(view_arr(res@) =~= va.subrange(from as int, to as int));
    }
    res
}

/// The slice of a value, as the stream of chosen elements.
fn slice_exec(v: &Json, lo: &Option<usize>, ho: &Option<usize>) -> (r: Result<Vec<Json>, String>)
    ensures
        match r {
            Ok(vs) => slice_spec(v@, *lo, *ho) == Ok::<Seq<JsonV>, ()>(view_arr(vs@)),
            Err(_) => slice_spec(v@, *lo, *ho) is Err,
        },
{
    match v {
        Json::Array(arr) => {
            proof {
                lemma_view_arr(arr@);
            }
            match (lo, ho) {
                (Some(a), Some(b)) => {
                    if *a >= *b {
                        proof {
                            assert(view_arr(Seq::<Json>::empty()) =~= Seq::<JsonV>::empty());
                        }
                        Ok(Vec::new())
                    } else if *b < arr.len() {
                        Ok(copy_range(arr, *a, *b))
                    } else {
                        Err(err_of("slice out of range"))
                    }
                },
                (Some(a), None) => {
                    if *a < arr.len() {
                        let r = copy_range(arr, *a, arr.len());
                        proof {
                            assert(view_arr(arr@).subrange(
                                *a as int,
                                arr@.len() as int,
                            ) =~= view_arr(arr@).skip(*a as int));
                        }
                        Ok(r)
                    } else {
                        Err(err_of("slice out of range"))
                    }
                },
                (None, Some(b)) => {
                    if *b < arr.len() {
                        let r = copy_range(arr, 0, *b);
                        proof {
                            assert(view_arr(arr@).subrange(0, *b as int) =~= view_arr(
                                arr@,
                            ).take(*b as int));
                        }
                        Ok(r)
                    } else {
                        Err(err_of("slice out of range"))
                    }
                },
                (None, None) => Err(err_of("slice needs a bound")),
            }
        },
        _ => Err(err_of("can only slice an array")),
    }
}

/// Whether the array holds a value equal to `v`.
fn contains_exec(y: &Vec<Json>, v: &Json) -> (r: bool)
    ensures
        r == seq_contains_val(view_arr(y@), v@),
{
    let ghost ys = view_arr(y@);
    proof {
        lemma_view_arr(y@);
        assert(ys.skip(0) =~= ys);
    }
    let mut i: usize = 0;
    while i < y.len()
        invariant
            0 <= i <= y.len(),
            ys == view_arr(y@),
            ys.len() == y@.len(),
            forall|k: int| 0 <= k < ys.len() ==> ys[k] == y@[k]@,
            seq_contains_val(ys, v@) == seq_contains_val(ys.skip(i as int), v@),
        decreases y.len() - i,
    {
        proof {
            let sy = ys.skip(i as int);
            assert(sy[0] == ys[i as int]);
            assert(sy.drop_first() =~= ys.skip(i as int + 1));
        }
        if eq_json(&y[i], v) {
            return true;
        }
        i = i + 1;
    }
    proof {
        assert(ys.skip(i as int) =~= Seq::<JsonV>::empty());
    }
    false
}

/// Array difference, keeping the left order.
fn arr_diff_exec(x: &Vec<Json>, y: &Vec<Json>) -> (r: Vec<Json>)
    ensures
        view_arr(r@) == arr_diff(view_arr(x@), view_arr(y@)),
{
    let ghost xs = view_arr(x@);
    let ghost ys = view_arr(y@);
    proof {
        lemma_view_arr(x@);
    }
    let mut res: Vec<Json> = Vec::new();
    let mut i: usize = 0;
    proof {
        assert(view_arr(res@) =~= arr_diff(xs.take(0), ys));
    }
    while i < x.len()
        invariant
            0 <= i <= x.len(),
            xs == view_arr(x@) && ys == view_arr(y@),
            xs.len() == x@.len(),
            forall|k: int| 0 <= k < xs.len() ==> xs[k] == x@[k]@,
            view_arr(res@) == arr_diff(xs.take(i as int), ys),
        decreases x.len() - i,
    {
        proof {
            assert(xs.take(i as int + 1).drop_last() =~= xs.take(i as int));
            assert(xs.take(i as int + 1).last() == xs[i as int]);
        }
        if !contains_exec(y, &x[i]) {
            let ghost oldr = res@;
            res.push(clone_json(&x[i]));
            proof {
                assert(res@.drop_last() =~= oldr);
                assert(view_arr(res@) == view_arr(oldr).push(res@.last()@));
            }
        }
        i = i + 1;
    }
    proof {
        assert(xs.take(x@.len() as int) =~= xs);
    }
    res
}

/// A string repeated `n` times.
fn repeat_exec(s: &String, n: usize) -> (r: String)
    ensures
        r@ == repeat_chars(s@, n as nat),
{
    let mut res = String::new();
    let mut i: usize = 0;
    proof {
        assert(res@ =~= repeat_chars(s@, 0));
    }
    while i < n
        invariant
            0 <= i <= n,
            res@ == repeat_chars(s@, i as nat),
        decreases n - i,
    {
        res.append(s.as_str());
        i = i + 1;
    }
    res
}

/// The right object's pairs bound over the left's: the right side wins.
fn obj_extend_exec(x: &Vec<(String, Json)>, y: &Vec<(String, Json)>) -> (r: Vec<(String, Json)>)
    ensures
        view_obj(r@) == obj_extend(view_obj(x@), view_obj(y@)),
{
    let ghost xs = view_obj(x@);
    let ghost ys = view_obj(y@);
    proof {
        lemma_view_obj(y@);
    }
    let mut res = clone_obj(x);
    let mut i: usize = 0;
    while i < y.len()
        invariant
            0 <= i <= y.len(),
            xs == view_obj(x@) && ys == view_obj(y@),
            ys.len() == y@.len(),
            forall|k: int| 0 <= k < ys.len() ==> ys[k] == (y@[k].0@, y@[k].1@),
            view_obj(res@) == obj_extend(xs, ys.take(i as int)),
        decreases y.len() - i,
    {
        proof {
            assert(ys.take(i as int + 1).drop_last() =~= ys.take(i as int));
            assert(ys.take(i as int + 1).last() == ys[i as int]);
        }
        let key = y[i].0.clone();
        let value = clone_json(&y[i].1);
        obj_put(&mut res, key, value);
        i = i + 1;
    }
    proof {
        assert(ys.take(y@.len() as int) =~= ys);
    }
    res
}

/// Multiplication of two values; objects merge recursively.
fn json_mult_exec(a: &Json, b: &Json) -> (r: Result<Json, String>)
    ensures
        match r {
            Ok(v) => json_mult(a@, b@) == Ok::<JsonV, ()>(v@),
            Err(_) => json_mult(a@, b@) is Err,
        },
    decreases b, 1int,
{
    match (a, b) {
        (Json::Number(x), Json::Number(y)) => Ok(Json::Number(num_mul(*x, *y))),
        (Json::Number(x), Json::String(s)) => {
            let n = num_floor_usize(*x);
            Ok(Json::String(repeat_exec(s, n)))
        },
        (Json::String(s), Json::Number(y)) => {
            let n = num_floor_usize(*y);
            Ok(Json::String(repeat_exec(s, n)))
        },
        (Json::Object(x), Json::Object(y)) => {
            match json_merge_exec(x, y) {
                Ok(m) => Ok(Json::Object(m)),
                Err(e) => Err(e),
            }
        },
        _ => Err(err_of("bad multiplication")),
    }
}

/// The recursive object merge behind `*`.
fn json_merge_exec(x: &Vec<(String, Json)>, y: &Vec<(String, Json)>) -> (r: Result<
    Vec<(String, Json)>,
    String,
>)
    ensures
        match r {
            Ok(m) => json_merge(view_obj(x@), view_obj(y@)) == Ok::<Seq<(Seq<char>, JsonV)>, ()>(
                view_obj(m@),
            ),
            Err(_) => json_merge(view_obj(x@), view_obj(y@)) is Err,
        },
    decreases y, 0int,
{
    let ghost xs = view_obj(x@);
    let ghost ys = view_obj(y@);
    proof {
        lemma_view_obj(y@);
    }
    let mut res = clone_obj(x);
    let mut i: usize = 0;
    proof {
        assert(json_merge(xs, ys.take(0)) == Ok::<Seq<(Seq<char>, JsonV)>, ()>(view_obj(res@)));
    }
    while i < y.len()
        invariant
            0 <= i <= y.len(),
            xs == view_obj(x@) && ys == view_obj(y@),
            ys.len() == y@.len(),
            forall|k: int| 0 <= k < ys.len() ==> ys[k] == (y@[k].0@, y@[k].1@),
            json_merge(xs, ys.take(i as int)) == Ok::<Seq<(Seq<char>, JsonV)>, ()>(view_obj(res@)),
        decreases y.len() - i,
    {
        proof {
            assert(ys.take(i as int + 1).drop_last() =~= ys.take(i as int));
            assert(ys.take(i as int + 1).last() == ys[i as int]);
        }
        let key = y[i].0.clone();
        match obj_find(x, &y[i].0) {
            Some(xv) => {
                match json_mult_exec(xv, &y[i].1) {
                    Ok(m) => {
                        obj_put(&mut res, key, m);
                    },
                    Err(e) => {
                        proof {
                            lemma_json_merge_err(xs, ys, i as int);
                        }
                        return Err(e);
                    },
                }
            },
            None => {
                let value = clone_json(&y[i].1);
                obj_put(&mut res, key, value);
            },
        }
        i = i + 1;
    }
    proof {
        assert(ys.take(y@.len() as int) =~= ys);
    }
    Ok(res)
}

/// Once one merged pair fails, the whole merge fails.
proof fn lemma_json_merge_err(x: Seq<(Seq<char>, JsonV)>, y: Seq<(Seq<char>, JsonV)>, i: int)
    requires
        0 <= i < y.len(),
        match obj_get(x, y[i].0) {
            Some(xv) => json_mult(xv, y[i].1) is Err,
            None => false,
        },
    ensures
        json_merge(x, y) is Err,
    decreases y.len(),
{
    if y.len() > 0 {
        if i == y.len() - 1 {
            assert(y.last() == y[i]);
        } else {
            assert(y.drop_last()[i] == y[i]);
            lemma_json_merge_err(x, y.drop_last(), i);
        }
    }
}

// ------------------------------------------------------------------
// Keys: collection and lexicographic insertion sort.
// ------------------------------------------------------------------

/// The models of a sequence of strings.
pub open spec fn view_strs(s: Seq<String>) -> Seq<Seq<char>>
    decreases s,
{
    if s.len() == 0 {
        Seq::empty()
    } else {
        view_strs(s.drop_last()).push(s.last()@)
    }
}

pub broadcast proof fn lemma_view_strs(s: Seq<String>)
    ensures
        (#[trigger] view_strs(s)).len() == s.len(),
        forall|i: int| 0 <= i < s.len() ==> view_strs(s)[i] == s[i]@,
    decreases s,
{
    if s.len() > 0 {
        lemma_view_strs(s.drop_last());
        assert(view_strs(s) == view_strs(s.drop_last()).push(s.last()@));
        assert forall|i: int| 0 <= i < s.len() implies view_strs(s)[i] == s[i]@ by {
            if i < s.len() - 1 {
                assert(s.drop_last()[i] == s[i]);
            } else {
                assert(s[i] == s.last());
            }
        }
    }
}

/// Where the first `j` entries are below `k` and the entry at `j`, if any,
/// is not, inserting `k` splits the list exactly there.
proof fn lemma_insert_sorted_at(k: Seq<char>, s: Seq<Seq<char>>, j: int)
    requires
        0 <= j <= s.len(),
        forall|i: int| 0 <= i < j ==> !str_le(k, #[trigger] s[i]),
        j < s.len() ==> str_le(k, s[j]),
    ensures
        insert_sorted(k, s) == s.take(j) + seq![k] + s.skip(j),
    decreases j,
{
    if j == 0 {
        if s.len() == 0 {
            assert(insert_sorted(k, s) =~= s.take(0) + seq![k] + s.skip(0));
        } else {
            assert(insert_sorted(k, s) =~= s.take(0) + seq![k] + s.skip(0));
        }
    } else {
        assert(!str_le(k, s[0]));
        let t = s.drop_first();
        assert forall|i: int| 0 <= i < j - 1 implies !str_le(k, #[trigger] t[i]) by {
            assert(t[i] == s[i + 1]);
        }
        if j - 1 < t.len() {
            assert(t[j - 1] == s[j]);
        }
        lemma_insert_sorted_at(k, t, j - 1);
        assert(insert_sorted(k, s) == seq![s[0]] + insert_sorted(k, t));
        assert(seq![s[0]] + (t.take(j - 1) + seq![k] + t.skip(j - 1)) =~= s.take(j) + seq![k]
            + s.skip(j));
    }
}

/// Insert one key into an already sorted key list.
fn insert_key(acc: &mut Vec<String>, k: String)
    ensures
        view_strs(final(acc)@) == insert_sorted(k@, view_strs(old(acc)@)),
{
    let ghost vs = view_strs(old(acc)@);
    proof {
        lemma_view_strs(old(acc)@);
    }
    let mut j: usize = 0;
    while j < acc.len()
        invariant_except_break
            0 <= j <= acc.len(),
            acc@ == old(acc)@,
            vs == view_strs(acc@),
            vs.len() == acc@.len(),
            forall|i: int| 0 <= i < vs.len() ==> vs[i] == acc@[i]@,
            forall|i: int| 0 <= i < j ==> !str_le(k@, #[trigger] vs[i]),
        ensures
            0 <= j <= acc.len(),
            acc@ == old(acc)@,
            forall|i: int| 0 <= i < j ==> !str_le(k@, #[trigger] vs[i]),
            j < acc@.len() ==> str_le(k@, vs[j as int]),
        decreases acc.len() - j,
    {
        let c = str_compare(&k, &acc[j]);
        match c {
            Cmp::Greater => {
                j = j + 1;
            },
            _ => {
                break ;
            },
        }
    }
    proof {
        lemma_insert_sorted_at(k@, vs, j as int);
    }
    acc.insert(j, k);
    proof {
        lemma_view_strs(acc@);
        assert forall|i: int| 0 <= i < acc@.len() implies view_strs(acc@)[i] == (vs.take(
            j as int,
        ) + seq![k@] + vs.skip(j as int))[i] by {
            assert(acc@[i]@ == (vs.take(j as int) + seq![k@] + vs.skip(j as int))[i]);
        }
        assert(view_strs(acc@) =~= vs.take(j as int) + seq![k@] + vs.skip(j as int));
    }
}

/// `keys` of one value: the sorted keys of an object, as an array of
/// strings.
fn keys_exec(v: &Json) -> (r: Result<Json, String>)
    ensures
        match r {
            Ok(x) => keys_spec(v@) == Ok::<JsonV, ()>(x@),
            Err(_) => keys_spec(v@) is Err,
        },
{
    match v {
        Json::Object(m) => {
            let ghost ms = view_obj(m@);
            proof {
                lemma_view_obj(m@);
            }
            let mut sorted: Vec<String> = Vec::new();
            let mut i: usize = 0;
            proof {
                assert(view_strs(sorted@) =~= sort_keys(obj_keys(ms.take(0))));
                assert(obj_keys(ms.take(0)) =~= Seq::<Seq<char>>::empty());
            }
            while i < m.len()
                invariant
                    0 <= i <= m.len(),
                    ms == view_obj(m@),
                    ms.len() == m@.len(),
                    forall|k: int| 0 <= k < ms.len() ==> ms[k] == (m@[k].0@, m@[k].1@),
                    view_strs(sorted@) == sort_keys(obj_keys(ms.take(i as int))),
                decreases m.len() - i,
            {
                proof {
                    assert(ms.take(i as int + 1).drop_last() =~= ms.take(i as int));
                    assert(ms.take(i as int + 1).last() == ms[i as int]);
                    assert(obj_keys(ms.take(i as int + 1)) == obj_keys(ms.take(i as int)).push(
                        ms[i as int].0,
                    ));
                    assert(obj_keys(ms.take(i as int + 1)).drop_last() =~= obj_keys(
                        ms.take(i as int),
                    ));
                    assert(obj_keys(ms.take(i as int + 1)).last() == ms[i as int].0);
                }
                let key = m[i].0.clone();
                insert_key(&mut sorted, key);
                i = i + 1;
            }
            proof {
                assert(ms.take(m@.len() as int) =~= ms);
            }
            let mut out: Vec<Json> = Vec::new();
            let ghost sk = view_strs(sorted@);
            proof {
                lemma_view_strs(sorted@);
                assert(view_arr(out@) =~= keys_to_values(sk.take(0)));
            }
            let mut i: usize = 0;
            while i < sorted.len()
                invariant
                    0 <= i <= sorted.len(),
                    sk == view_strs(sorted@),
                    sk.len() == sorted@.len(),
                    forall|k: int| 0 <= k < sk.len() ==> sk[k] == sorted@[k]@,
                    view_arr(out@) == keys_to_values(sk.take(i as int)),
                decreases sorted.len() - i,
            {
                let ghost oldo = out@;
                out.push(Json::String(sorted[i].clone()));
                proof {
                    assert(out@.drop_last() =~= oldo);
                    assert(view_arr(out@) == view_arr(oldo).push(out@.last()@));
                    assert(sk.take(i as int + 1).drop_last() =~= sk.take(i as int));
                    assert(sk.take(i as int + 1).last() == sk[i as int]);
                }
                i = i + 1;
            }
            proof {
                assert(sk.take(sorted@.len() as int) =~= sk);
            }
            Ok(Json::Array(out))
        },
        _ => Err(err_of("cannot take the keys of this value")),
    }
}

/// `length` of one value.
fn length_exec(v: &Json) -> (r: Result<Json, String>)
    ensures
        match r {
            Ok(x) => length_spec(v@) == Ok::<JsonV, ()>(x@),
            Err(_) => length_spec(v@) is Err,
        },
{
    match v {
        Json::Number(n) => Ok(Json::Number(num_abs(*n))),
        Json::String(s) => {
            let b: usize = s.as_str().len();
            Ok(Json::Number(num_from_usize(b)))
        },
        Json::Array(a) => {
            proof {
                lemma_view_arr(a@);
            }
            Ok(Json::Number(num_from_usize(a.len())))
        },
        Json::Object(m) => {
            proof {
                lemma_view_obj(m@);
            }
            Ok(Json::Number(num_from_usize(m.len())))
        },
        Json::Null => Ok(Json::Number(0)),
        _ => Err(err_of("cannot take the length of this value")),
    }
}

/// `has` of one container/probe pair.
fn has_pair_exec(container: &Json, probe: &Json) -> (r: Result<bool, String>)
    ensures
        match r {
            Ok(b) => has_pair(container@, probe@) == Ok::<bool, ()>(b),
            Err(_) => has_pair(container@, probe@) is Err,
        },
{
    match (container, probe) {
        (Json::Object(m), Json::String(k)) => {
            match obj_find(m, k) {
                Some(_) => Ok(true),
                None => Ok(false),
            }
        },
        (Json::Array(arr), Json::Number(n)) => {
            proof {
                lemma_view_arr(arr@);
            }
            let ix = num_floor_usize(*n);
            Ok(ix < arr.len())
        },
        _ => Err(err_of("invalid use of a containment test")),
    }
}


// ------------------------------------------------------------------
// Stream folds: each output of an evaluated side processed in turn.
// ------------------------------------------------------------------

proof fn lemma_abs_fold_err(vs: Seq<JsonV>, i: int)
    requires
        0 <= i < vs.len(),
        !(vs[i] is Number),
    ensures
        abs_fold(vs) is Err,
    decreases vs.len(),
{
    if i == vs.len() - 1 {
        assert(vs.last() == vs[i]);
    } else {
        assert(vs.drop_last()[i] == vs[i]);
        lemma_abs_fold_err(vs.drop_last(), i);
    }
}

/// Absolute value of every number in the stream.
fn abs_all(vs: &Vec<Json>) -> (r: Result<Vec<Json>, String>)
    ensures
        match r {
            Ok(out) => abs_fold(view_arr(vs@)) == Ok::<Seq<JsonV>, ()>(view_arr(out@)),
            Err(_) => abs_fold(view_arr(vs@)) is Err,
        },
{
    let ghost vv = view_arr(vs@);
    proof {
        lemma_view_arr(vs@);
    }
    let mut out: Vec<Json> = Vec::new();
    let mut i: usize = 0;
    proof {
        assert(view_arr(out@) =~= Seq::<JsonV>::empty());
        assert(vv.take(0) =~= Seq::<JsonV>::empty());
    }
    while i < vs.len()
        invariant
            0 <= i <= vs.len(),
            vv == view_arr(vs@),
            vv.len() == vs@.len(),
            forall|k: int| 0 <= k < vv.len() ==> vv[k] == vs@[k]@,
            abs_fold(vv.take(i as int)) == Ok::<Seq<JsonV>, ()>(view_arr(out@)),
        decreases vs.len() - i,
    {
        proof {
            assert(vv.take(i as int + 1).drop_last() =~= vv.take(i as int));
            assert(vv.take(i as int + 1).last() == vv[i as int]);
        }
        match &vs[i] {
            Json::Number(n) => {
                let ghost oldo = out@;
                out.push(Json::Number(num_abs(*n)));
                proof {
                    assert(out@.drop_last() =~= oldo);
                    assert(view_arr(out@) == view_arr(oldo).push(out@.last()@));
                }
            },
            _ => {
                proof {
                    lemma_abs_fold_err(vv, i as int);
                }
                return Err(err_of("cannot take an absolute value here"));
            },
        }
        i = i + 1;
    }
    proof {
        assert(vv.take(vs@.len() as int) =~= vv);
    }
    Ok(out)
}

proof fn lemma_length_fold_err(vs: Seq<JsonV>, i: int)
    requires
        0 <= i < vs.len(),
        length_spec(vs[i]) is Err,
    ensures
        length_fold(vs) is Err,
    decreases vs.len(),
{
    if i == vs.len() - 1 {
        assert(vs.last() == vs[i]);
    } else {
        assert(vs.drop_last()[i] == vs[i]);
        lemma_length_fold_err(vs.drop_last(), i);
    }
}

/// `length` of every value in the stream.
fn length_all(vs: &Vec<Json>) -> (r: Result<Vec<Json>, String>)
    ensures
        match r {
            Ok(out) => length_fold(view_arr(vs@)) == Ok::<Seq<JsonV>, ()>(view_arr(out@)),
            Err(_) => length_fold(view_arr(vs@)) is Err,
        },
{
    let ghost vv = view_arr(vs@);
    proof {
        lemma_view_arr(vs@);
    }
    let mut out: Vec<Json> = Vec::new();
    let mut i: usize = 0;
    proof {
        assert(view_arr(out@) =~= Seq::<JsonV>::empty());
        assert(vv.take(0) =~= Seq::<JsonV>::empty());
    }
    while i < vs.len()
        invariant
            0 <= i <= vs.len(),
            vv == view_arr(vs@),
            vv.len() == vs@.len(),
            forall|k: int| 0 <= k < vv.len() ==> vv[k] == vs@[k]@,
            length_fold(vv.take(i as int)) == Ok::<Seq<JsonV>, ()>(view_arr(out@)),
        decreases vs.len() - i,
    {
        proof {
            assert(vv.take(i as int + 1).drop_last() =~= vv.take(i as int));
            assert(vv.take(i as int + 1).last() == vv[i as int]);
        }
        match length_exec(&vs[i]) {
            Ok(v) => {
                let ghost oldo = out@;
                out.push(v);
                proof {
                    assert(out@.drop_last() =~= oldo);
                    assert(view_arr(out@) == view_arr(oldo).push(out@.last()@));
                }
            },
            Err(e) => {
                proof {
                    lemma_length_fold_err(vv, i as int);
                }
                return Err(e);
            },
        }
        i = i + 1;
    }
    proof {
        assert(vv.take(vs@.len() as int) =~= vv);
    }
    Ok(out)
}

proof fn lemma_keys_fold_err(vs: Seq<JsonV>, i: int)
    requires
        0 <= i < vs.len(),
        keys_spec(vs[i]) is Err,
    ensures
        keys_fold(vs) is Err,
    decreases vs.len(),
{
    if i == vs.len() - 1 {
        assert(vs.last() == vs[i]);
    } else {
        assert(vs.drop_last()[i] == vs[i]);
        lemma_keys_fold_err(vs.drop_last(), i);
    }
}

/// `keys` of every value in the stream.
fn keys_all(vs: &Vec<Json>) -> (r: Result<Vec<Json>, String>)
    ensures
        match r {
            Ok(out) => keys_fold(view_arr(vs@)) == Ok::<Seq<JsonV>, ()>(view_arr(out@)),
            Err(_) => keys_fold(view_arr(vs@)) is Err,
        },
{
    let ghost vv = view_arr(vs@);
    proof {
        lemma_view_arr(vs@);
    }
    let mut out: Vec<Json> = Vec::new();
    let mut i: usize = 0;
    proof {
        assert(view_arr(out@) =~= Seq::<JsonV>::empty());
        assert(vv.take(0) =~= Seq::<JsonV>::empty());
    }
    while i < vs.len()
        invariant
            0 <= i <= vs.len(),
            vv == view_arr(vs@),
            vv.len() == vs@.len(),
            forall|k: int| 0 <= k < vv.len() ==> vv[k] == vs@[k]@,
            keys_fold(vv.take(i as int)) == Ok::<Seq<JsonV>, ()>(view_arr(out@)),
        decreases vs.len() - i,
    {
        proof {
            assert(vv.take(i as int + 1).drop_last() =~= vv.take(i as int));
            assert(vv.take(i as int + 1).last() == vv[i as int]);
        }
        match keys_exec(&vs[i]) {
            Ok(v) => {
                let ghost oldo = out@;
                out.push(v);
                proof {
                    assert(out@.drop_last() =~= oldo);
                    assert(view_arr(out@) == view_arr(oldo).push(out@.last()@));
                }
            },
            Err(e) => {
                proof {
                    lemma_keys_fold_err(vv, i as int);
                }
                return Err(e);
            },
        }
        i = i + 1;
    }
    proof {
        assert(vv.take(vs@.len() as int) =~= vv);
    }
    Ok(out)
}

proof fn lemma_not_fold_err(vs: Seq<JsonV>, i: int)
    requires
        0 <= i < vs.len(),
        !(vs[i] is Boolean),
    ensures
        not_fold(vs) is Err,
    decreases vs.len(),
{
    if i == vs.len() - 1 {
        assert(vs.last() == vs[i]);
    } else {
        assert(vs.drop_last()[i] == vs[i]);
        lemma_not_fold_err(vs.drop_last(), i);
    }
}

/// Negation of every boolean in the stream.
fn not_all(vs: &Vec<Json>) -> (r: Result<Vec<Json>, String>)
    ensures
        match r {
            Ok(out) => not_fold(view_arr(vs@)) == Ok::<Seq<JsonV>, ()>(view_arr(out@)),
            Err(_) => not_fold(view_arr(vs@)) is Err,
        },
{
    let ghost vv = view_arr(vs@);
    proof {
        lemma_view_arr(vs@);
    }
    let mut out: Vec<Json> = Vec::new();
    let mut i: usize = 0;
    proof {
        assert(view_arr(out@) =~= Seq::<JsonV>::empty());
        assert(vv.take(0) =~= Seq::<JsonV>::empty());
    }
    while i < vs.len()
        invariant
            0 <= i <= vs.len(),
            vv == view_arr(vs@),
            vv.len() == vs@.len(),
            forall|k: int| 0 <= k < vv.len() ==> vv[k] == vs@[k]@,
            not_fold(vv.take(i as int)) == Ok::<Seq<JsonV>, ()>(view_arr(out@)),
        decreases vs.len() - i,
    {
        proof {
            assert(vv.take(i as int + 1).drop_last() =~= vv.take(i as int));
            assert(vv.take(i as int + 1).last() == vv[i as int]);
        }
        match &vs[i] {
            Json::Boolean(b) => {
                let ghost oldo = out@;
                out.push(Json::Boolean(!*b));
                proof {
                    assert(out@.drop_last() =~= oldo);
                    assert(view_arr(out@) == view_arr(oldo).push(out@.last()@));
                }
            },
            _ => {
                proof {
                    lemma_not_fold_err(vv, i as int);
                }
                return Err(err_of("cannot negate this value"));
            },
        }
        i = i + 1;
    }
    proof {
        assert(vv.take(vs@.len() as int) =~= vv);
    }
    Ok(out)
}

proof fn lemma_has_fold_err(inp: JsonV, ps: Seq<JsonV>, i: int)
    requires
        0 <= i < ps.len(),
        has_pair(inp, ps[i]) is Err,
    ensures
        has_fold(inp, ps) is Err,
    decreases ps.len(),
{
    if i == ps.len() - 1 {
        assert(ps.last() == ps[i]);
    } else {
        assert(ps.drop_last()[i] == ps[i]);
        lemma_has_fold_err(inp, ps.drop_last(), i);
    }
}

proof fn lemma_in_fold_err(inp: JsonV, ps: Seq<JsonV>, i: int)
    requires
        0 <= i < ps.len(),
        has_pair(ps[i], inp) is Err,
    ensures
        in_fold(inp, ps) is Err,
    decreases ps.len(),
{
    if i == ps.len() - 1 {
        assert(ps.last() == ps[i]);
    } else {
        assert(ps.drop_last()[i] == ps[i]);
        lemma_in_fold_err(inp, ps.drop_last(), i);
    }
}

/// `has`: the input probed with each argument output; `rev` flips the pair
/// for `in`.
fn has_all(inp: &Json, ps: &Vec<Json>, rev: bool) -> (r: Result<Vec<Json>, String>)
    ensures
        match r {
            Ok(out) => (if rev {
                in_fold(inp@, view_arr(ps@))
            } else {
                has_fold(inp@, view_arr(ps@))
            }) == Ok::<Seq<JsonV>, ()>(view_arr(out@)),
            Err(_) => (if rev {
                in_fold(inp@, view_arr(ps@))
            } else {
                has_fold(inp@, view_arr(ps@))
            }) is Err,
        },
{
    let ghost pv = view_arr(ps@);
    proof {
        lemma_view_arr(ps@);
    }
    let mut out: Vec<Json> = Vec::new();
    let mut i: usize = 0;
    proof {
        assert(view_arr(out@) =~= Seq::<JsonV>::empty());
        assert(pv.take(0) =~= Seq::<JsonV>::empty());
    }
    while i < ps.len()
        invariant
            0 <= i <= ps.len(),
            pv == view_arr(ps@),
            pv.len() == ps@.len(),
            forall|k: int| 0 <= k < pv.len() ==> pv[k] == ps@[k]@,
            (if rev {
                in_fold(inp@, pv.take(i as int))
            } else {
                has_fold(inp@, pv.take(i as int))
            }) == Ok::<Seq<JsonV>, ()>(view_arr(out@)),
        decreases ps.len() - i,
    {
        proof {
            assert(pv.take(i as int + 1).drop_last() =~= pv.take(i as int));
            assert(pv.take(i as int + 1).last() == pv[i as int]);
        }
        let step = if rev {
            has_pair_exec(&ps[i], inp)
        } else {
            has_pair_exec(inp, &ps[i])
        };
        match step {
            Ok(b) => {
                let ghost oldo = out@;
                out.push(Json::Boolean(b));
                proof {
                    assert(out@.drop_last() =~= oldo);
                    assert(view_arr(out@) == view_arr(oldo).push(out@.last()@));
                }
            },
            Err(e) => {
                proof {
                    if rev {
                        lemma_in_fold_err(inp@, pv, i as int);
                    } else {
                        lemma_has_fold_err(inp@, pv, i as int);
                    }
                }
                return Err(e);
            },
        }
        i = i + 1;
    }
    proof {
        assert(pv.take(ps@.len() as int) =~= pv);
    }
    Ok(out)
}


// ------------------------------------------------------------------
// Cross products of two evaluated sides.
// ------------------------------------------------------------------

/// One arithmetic operator on one pair of values.
fn arith_pair_exec(op: ArithOp, a: &Json, b: &Json) -> (r: Result<Json, String>)
    ensures
        match r {
            Ok(v) => arith_pair(op, a@, b@) == Ok::<JsonV, ()>(v@),
            Err(_) => arith_pair(op, a@, b@) is Err,
        },
{
    match op {
        ArithOp::Add => match (a, b) {
            (Json::Number(x), Json::Number(y)) => Ok(Json::Number(num_add(*x, *y))),
            (Json::Array(x), Json::Array(y)) => {
                let mut out = clone_arr(x);
                let mut rest = clone_arr(y);
                let ghost ox = out@;
                let ghost oy = rest@;
                out.append(&mut rest);
                proof {
                    lemma_view_arr(ox);
                    lemma_view_arr(oy);
                    lemma_view_arr(ox + oy);
                    lemma_view_arr(x@);
                    lemma_view_arr(y@);
                    assert(view_arr(ox + oy) =~= view_arr(x@) + view_arr(y@));
                }
                Ok(Json::Array(out))
            },
            (Json::String(x), Json::String(y)) => {
                let mut out = x.clone();
                out.append(y.as_str());
                Ok(Json::String(out))
            },
            (Json::Object(x), Json::Object(y)) => Ok(Json::Object(obj_extend_exec(x, y))),
            (any, Json::Null) => Ok(clone_json(any)),
            _ => Err(err_of("bad addition")),
        },
        ArithOp::Sub => match (a, b) {
            (Json::Number(x), Json::Number(y)) => Ok(Json::Number(num_sub(*x, *y))),
            (Json::Array(x), Json::Array(y)) => Ok(Json::Array(arr_diff_exec(x, y))),
            _ => Err(err_of("bad subtraction")),
        },
        ArithOp::Mul => json_mult_exec(a, b),
        ArithOp::Div => match (a, b) {
            (Json::Number(x), Json::Number(y)) => Ok(Json::Number(num_div(*x, *y))),
            _ => Err(err_of("bad division")),
        },
        ArithOp::Rem => match (a, b) {
            (Json::Number(x), Json::Number(y)) => Ok(Json::Number(num_rem(*x, *y))),
            _ => Err(err_of("bad modulo")),
        },
    }
}

proof fn lemma_arith_row_err(op: ArithOp, l: JsonV, rs: Seq<JsonV>, i: int)
    requires
        0 <= i < rs.len(),
        arith_pair(op, l, rs[i]) is Err,
    ensures
        arith_row(op, l, rs) is Err,
    decreases rs.len(),
{
    if i == rs.len() - 1 {
        assert(rs.last() == rs[i]);
    } else {
        assert(rs.drop_last()[i] == rs[i]);
        lemma_arith_row_err(op, l, rs.drop_last(), i);
    }
}

proof fn lemma_arith_cross_err(op: ArithOp, ls: Seq<JsonV>, rs: Seq<JsonV>, i: int)
    requires
        0 <= i < ls.len(),
        arith_row(op, ls[i], rs) is Err,
    ensures
        arith_cross(op, ls, rs) is Err,
    decreases ls.len(),
{
    if i == ls.len() - 1 {
        assert(ls.last() == ls[i]);
    } else {
        assert(ls.drop_last()[i] == ls[i]);
        lemma_arith_cross_err(op, ls.drop_last(), rs, i);
    }
}

/// The arithmetic cross product of two output streams.
fn arith_cross_exec(op: ArithOp, ls: &Vec<Json>, rs: &Vec<Json>) -> (r: Result<Vec<Json>, String>)
    ensures
        match r {
            Ok(out) => arith_cross(op, view_arr(ls@), view_arr(rs@)) == Ok::<Seq<JsonV>, ()>(
                view_arr(out@),
            ),
            Err(_) => arith_cross(op, view_arr(ls@), view_arr(rs@)) is Err,
        },
{
    let ghost lv = view_arr(ls@);
    let ghost rv = view_arr(rs@);
    proof {
        lemma_view_arr(ls@);
        lemma_view_arr(rs@);
    }
    let mut out: Vec<Json> = Vec::new();
    let mut i: usize = 0;
    proof {
        assert(view_arr(out@) =~= Seq::<JsonV>::empty());
        assert(lv.take(0) =~= Seq::<JsonV>::empty());
    }
    while i < ls.len()
        invariant
            0 <= i <= ls.len(),
            lv == view_arr(ls@) && rv == view_arr(rs@),
            lv.len() == ls@.len() && rv.len() == rs@.len(),
            forall|k: int| 0 <= k < lv.len() ==> lv[k] == ls@[k]@,
            forall|k: int| 0 <= k < rv.len() ==> rv[k] == rs@[k]@,
            arith_cross(op, lv.take(i as int), rv) == Ok::<Seq<JsonV>, ()>(view_arr(out@)),
        decreases ls.len() - i,
    {
        proof {
            assert(lv.take(i as int + 1).drop_last() =~= lv.take(i as int));
            assert(lv.take(i as int + 1).last() == lv[i as int]);
        }
        let mut j: usize = 0;
        proof {
            assert(rv.take(0) =~= Seq::<JsonV>::empty());
        }
        let mut row: Vec<Json> = Vec::new();
        proof {
            assert(view_arr(row@) =~= Seq::<JsonV>::empty());
        }
        while j < rs.len()
            invariant
                0 <= j <= rs.len(),
                0 <= i < ls.len(),
                lv == view_arr(ls@) && rv == view_arr(rs@),
                lv.len() == ls@.len() && rv.len() == rs@.len(),
                forall|k: int| 0 <= k < lv.len() ==> lv[k] == ls@[k]@,
                forall|k: int| 0 <= k < rv.len() ==> rv[k] == rs@[k]@,
                arith_row(op, lv[i as int], rv.take(j as int)) == Ok::<Seq<JsonV>, ()>(
                    view_arr(row@),
                ),
            decreases rs.len() - j,
        {
            proof {
                assert(rv.take(j as int + 1).drop_last() =~= rv.take(j as int));
                assert(rv.take(j as int + 1).last() == rv[j as int]);
            }
            match arith_pair_exec(op, &ls[i], &rs[j]) {
                Ok(v) => {
                    let ghost oldr = row@;
                    row.push(v);
                    proof {
                        assert(row@.drop_last() =~= oldr);
                        assert(view_arr(row@) == view_arr(oldr).push(row@.last()@));
                    }
                },
                Err(e) => {
                    proof {
                        lemma_arith_row_err(op, lv[i as int], rv, j as int);
                        lemma_arith_cross_err(op, lv, rv, i as int);
                    }
                    return Err(e);
                },
            }
            j = j + 1;
        }
        proof {
            assert(rv.take(rs@.len() as int) =~= rv);
        }
        let ghost oldo = out@;
        let ghost rowv = row@;
        out.append(&mut row);
        proof {
            lemma_view_arr(oldo);
            lemma_view_arr(rowv);
            lemma_view_arr(oldo + rowv);
            assert(view_arr(oldo + rowv) =~= view_arr(oldo) + view_arr(rowv));
        }
        i = i + 1;
    }
    proof {
        assert(lv.take(ls@.len() as int) =~= lv);
    }
    Ok(out)
}

/// One comparison on one pair of values.
fn cmp_pair_exec(op: CmpOp, a: &Json, b: &Json) -> (r: Result<bool, String>)
    ensures
        match r {
            Ok(v) => cmp_pair(op, a@, b@) == Ok::<bool, ()>(v),
            Err(_) => cmp_pair(op, a@, b@) is Err,
        },
{
    match op {
        CmpOp::EqOp => Ok(eq_json(a, b)),
        CmpOp::NeOp => Ok(!eq_json(a, b)),
        _ => match cmp_json(a, b) {
            Err(()) => Err(err_of("cannot compare these values")),
            Ok(None) => Ok(false),
            Ok(Some(c)) => Ok(
                match op {
                    CmpOp::GtOp => matches!(c, Cmp::Greater),
                    CmpOp::GeOp => matches!(c, Cmp::Greater) || matches!(c, Cmp::Equal),
                    CmpOp::LtOp => matches!(c, Cmp::Less),
                    CmpOp::LeOp => matches!(c, Cmp::Less) || matches!(c, Cmp::Equal),
                    _ => false,
                },
            ),
        },
    }
}

proof fn lemma_cmp_row_err(op: CmpOp, l: JsonV, rs: Seq<JsonV>, i: int)
    requires
        0 <= i < rs.len(),
        cmp_pair(op, l, rs[i]) is Err,
    ensures
        cmp_row(op, l, rs) is Err,
    decreases rs.len(),
{
    if i == rs.len() - 1 {
        assert(rs.last() == rs[i]);
    } else {
        assert(rs.drop_last()[i] == rs[i]);
        lemma_cmp_row_err(op, l, rs.drop_last(), i);
    }
}

proof fn lemma_cmp_cross_err(op: CmpOp, ls: Seq<JsonV>, rs: Seq<JsonV>, i: int)
    requires
        0 <= i < ls.len(),
        cmp_row(op, ls[i], rs) is Err,
    ensures
        cmp_cross(op, ls, rs) is Err,
    decreases ls.len(),
{
    if i == ls.len() - 1 {
        assert(ls.last() == ls[i]);
    } else {
        assert(ls.drop_last()[i] == ls[i]);
        lemma_cmp_cross_err(op, ls.drop_last(), rs, i);
    }
}

/// The comparison cross product of two output streams.
fn cmp_cross_exec(op: CmpOp, ls: &Vec<Json>, rs: &Vec<Json>) -> (r: Result<Vec<Json>, String>)
    ensures
        match r {
            Ok(out) => cmp_cross(op, view_arr(ls@), view_arr(rs@)) == Ok::<Seq<JsonV>, ()>(
                view_arr(out@),
            ),
            Err(_) => cmp_cross(op, view_arr(ls@), view_arr(rs@)) is Err,
        },
{
    let ghost lv = view_arr(ls@);
    let ghost rv = view_arr(rs@);
    proof {
        lemma_view_arr(ls@);
        lemma_view_arr(rs@);
    }
    let mut out: Vec<Json> = Vec::new();
    let mut i: usize = 0;
    proof {
        assert(view_arr(out@) =~= Seq::<JsonV>::empty());
        assert(lv.take(0) =~= Seq::<JsonV>::empty());
    }
    while i < ls.len()
        invariant
            0 <= i <= ls.len(),
            lv == view_arr(ls@) && rv == view_arr(rs@),
            lv.len() == ls@.len() && rv.len() == rs@.len(),
            forall|k: int| 0 <= k < lv.len() ==> lv[k] == ls@[k]@,
            forall|k: int| 0 <= k < rv.len() ==> rv[k] == rs@[k]@,
            cmp_cross(op, lv.take(i as int), rv) == Ok::<Seq<JsonV>, ()>(view_arr(out@)),
        decreases ls.len() - i,
    {
        proof {
            assert(lv.take(i as int + 1).drop_last() =~= lv.take(i as int));
            assert(lv.take(i as int + 1).last() == lv[i as int]);
        }
        let mut j: usize = 0;
        proof {
            assert(rv.take(0) =~= Seq::<JsonV>::empty());
        }
        let mut row: Vec<Json> = Vec::new();
        proof {
            assert(view_arr(row@) =~= Seq::<JsonV>::empty());
        }
        while j < rs.len()
            invariant
                0 <= j <= rs.len(),
                0 <= i < ls.len(),
                lv == view_arr(ls@) && rv == view_arr(rs@),
                lv.len() == ls@.len() && rv.len() == rs@.len(),
                forall|k: int| 0 <= k < lv.len() ==> lv[k] == ls@[k]@,
                forall|k: int| 0 <= k < rv.len() ==> rv[k] == rs@[k]@,
                cmp_row(op, lv[i as int], rv.take(j as int)) == Ok::<Seq<JsonV>, ()>(
                    view_arr(row@),
                ),
            decreases rs.len() - j,
        {
            proof {
                assert(rv.take(j as int + 1).drop_last() =~= rv.take(j as int));
                assert(rv.take(j as int + 1).last() == rv[j as int]);
            }
            match cmp_pair_exec(op, &ls[i], &rs[j]) {
                Ok(b) => {
                    let ghost oldr = row@;
                    row.push(Json::Boolean(b));
                    proof {
                        assert(row@.drop_last() =~= oldr);
                        assert(view_arr(row@) == view_arr(oldr).push(row@.last()@));
                    }
                },
                Err(e) => {
                    proof {
                        lemma_cmp_row_err(op, lv[i as int], rv, j as int);
                        lemma_cmp_cross_err(op, lv, rv, i as int);
                    }
                    return Err(e);
                },
            }
            j = j + 1;
        }
        proof {
            assert(rv.take(rs@.len() as int) =~= rv);
        }
        let ghost oldo = out@;
        let ghost rowv = row@;
        out.append(&mut row);
        proof {
            lemma_view_arr(oldo);
            lemma_view_arr(rowv);
            lemma_view_arr(oldo + rowv);
            assert(view_arr(oldo + rowv) =~= view_arr(oldo) + view_arr(rowv));
        }
        i = i + 1;
    }
    proof {
        assert(lv.take(ls@.len() as int) =~= lv);
    }
    Ok(out)
}

/// The logical cross product of two output streams: never an error.
fn logic_cross_exec(op: LogicOp, ls: &Vec<Json>, rs: &Vec<Json>) -> (out: Vec<Json>)
    ensures
        view_arr(out@) == logic_cross(op, view_arr(ls@), view_arr(rs@)),
{
    let ghost lv = view_arr(ls@);
    let ghost rv = view_arr(rs@);
    proof {
        lemma_view_arr(ls@);
        lemma_view_arr(rs@);
    }
    let mut out: Vec<Json> = Vec::new();
    let mut i: usize = 0;
    proof {
        assert(view_arr(out@) =~= Seq::<JsonV>::empty());
        assert(lv.take(0) =~= Seq::<JsonV>::empty());
    }
    while i < ls.len()
        invariant
            0 <= i <= ls.len(),
            lv == view_arr(ls@) && rv == view_arr(rs@),
            lv.len() == ls@.len() && rv.len() == rs@.len(),
            forall|k: int| 0 <= k < lv.len() ==> lv[k] == ls@[k]@,
            forall|k: int| 0 <= k < rv.len() ==> rv[k] == rs@[k]@,
            view_arr(out@) == logic_cross(op, lv.take(i as int), rv),
        decreases ls.len() - i,
    {
        proof {
            assert(lv.take(i as int + 1).drop_last() =~= lv.take(i as int));
            assert(lv.take(i as int + 1).last() == lv[i as int]);
        }
        let mut j: usize = 0;
        proof {
            assert(rv.take(0) =~= Seq::<JsonV>::empty());
        }
        let mut row: Vec<Json> = Vec::new();
        proof {
            assert(view_arr(row@) =~= Seq::<JsonV>::empty());
        }
        while j < rs.len()
            invariant
                0 <= j <= rs.len(),
                0 <= i < ls.len(),
                lv == view_arr(ls@) && rv == view_arr(rs@),
                lv.len() == ls@.len() && rv.len() == rs@.len(),
                forall|k: int| 0 <= k < lv.len() ==> lv[k] == ls@[k]@,
                forall|k: int| 0 <= k < rv.len() ==> rv[k] == rs@[k]@,
                view_arr(row@) == logic_row(op, lv[i as int], rv.take(j as int)),
            decreases rs.len() - j,
        {
            proof {
                assert(rv.take(j as int + 1).drop_last() =~= rv.take(j as int));
                assert(rv.take(j as int + 1).last() == rv[j as int]);
            }
            let b: bool = match (&ls[i], &rs[j]) {
                (Json::Boolean(x), Json::Boolean(y)) => match op {
                    LogicOp::AndOp => *x && *y,
                    LogicOp::OrOp => *x || *y,
                },
                _ => false,
            };
            let ghost oldr = row@;
            row.push(Json::Boolean(b));
            proof {
                assert(row@.drop_last() =~= oldr);
                assert(view_arr(row@) == view_arr(oldr).push(row@.last()@));
            }
            j = j + 1;
        }
        proof {
            assert(rv.take(rs@.len() as int) =~= rv);
        }
        let ghost oldo = out@;
        let ghost rowv = row@;
        out.append(&mut row);
        proof {
            lemma_view_arr(oldo);
            lemma_view_arr(rowv);
            lemma_view_arr(oldo + rowv);
            assert(view_arr(oldo + rowv) =~= view_arr(oldo) + view_arr(rowv));
        }
        i = i + 1;
    }
    proof {
        assert(lv.take(ls@.len() as int) =~= lv);
    }
    out
}

proof fn lemma_obj_cross_err(ks: Seq<JsonV>, vs: Seq<JsonV>, i: int)
    requires
        0 <= i < ks.len(),
        !(ks[i] is String),
    ensures
        obj_cross(ks, vs) is Err,
    decreases ks.len(),
{
    if i == ks.len() - 1 {
        assert(ks.last() == ks[i]);
    } else {
        assert(ks.drop_last()[i] == ks[i]);
        lemma_obj_cross_err(ks.drop_last(), vs, i);
    }
}

/// Key/value cross product of one object-construction pair.
fn obj_cross_exec(ks: &Vec<Json>, vs: &Vec<Json>) -> (r: Result<Vec<Json>, String>)
    ensures
        match r {
            Ok(out) => obj_cross(view_arr(ks@), view_arr(vs@)) == Ok::<Seq<JsonV>, ()>(
                view_arr(out@),
            ),
            Err(_) => obj_cross(view_arr(ks@), view_arr(vs@)) is Err,
        },
{
    let ghost kv = view_arr(ks@);
    let ghost vv = view_arr(vs@);
    proof {
        lemma_view_arr(ks@);
        lemma_view_arr(vs@);
    }
    let mut out: Vec<Json> = Vec::new();
    let mut i: usize = 0;
    proof {
        assert(view_arr(out@) =~= Seq::<JsonV>::empty());
        assert(kv.take(0) =~= Seq::<JsonV>::empty());
    }
    while i < ks.len()
        invariant
            0 <= i <= ks.len(),
            kv == view_arr(ks@) && vv == view_arr(vs@),
            kv.len() == ks@.len() && vv.len() == vs@.len(),
            forall|k: int| 0 <= k < kv.len() ==> kv[k] == ks@[k]@,
            forall|k: int| 0 <= k < vv.len() ==> vv[k] == vs@[k]@,
            obj_cross(kv.take(i as int), vv) == Ok::<Seq<JsonV>, ()>(view_arr(out@)),
        decreases ks.len() - i,
    {
        proof {
            assert(kv.take(i as int + 1).drop_last() =~= kv.take(i as int));
            assert(kv.take(i as int + 1).last() == kv[i as int]);
        }
        match &ks[i] {
            Json::String(key) => {
                let mut j: usize = 0;
                proof {
                    assert(vv.take(0) =~= Seq::<JsonV>::empty());
                }
                let mut row: Vec<Json> = Vec::new();
                proof {
                    assert(view_arr(row@) =~= Seq::<JsonV>::empty());
                }
                while j < vs.len()
                    invariant
                        0 <= j <= vs.len(),
                        0 <= i < ks.len(),
                        kv == view_arr(ks@) && vv == view_arr(vs@),
                        kv.len() == ks@.len() && vv.len() == vs@.len(),
                        forall|k: int| 0 <= k < kv.len() ==> kv[k] == ks@[k]@,
                        forall|k: int| 0 <= k < vv.len() ==> vv[k] == vs@[k]@,
                        ks@[i as int]@ == JsonV::String(key@),
                        view_arr(row@) == obj_row(key@, vv.take(j as int)),
                    decreases vs.len() - j,
                {
                    proof {
                        assert(vv.take(j as int + 1).drop_last() =~= vv.take(j as int));
                        assert(vv.take(j as int + 1).last() == vv[j as int]);
                    }
                    let mut pairs: Vec<(String, Json)> = Vec::new();
                    let k2 = key.clone();
                    let v2 = clone_json(&vs[j]);
                    pairs.push((k2, v2));
                    proof {
                        assert(pairs@.drop_last() =~= Seq::<(String, Json)>::empty());
                        assert(view_obj(pairs@.drop_last()) =~= Seq::<(Seq<char>, JsonV)>::empty());
                        assert(view_obj(pairs@) =~= seq![(key@, vv[j as int])]);
                    }
                    let ghost oldr = row@;
                    row.push(Json::Object(pairs));
                    proof {
                        assert(row@.drop_last() =~= oldr);
                        assert(view_arr(row@) == view_arr(oldr).push(row@.last()@));
                    }
                    j = j + 1;
                }
                proof {
                    assert(vv.take(vs@.len() as int) =~= vv);
                }
                let ghost oldo = out@;
                let ghost rowv = row@;
                out.append(&mut row);
                proof {
                    lemma_view_arr(oldo);
                    lemma_view_arr(rowv);
                    lemma_view_arr(oldo + rowv);
                    assert(view_arr(oldo + rowv) =~= view_arr(oldo) + view_arr(rowv));
                }
            },
            _ => {
                proof {
                    lemma_obj_cross_err(kv, vv, i as int);
                }
                return Err(err_of("object key has to evaluate to a string"));
            },
        }
        i = i + 1;
    }
    proof {
        assert(kv.take(ks@.len() as int) =~= kv);
    }
    Ok(out)
}


// ------------------------------------------------------------------
// The executable evaluator.
// ------------------------------------------------------------------

/// The then-branch outputs of a conditional filter on this input.
pub open spec fn if_then_res(inp: JsonV, f: JqV) -> Result<Seq<JsonV>, ()> {
    match f {
        JqV::IfStatement(c, t, e) => eval(inp, *t),
        _ => Err(()),
    }
}

/// The else-branch outputs: the else filter's, or the input itself when the
/// branch is absent.
pub open spec fn if_else_res(inp: JsonV, f: JqV) -> Result<Seq<JsonV>, ()> {
    match f {
        JqV::IfStatement(c, t, e) => match e {
            Some(ee) => eval(inp, *ee),
            None => Ok(seq![inp]),
        },
        _ => Err(()),
    }
}

/// The right side's outputs of an alternative filter on this input.
pub open spec fn alt_rhs_res(inp: JsonV, f: JqV) -> Result<Seq<JsonV>, ()> {
    match f {
        JqV::Alternative(a, b) => eval(inp, *b),
        _ => Err(()),
    }
}

proof fn lemma_eval_list_err(inps: Seq<JsonV>, f: JqV, i: int)
    requires
        0 <= i < inps.len(),
        eval(inps[i], f) is Err,
    ensures
        eval_list(inps, f) is Err,
    decreases inps.len(),
{
    if i == inps.len() - 1 {
        assert(inps.last() == inps[i]);
    } else {
        assert(inps.drop_last()[i] == inps[i]);
        lemma_eval_list_err(inps.drop_last(), f, i);
    }
}

proof fn lemma_eval_gather_err(inp: JsonV, xs: Seq<JqV>, i: int)
    requires
        0 <= i < xs.len(),
        eval(inp, xs[i]) is Err,
    ensures
        eval_gather(inp, xs) is Err,
    decreases xs.len(),
{
    if i == xs.len() - 1 {
        assert(xs.last() == xs[i]);
    } else {
        assert(xs.drop_last()[i] == xs[i]);
        lemma_eval_gather_err(inp, xs.drop_last(), i);
    }
}

proof fn lemma_eval_obj_pairs_err(inp: JsonV, ps: Seq<(JqV, JqV)>, i: int)
    requires
        0 <= i < ps.len(),
        match (eval(inp, ps[i].0), eval(inp, ps[i].1)) {
            (Ok(ks), Ok(vs)) => obj_cross(ks, vs) is Err,
            _ => true,
        },
    ensures
        eval_obj_pairs(inp, ps) is Err,
    decreases ps.len(),
{
    if i == ps.len() - 1 {
        assert(ps.last() == ps[i]);
    } else {
        assert(ps.drop_last()[i] == ps[i]);
        lemma_eval_obj_pairs_err(inp, ps.drop_last(), i);
    }
}

proof fn lemma_chain_each_err(els: Seq<JsonV>, ops: Seq<JqV>, i: int)
    requires
        0 <= i < els.len(),
        eval_chain(els[i], ops) is Err,
    ensures
        eval_chain_each(els, ops) is Err,
    decreases els.len(),
{
    if i == els.len() - 1 {
        assert(els.last() == els[i]);
    } else {
        assert(els.drop_last()[i] == els[i]);
        lemma_chain_each_err(els.drop_last(), ops, i);
    }
}

proof fn lemma_if_fold_err(
    cs: Seq<JsonV>,
    tres: Result<Seq<JsonV>, ()>,
    eres: Result<Seq<JsonV>, ()>,
    i: int,
)
    requires
        0 <= i < cs.len(),
        if picks_else(cs[i]) {
            eres is Err
        } else {
            tres is Err
        },
    ensures
        if_fold(cs, tres, eres) is Err,
    decreases cs.len(),
{
    if i == cs.len() - 1 {
        assert(cs.last() == cs[i]);
    } else {
        assert(cs.drop_last()[i] == cs[i]);
        lemma_if_fold_err(cs.drop_last(), tres, eres, i);
    }
}

proof fn lemma_alt_fold_err(vs: Seq<JsonV>, bres: Result<Seq<JsonV>, ()>, i: int)
    requires
        0 <= i < vs.len(),
        picks_else(vs[i]),
        bres is Err,
    ensures
        alt_fold(vs, bres) is Err,
    decreases vs.len(),
{
    if i == vs.len() - 1 {
        assert(vs.last() == vs[i]);
    } else {
        assert(vs.drop_last()[i] == vs[i]);
        lemma_alt_fold_err(vs.drop_last(), bres, i);
    }
}

/// A one-element output stream.
fn singleton(j: Json) -> (r: Vec<Json>)
    ensures
        view_arr(r@) == seq![j@],
{
    let mut out: Vec<Json> = Vec::new();
    out.push(j);
    proof {
        lemma_view_arr(out@);
        assert(view_arr(out@) =~= seq![out@[0]@]);
    }
    out
}

/// The contents of an array construction: every child's outputs, gathered.
fn gather_exec(inp: &Json, xs: &Vec<Jq>) -> (r: Result<Vec<Json>, String>)
    ensures
        match r {
            Ok(out) => eval_gather(inp@, view_jq_seq(xs@)) == Ok::<Seq<JsonV>, ()>(
                view_arr(out@),
            ),
            Err(_) => eval_gather(inp@, view_jq_seq(xs@)) is Err,
        },
    decreases xs, 2int, 0int,
{
    let ghost xv = view_jq_seq(xs@);
    proof {
        lemma_view_jq_seq(xs@);
    }
    let mut out: Vec<Json> = Vec::new();
    let mut i: usize = 0;
    proof {
        assert(view_arr(out@) =~= Seq::<JsonV>::empty());
        assert(xv.take(0) =~= Seq::<JqV>::empty());
    }
    while i < xs.len()
        invariant
            0 <= i <= xs.len(),
            xv == view_jq_seq(xs@),
            xv.len() == xs@.len(),
            forall|k: int| 0 <= k < xv.len() ==> xv[k] == xs@[k]@,
            eval_gather(inp@, xv.take(i as int)) == Ok::<Seq<JsonV>, ()>(view_arr(out@)),
        decreases xs.len() - i,
    {
        proof {
            assert(xv.take(i as int + 1).drop_last() =~= xv.take(i as int));
            assert(xv.take(i as int + 1).last() == xv[i as int]);
        }
        match eval_one(inp, &xs[i]) {
            Ok(mut vs) => {
                let ghost oldo = out@;
                let ghost vv = vs@;
                out.append(&mut vs);
                proof {
                    lemma_view_arr(oldo);
                    lemma_view_arr(vv);
                    lemma_view_arr(oldo + vv);
                    assert(view_arr(oldo + vv) =~= view_arr(oldo) + view_arr(vv));
                }
            },
            Err(e) => {
                proof {
                    lemma_eval_gather_err(inp@, xv, i as int);
                }
                return Err(e);
            },
        }
        i = i + 1;
    }
    proof {
        assert(xv.take(xs@.len() as int) =~= xv);
    }
    Ok(out)
}

/// The outputs of an object construction.
fn obj_pairs_exec(inp: &Json, ps: &Vec<(Jq, Jq)>) -> (r: Result<Vec<Json>, String>)
    ensures
        match r {
            Ok(out) => eval_obj_pairs(inp@, view_jq_pairs(ps@)) == Ok::<Seq<JsonV>, ()>(
                view_arr(out@),
            ),
            Err(_) => eval_obj_pairs(inp@, view_jq_pairs(ps@)) is Err,
        },
    decreases ps, 2int, 0int,
{
    let ghost pv = view_jq_pairs(ps@);
    proof {
        lemma_view_jq_pairs(ps@);
    }
    let mut out: Vec<Json> = Vec::new();
    let mut i: usize = 0;
    proof {
        assert(view_arr(out@) =~= Seq::<JsonV>::empty());
        assert(pv.take(0) =~= Seq::<(JqV, JqV)>::empty());
    }
    while i < ps.len()
        invariant
            0 <= i <= ps.len(),
            pv == view_jq_pairs(ps@),
            pv.len() == ps@.len(),
            forall|k: int| 0 <= k < pv.len() ==> pv[k] == (ps@[k].0@, ps@[k].1@),
            eval_obj_pairs(inp@, pv.take(i as int)) == Ok::<Seq<JsonV>, ()>(view_arr(out@)),
        decreases ps.len() - i,
    {
        proof {
            assert(pv.take(i as int + 1).drop_last() =~= pv.take(i as int));
            assert(pv.take(i as int + 1).last() == pv[i as int]);
        }
        let kres = eval_one(inp, &ps[i].0);
        match kres {
            Ok(ks) => {
                match eval_one(inp, &ps[i].1) {
                    Ok(vs) => {
                        match obj_cross_exec(&ks, &vs) {
                            Ok(mut os) => {
                                let ghost oldo = out@;
                                let ghost ov = os@;
                                out.append(&mut os);
                                proof {
                                    lemma_view_arr(oldo);
                                    lemma_view_arr(ov);
                                    lemma_view_arr(oldo + ov);
                                    assert(view_arr(oldo + ov) =~= view_arr(oldo) + view_arr(
                                        ov,
                                    ));
                                }
                            },
                            Err(e) => {
                                proof {
                                    lemma_eval_obj_pairs_err(inp@, pv, i as int);
                                }
                                return Err(e);
                            },
                        }
                    },
                    Err(e) => {
                        proof {
                            lemma_eval_obj_pairs_err(inp@, pv, i as int);
                        }
                        return Err(e);
                    },
                }
            },
            Err(e) => {
                proof {
                    lemma_eval_obj_pairs_err(inp@, pv, i as int);
                }
                return Err(e);
            },
        }
        i = i + 1;
    }
    proof {
        assert(pv.take(ps@.len() as int) =~= pv);
    }
    Ok(out)
}

/// The chain from position `i` applied to each element of a stream.
fn chain_each_exec(els: &Vec<Json>, ops: &Vec<Jq>, i: usize) -> (r: Result<Vec<Json>, String>)
    requires
        i <= ops@.len(),
    ensures
        match r {
            Ok(out) => eval_chain_each(view_arr(els@), view_jq_seq(ops@).skip(i as int))
                == Ok::<Seq<JsonV>, ()>(view_arr(out@)),
            Err(_) => eval_chain_each(view_arr(els@), view_jq_seq(ops@).skip(i as int)) is Err,
        },
    decreases ops@.len() - i, 1int, els,
{
    let ghost ev = view_arr(els@);
    let ghost suffix = view_jq_seq(ops@).skip(i as int);
    proof {
        lemma_view_arr(els@);
        lemma_view_jq_seq(ops@);
    }
    let mut out: Vec<Json> = Vec::new();
    let mut k: usize = 0;
    proof {
        assert(view_arr(out@) =~= Seq::<JsonV>::empty());
        assert(ev.take(0) =~= Seq::<JsonV>::empty());
    }
    while k < els.len()
        invariant
            0 <= k <= els.len(),
            i <= ops@.len(),
            ev == view_arr(els@),
            suffix == view_jq_seq(ops@).skip(i as int),
            ev.len() == els@.len(),
            forall|j: int| 0 <= j < ev.len() ==> ev[j] == els@[j]@,
            eval_chain_each(ev.take(k as int), suffix) == Ok::<Seq<JsonV>, ()>(view_arr(out@)),
        decreases els.len() - k,
    {
        proof {
            assert(ev.take(k as int + 1).drop_last() =~= ev.take(k as int));
            assert(ev.take(k as int + 1).last() == ev[k as int]);
        }
        match chain_exec(&els[k], ops, i) {
            Ok(mut vs) => {
                let ghost oldo = out@;
                let ghost vv = vs@;
                out.append(&mut vs);
                proof {
                    lemma_view_arr(oldo);
                    lemma_view_arr(vv);
                    lemma_view_arr(oldo + vv);
                    assert(view_arr(oldo + vv) =~= view_arr(oldo) + view_arr(vv));
                }
            },
            Err(e) => {
                proof {
                    lemma_chain_each_err(ev, suffix, k as int);
                }
                return Err(e);
            },
        }
        k = k + 1;
    }
    proof {
        assert(ev.take(els@.len() as int) =~= ev);
    }
    Ok(out)
}

/// A bracketed subscript list applied to the input, at position `i` of the
/// chain.
fn chain_ids_exec(inp: &Json, ids: &Vec<Jq>, ops: &Vec<Jq>, i: usize) -> (r: Result<
    Vec<Json>,
    String,
>)
    requires
        i < ops@.len(),
    ensures
        match r {
            Ok(out) => eval_chain_ids(inp@, view_jq_seq(ids@), view_jq_seq(ops@).skip(i as int))
                matches Ok(p) && p.0 == view_arr(out@),
            Err(_) => eval_chain_ids(inp@, view_jq_seq(ids@), view_jq_seq(ops@).skip(i as int))
                is Err,
        },
    decreases ops@.len() - i, 0int, inp,
{
    let ghost dv = view_jq_seq(ids@);
    let ghost suffix = view_jq_seq(ops@).skip(i as int);
    proof {
        lemma_view_jq_seq(ids@);
        lemma_view_jq_seq(ops@);
        assert(suffix.len() > 0);
        assert(dv.skip(0) =~= dv);
    }
    let olen: usize = ops.len();
    let mut out: Vec<Json> = Vec::new();
    let mut j: usize = 0;
    proof {
        assert(view_arr(out@) =~= Seq::<JsonV>::empty());
        match eval_chain_ids(inp@, dv.skip(0), suffix) {
            Ok(p) => {
                if !p.1 {
                    assert(view_arr(out@) + p.0 =~= p.0);
                }
            },
            Err(()) => {},
        }
    }
    while j < ids.len()
        invariant
            0 <= j <= ids.len(),
            i < olen,
            olen == ops@.len(),
            view_jq_seq(ops@).len() == ops@.len(),
            dv == view_jq_seq(ids@),
            suffix == view_jq_seq(ops@).skip(i as int),
            suffix.len() > 0,
            dv.len() == ids@.len(),
            forall|k: int| 0 <= k < dv.len() ==> dv[k] == ids@[k]@,
            match eval_chain_ids(inp@, dv.skip(j as int), suffix) {
                Ok(p) => eval_chain_ids(inp@, dv, suffix) matches Ok(q) && q.1 == p.1 && q.0
                    == (if p.1 {
                    p.0
                } else {
                    view_arr(out@) + p.0
                }),
                Err(()) => eval_chain_ids(inp@, dv, suffix) is Err,
            },
        decreases ids.len() - j,
    {
        let ghost sd = dv.skip(j as int);
        let ghost rest_ops = suffix.drop_first();
        proof {
            assert(sd[0] == dv[j as int]);
            assert(sd.drop_first() =~= dv.skip(j as int + 1));
            assert(rest_ops =~= view_jq_seq(ops@).skip(i as int + 1));
        }
        match &ids[j] {
            Jq::Literal(lit) => match (lit, inp) {
                (Json::String(k), Json::Object(m)) => {
                    match obj_find(m, k) {
                        Some(v) => {
                            match chain_exec(v, ops, i + 1) {
                                Ok(mut vs) => {
                                    let ghost oldo = out@;
                                    let ghost vv = vs@;
                                    out.append(&mut vs);
                                    proof {
                                        lemma_view_arr(oldo);
                                        lemma_view_arr(vv);
                                        lemma_view_arr(oldo + vv);
                                        assert(view_arr(oldo + vv) =~= view_arr(oldo)
                                            + view_arr(vv));
                                        match eval_chain_ids(inp@, sd.drop_first(), suffix) {
                                            Ok(p1) => {
                                                if !p1.1 {
                                                    assert(view_arr(oldo) + (view_arr(vv)
                                                        + p1.0) =~= (view_arr(oldo) + view_arr(
                                                        vv,
                                                    )) + p1.0);
                                                }
                                            },
                                            Err(()) => {},
                                        }
                                    }
                                },
                                Err(e) => {
                                    return Err(e);
                                },
                            }
                        },
                        None => {
                        },
                    }
                },
                (Json::Number(n), Json::Array(arr)) => {
                    proof {
                        lemma_view_arr(arr@);
                    }
                    let ix = num_floor_usize(*n);
                    if ix < arr.len() {
                        match chain_exec(&arr[ix], ops, i + 1) {
                            Ok(mut vs) => {
                                let ghost oldo = out@;
                                let ghost vv = vs@;
                                out.append(&mut vs);
                                proof {
                                    lemma_view_arr(oldo);
                                    lemma_view_arr(vv);
                                    lemma_view_arr(oldo + vv);
                                    assert(view_arr(oldo + vv) =~= view_arr(oldo) + view_arr(
                                        vv,
                                    ));
                                    match eval_chain_ids(inp@, sd.drop_first(), suffix) {
                                        Ok(p1) => {
                                            if !p1.1 {
                                                assert(view_arr(oldo) + (view_arr(vv) + p1.0)
                                                    =~= (view_arr(oldo) + view_arr(vv)) + p1.0);
                                            }
                                        },
                                        Err(()) => {},
                                    }
                                }
                            },
                            Err(e) => {
                                return Err(e);
                            },
                        }
                    } else {
                        let only = singleton(Json::Null);
                        proof {
                            assert(view_arr(only@) == seq![JsonV::Null]);
                        }
                        return Ok(only);
                    }
                },
                _ => {
                    return Err(err_of("bad indexing"));
                },
            },
            Jq::Slice(lo, ho) => {
                match slice_exec(inp, lo, ho) {
                    Ok(part) => {
                        let part_val = Json::Array(part);
                        match chain_exec(&part_val, ops, i + 1) {
                            Ok(mut vs) => {
                                let ghost oldo = out@;
                                let ghost vv = vs@;
                                out.append(&mut vs);
                                proof {
                                    lemma_view_arr(oldo);
                                    lemma_view_arr(vv);
                                    lemma_view_arr(oldo + vv);
                                    assert(view_arr(oldo + vv) =~= view_arr(oldo) + view_arr(
                                        vv,
                                    ));
                                    match eval_chain_ids(inp@, sd.drop_first(), suffix) {
                                        Ok(p1) => {
                                            if !p1.1 {
                                                assert(view_arr(oldo) + (view_arr(vv) + p1.0)
                                                    =~= (view_arr(oldo) + view_arr(vv)) + p1.0);
                                            }
                                        },
                                        Err(()) => {},
                                    }
                                }
                            },
                            Err(e) => {
                                return Err(e);
                            },
                        }
                    },
                    Err(_) => {
                    },
                }
            },
            _ => {
                return Err(err_of("bad indexing"));
            },
        }
        j = j + 1;
    }
    proof {
        assert(dv.skip(j as int) =~= Seq::<JqV>::empty());
        match eval_chain_ids(inp@, dv, suffix) {
            Ok(q) => {
                assert(view_arr(out@) + Seq::<JsonV>::empty() =~= view_arr(out@));
            },
            Err(()) => {},
        }
    }
    Ok(out)
}

/// One chained access evaluated from position `i` against a value.
fn chain_exec(inp: &Json, ops: &Vec<Jq>, i: usize) -> (r: Result<Vec<Json>, String>)
    requires
        i <= ops@.len(),
    ensures
        match r {
            Ok(out) => eval_chain(inp@, view_jq_seq(ops@).skip(i as int)) == Ok::<
                Seq<JsonV>,
                (),
            >(view_arr(out@)),
            Err(_) => eval_chain(inp@, view_jq_seq(ops@).skip(i as int)) is Err,
        },
    decreases ops@.len() - i, 1int, inp,
{
    let ghost ov = view_jq_seq(ops@);
    let ghost suffix = ov.skip(i as int);
    proof {
        lemma_view_jq_seq(ops@);
    }
    if i >= ops.len() {
        proof {
            assert(suffix =~= Seq::<JqV>::empty());
        }
        return Ok(singleton(clone_json(inp)));
    }
    proof {
        assert(suffix[0] == ov[i as int]);
        assert(suffix.drop_first() =~= ov.skip(i as int + 1));
    }
    match &ops[i] {
        Jq::Id(k) => match inp {
            Json::Object(m) => match obj_find(m, k) {
                Some(v) => chain_exec(v, ops, i + 1),
                None => Ok(singleton(Json::Null)),
            },
            Json::Array(a) => chain_each_exec(a, ops, i),
            _ => Err(err_of("not an object")),
        },
        Jq::ArrayLit(ids) => chain_ids_exec(inp, ids, ops, i),
        Jq::Iterator => match inp {
            Json::Array(a) => {
                let els = clone_arr(a);
                chain_each_exec(&els, ops, i + 1)
            },
            Json::Object(m) => {
                let els = values_of_obj(m);
                chain_each_exec(&els, ops, i + 1)
            },
            _ => Err(err_of("cannot iterate here")),
        },
        _ => Err(err_of("cannot interpret this part of the chain")),
    }
}

/// The conditional's branches chosen by each condition output.
fn if_exec(inp: &Json, cs: &Vec<Json>, f: &Jq) -> (r: Result<Vec<Json>, String>)
    requires
        f@ is IfStatement,
    ensures
        match r {
            Ok(out) => if_fold(view_arr(cs@), if_then_res(inp@, f@), if_else_res(inp@, f@))
                == Ok::<Seq<JsonV>, ()>(view_arr(out@)),
            Err(_) => if_fold(view_arr(cs@), if_then_res(inp@, f@), if_else_res(inp@, f@))
                is Err,
        },
    decreases f, 0int, 0int,
{
    let ghost cv = view_arr(cs@);
    let ghost tres = if_then_res(inp@, f@);
    let ghost eres = if_else_res(inp@, f@);
    proof {
        lemma_view_arr(cs@);
    }
    let mut out: Vec<Json> = Vec::new();
    let mut i: usize = 0;
    proof {
        assert(view_arr(out@) =~= Seq::<JsonV>::empty());
        assert(cv.take(0) =~= Seq::<JsonV>::empty());
    }
    while i < cs.len()
        invariant
            0 <= i <= cs.len(),
            f@ is IfStatement,
            cv == view_arr(cs@),
            tres == if_then_res(inp@, f@),
            eres == if_else_res(inp@, f@),
            cv.len() == cs@.len(),
            forall|k: int| 0 <= k < cv.len() ==> cv[k] == cs@[k]@,
            if_fold(cv.take(i as int), tres, eres) == Ok::<Seq<JsonV>, ()>(view_arr(out@)),
        decreases cs.len() - i,
    {
        proof {
            assert(cv.take(i as int + 1).drop_last() =~= cv.take(i as int));
            assert(cv.take(i as int + 1).last() == cv[i as int]);
        }
        let picks: bool = match &cs[i] {
            Json::Null => true,
            Json::Boolean(b) => !*b,
            _ => false,
        };
        let step: Result<Vec<Json>, String> = match f {
            Jq::IfStatement(_, t, e) => {
                if picks {
                    match e {
                        Some(ee) => eval_one(inp, ee),
                        None => Ok(singleton(clone_json(inp))),
                    }
                } else {
                    eval_one(inp, t)
                }
            },
            _ => Err(err_of("not a conditional")),
        };
        match step {
            Ok(mut vs) => {
                let ghost oldo = out@;
                let ghost vv = vs@;
                out.append(&mut vs);
                proof {
                    lemma_view_arr(oldo);
                    lemma_view_arr(vv);
                    lemma_view_arr(oldo + vv);
                    assert(view_arr(oldo + vv) =~= view_arr(oldo) + view_arr(vv));
                }
            },
            Err(e) => {
                proof {
                    lemma_if_fold_err(cv, tres, eres, i as int);
                }
                return Err(e);
            },
        }
        i = i + 1;
    }
    proof {
        assert(cv.take(cs@.len() as int) =~= cv);
    }
    Ok(out)
}

/// The alternative's left outputs, with each `null` or `false` replaced by
/// the right side's stream.
fn alt_exec(inp: &Json, vs: &Vec<Json>, f: &Jq) -> (r: Result<Vec<Json>, String>)
    requires
        f@ is Alternative,
    ensures
        match r {
            Ok(out) => alt_fold(view_arr(vs@), alt_rhs_res(inp@, f@)) == Ok::<Seq<JsonV>, ()>(
                view_arr(out@),
            ),
            Err(_) => alt_fold(view_arr(vs@), alt_rhs_res(inp@, f@)) is Err,
        },
    decreases f, 0int, 0int,
{
    let ghost vv = view_arr(vs@);
    let ghost bres = alt_rhs_res(inp@, f@);
    proof {
        lemma_view_arr(vs@);
    }
    let mut out: Vec<Json> = Vec::new();
    let mut i: usize = 0;
    proof {
        assert(view_arr(out@) =~= Seq::<JsonV>::empty());
        assert(vv.take(0) =~= Seq::<JsonV>::empty());
    }
    while i < vs.len()
        invariant
            0 <= i <= vs.len(),
            f@ is Alternative,
            vv == view_arr(vs@),
            bres == alt_rhs_res(inp@, f@),
            vv.len() == vs@.len(),
            forall|k: int| 0 <= k < vv.len() ==> vv[k] == vs@[k]@,
            alt_fold(vv.take(i as int), bres) == Ok::<Seq<JsonV>, ()>(view_arr(out@)),
        decreases vs.len() - i,
    {
        proof {
            assert(vv.take(i as int + 1).drop_last() =~= vv.take(i as int));
            assert(vv.take(i as int + 1).last() == vv[i as int]);
        }
        let picks: bool = match &vs[i] {
            Json::Null => true,
            Json::Boolean(b) => !*b,
            _ => false,
        };
        if picks {
            let step: Result<Vec<Json>, String> = match f {
                Jq::Alternative(_, b) => eval_one(inp, b),
                _ => Err(err_of("not an alternative")),
            };
            match step {
                Ok(mut bs) => {
                    let ghost oldo = out@;
                    let ghost bv = bs@;
                    out.append(&mut bs);
                    proof {
                        lemma_view_arr(oldo);
                        lemma_view_arr(bv);
                        lemma_view_arr(oldo + bv);
                        assert(view_arr(oldo + bv) =~= view_arr(oldo) + view_arr(bv));
                    }
                },
                Err(e) => {
                    proof {
                        lemma_alt_fold_err(vv, bres, i as int);
                    }
                    return Err(e);
                },
            }
        } else {
            let ghost oldo = out@;
            out.push(clone_json(&vs[i]));
            proof {
                assert(out@.drop_last() =~= oldo);
                assert(view_arr(out@) == view_arr(oldo).push(out@.last()@));
            }
        }
        i = i + 1;
    }
    proof {
        assert(vv.take(vs@.len() as int) =~= vv);
    }
    Ok(out)
}

/// The binary operator filters: both sides evaluated against the input,
/// then the cross product of the outputs.
fn eval_one_op(inp: &Json, f: &Jq) -> (r: Result<Vec<Json>, String>)
    requires
        f@ is Addition || f@ is Subtraction || f@ is Multiplication || f@ is Division || f@ is Modulo || f@ is Eq || f@ is NotEq || f@ is Gt || f@ is Gte || f@ is Lt || f@ is Lte || f@ is And || f@ is Or,
    ensures
        match r {
            Ok(vs) => eval(inp@, f@) == Ok::<Seq<JsonV>, ()>(view_arr(vs@)),
            Err(_) => eval(inp@, f@) is Err,
        },
    decreases f, 0int, 0int,
{
    match f {
        Jq::Addition(a, b) => match (eval_one(inp, a), eval_one(inp, b)) {
            (Ok(ls), Ok(rs)) => arith_cross_exec(ArithOp::Add, &ls, &rs),
            (Err(e), _) => Err(e),
            (_, Err(e)) => Err(e),
        },
        Jq::Subtraction(a, b) => match (eval_one(inp, a), eval_one(inp, b)) {
            (Ok(ls), Ok(rs)) => arith_cross_exec(ArithOp::Sub, &ls, &rs),
            (Err(e), _) => Err(e),
            (_, Err(e)) => Err(e),
        },
        Jq::Multiplication(a, b) => match (eval_one(inp, a), eval_one(inp, b)) {
            (Ok(ls), Ok(rs)) => arith_cross_exec(ArithOp::Mul, &ls, &rs),
            (Err(e), _) => Err(e),
            (_, Err(e)) => Err(e),
        },
        Jq::Division(a, b) => match (eval_one(inp, a), eval_one(inp, b)) {
            (Ok(ls), Ok(rs)) => arith_cross_exec(ArithOp::Div, &ls, &rs),
            (Err(e), _) => Err(e),
            (_, Err(e)) => Err(e),
        },
        Jq::Modulo(a, b) => match (eval_one(inp, a), eval_one(inp, b)) {
            (Ok(ls), Ok(rs)) => arith_cross_exec(ArithOp::Rem, &ls, &rs),
            (Err(e), _) => Err(e),
            (_, Err(e)) => Err(e),
        },
        Jq::Eq(a, b) => match (eval_one(inp, a), eval_one(inp, b)) {
            (Ok(ls), Ok(rs)) => cmp_cross_exec(CmpOp::EqOp, &ls, &rs),
            (Err(e), _) => Err(e),
            (_, Err(e)) => Err(e),
        },
        Jq::NotEq(a, b) => match (eval_one(inp, a), eval_one(inp, b)) {
            (Ok(ls), Ok(rs)) => cmp_cross_exec(CmpOp::NeOp, &ls, &rs),
            (Err(e), _) => Err(e),
            (_, Err(e)) => Err(e),
        },
        Jq::Gt(a, b) => match (eval_one(inp, a), eval_one(inp, b)) {
            (Ok(ls), Ok(rs)) => cmp_cross_exec(CmpOp::GtOp, &ls, &rs),
            (Err(e), _) => Err(e),
            (_, Err(e)) => Err(e),
        },
        Jq::Gte(a, b) => match (eval_one(inp, a), eval_one(inp, b)) {
            (Ok(ls), Ok(rs)) => cmp_cross_exec(CmpOp::GeOp, &ls, &rs),
            (Err(e), _) => Err(e),
            (_, Err(e)) => Err(e),
        },
        Jq::Lt(a, b) => match (eval_one(inp, a), eval_one(inp, b)) {
            (Ok(ls), Ok(rs)) => cmp_cross_exec(CmpOp::LtOp, &ls, &rs),
            (Err(e), _) => Err(e),
            (_, Err(e)) => Err(e),
        },
        Jq::Lte(a, b) => match (eval_one(inp, a), eval_one(inp, b)) {
            (Ok(ls), Ok(rs)) => cmp_cross_exec(CmpOp::LeOp, &ls, &rs),
            (Err(e), _) => Err(e),
            (_, Err(e)) => Err(e),
        },
        Jq::And(a, b) => match (eval_one(inp, a), eval_one(inp, b)) {
            (Ok(ls), Ok(rs)) => Ok(logic_cross_exec(LogicOp::AndOp, &ls, &rs)),
            (Err(e), _) => Err(e),
            (_, Err(e)) => Err(e),
        },
        Jq::Or(a, b) => match (eval_one(inp, a), eval_one(inp, b)) {
            (Ok(ls), Ok(rs)) => Ok(logic_cross_exec(LogicOp::OrOp, &ls, &rs)),
            (Err(e), _) => Err(e),
            (_, Err(e)) => Err(e),
        },
        _ => Err(err_of("not an operator")),
    }
}

/// One filter evaluated against one input.
#[verifier::rlimit(100)]
fn eval_one(inp: &Json, f: &Jq) -> (r: Result<Vec<Json>, String>)
    ensures
        match r {
            Ok(vs) => eval(inp@, f@) == Ok::<Seq<JsonV>, ()>(view_arr(vs@)),
            Err(_) => eval(inp@, f@) is Err,
        },
    decreases f, 1int, 0int,
{
    match f {
        Jq::Literal(j) => Ok(singleton(clone_json(j))),
        Jq::ArrayLit(xs) => match gather_exec(inp, xs) {
            Ok(vs) => Ok(singleton(Json::Array(vs))),
            Err(e) => Err(e),
        },
        Jq::ObjectLit(ps) => obj_pairs_exec(inp, ps),
        Jq::Pipe(a, b) => match eval_one(inp, a) {
            Ok(vs) => eval_all(&vs, b),
            Err(e) => Err(e),
        },
        Jq::Comma(a, b) => match eval_one(inp, a) {
            Ok(mut xs) => match eval_one(inp, b) {
                Ok(mut ys) => {
                    let ghost xv = xs@;
                    let ghost yv = ys@;
                    xs.append(&mut ys);
                    proof {
                        lemma_view_arr(xv);
                        lemma_view_arr(yv);
                        lemma_view_arr(xv + yv);
                        assert(view_arr(xv + yv) =~= view_arr(xv) + view_arr(yv));
                    }
                    Ok(xs)
                },
                Err(e) => Err(e),
            },
            Err(e) => Err(e),
        },
        Jq::Id(k) => match inp {
            Json::Object(m) => match obj_find(m, k) {
                Some(v) => Ok(singleton(clone_json(v))),
                None => Err(err_of("can only index an object with an id")),
            },
            _ => Err(err_of("bad indexing with an id")),
        },
        Jq::IdChain(ops) => {
            proof {
                assert(view_jq_seq(ops@).skip(0) =~= view_jq_seq(ops@));
            }
            chain_exec(inp, ops, 0)
        },
        Jq::Identity => Ok(singleton(clone_json(inp))),
        Jq::Input => Ok(singleton(clone_json(inp))),
        Jq::Optional(e) => match eval_one(inp, e) {
            Ok(vs) => Ok(vs),
            Err(_) => Ok(singleton(Json::Null)),
        },
        Jq::Iterator => match inp {
            Json::Array(a) => Ok(clone_arr(a)),
            Json::Object(m) => Ok(values_of_obj(m)),
            _ => Err(err_of("cannot iterate here")),
        },
        Jq::Recursive => Ok(rec_descend_exec(inp)),
        Jq::Parenthesis(e) => eval_one(inp, e),
        Jq::Slice(lo, ho) => slice_exec(inp, lo, ho),
        Jq::Addition(_, _) => eval_one_op(inp, f),
        Jq::Subtraction(_, _) => eval_one_op(inp, f),
        Jq::Multiplication(_, _) => eval_one_op(inp, f),
        Jq::Division(_, _) => eval_one_op(inp, f),
        Jq::Modulo(_, _) => eval_one_op(inp, f),
        Jq::Eq(_, _) => eval_one_op(inp, f),
        Jq::NotEq(_, _) => eval_one_op(inp, f),
        Jq::Gt(_, _) => eval_one_op(inp, f),
        Jq::Gte(_, _) => eval_one_op(inp, f),
        Jq::Lt(_, _) => eval_one_op(inp, f),
        Jq::Lte(_, _) => eval_one_op(inp, f),
        Jq::IfStatement(c, _, _) => match eval_one(inp, c) {
            Ok(cs) => if_exec(inp, &cs, f),
            Err(e) => Err(e),
        },
        Jq::And(_, _) => eval_one_op(inp, f),
        Jq::Or(_, _) => eval_one_op(inp, f),
        Jq::Not(e) => match eval_one(inp, e) {
            Ok(vs) => not_all(&vs),
            Err(e2) => Err(e2),
        },
        Jq::Alternative(a, _) => match eval_one(inp, a) {
            Ok(vs) => alt_exec(inp, &vs, f),
            Err(_) => match f {
                Jq::Alternative(_, b) => eval_one(inp, b),
                _ => Err(err_of("not an alternative")),
            },
        },
        Jq::Abs(_) => eval_one_builtin(inp, f),
        Jq::Length(_) => eval_one_builtin(inp, f),
        Jq::Keys(_) => eval_one_builtin(inp, f),
        Jq::Has(_) => eval_one_container(inp, f),
        Jq::In(_) => eval_one_container(inp, f),
        Jq::MapFn(_) => eval_one_container(inp, f),
    }
}

/// The built-in function filters.
#[verifier::rlimit(100)]
fn eval_one_builtin(inp: &Json, f: &Jq) -> (r: Result<Vec<Json>, String>)
    requires
        f@ is Abs || f@ is Length || f@ is Keys,
    ensures
        match r {
            Ok(vs) => eval(inp@, f@) == Ok::<Seq<JsonV>, ()>(view_arr(vs@)),
            Err(_) => eval(inp@, f@) is Err,
        },
    decreases f, 0int, 0int,
{
    match f {
        Jq::Abs(arg) => {
            let vals = match arg {
                Some(e) => eval_one(inp, e),
                None => Ok(singleton(clone_json(inp))),
            };
            match vals {
                Ok(vs) => abs_all(&vs),
                Err(e2) => Err(e2),
            }
        },
        Jq::Length(arg) => {
            let vals = match arg {
                Some(e) => eval_one(inp, e),
                None => Ok(singleton(clone_json(inp))),
            };
            match vals {
                Ok(vs) => length_all(&vs),
                Err(e2) => Err(e2),
            }
        },
        Jq::Keys(arg) => {
            let vals = match arg {
                Some(e) => eval_one(inp, e),
                None => Ok(singleton(clone_json(inp))),
            };
            match vals {
                Ok(vs) => keys_all(&vs),
                Err(e2) => Err(e2),
            }
        },
        _ => Err(err_of("not a builtin")),
    }
}

/// The containment and map built-ins.
fn eval_one_container(inp: &Json, f: &Jq) -> (r: Result<Vec<Json>, String>)
    requires
        f@ is Has || f@ is In || f@ is MapFn,
    ensures
        match r {
            Ok(vs) => eval(inp@, f@) == Ok::<Seq<JsonV>, ()>(view_arr(vs@)),
            Err(_) => eval(inp@, f@) is Err,
        },
    decreases f, 0int, 0int,
{
    match f {
        Jq::Has(a) => match eval_one(inp, a) {
            Ok(ps) => has_all(inp, &ps, false),
            Err(e) => Err(e),
        },
        Jq::In(a) => match eval_one(inp, a) {
            Ok(ps) => has_all(inp, &ps, true),
            Err(e) => Err(e),
        },
        Jq::MapFn(e) => match inp {
            Json::Array(a) => eval_all(a, e),
            Json::Object(m) => {
                let vals = values_of_obj(m);
                eval_all(&vals, e)
            },
            _ => Err(err_of("invalid use of the map function")),
        },
        _ => Err(err_of("not a builtin")),
    }
}

/// The filter evaluated against every input in turn.
fn eval_all(inps: &Vec<Json>, f: &Jq) -> (r: Result<Vec<Json>, String>)
    ensures
        match r {
            Ok(vs) => eval_list(view_arr(inps@), f@) == Ok::<Seq<JsonV>, ()>(view_arr(vs@)),
            Err(_) => eval_list(view_arr(inps@), f@) is Err,
        },
    decreases f, 2int, 0int,
{
    let ghost iv = view_arr(inps@);
    proof {
        lemma_view_arr(inps@);
    }
    let mut out: Vec<Json> = Vec::new();
    let mut i: usize = 0;
    proof {
        assert(view_arr(out@) =~= Seq::<JsonV>::empty());
        assert(iv.take(0) =~= Seq::<JsonV>::empty());
    }
    while i < inps.len()
        invariant
            0 <= i <= inps.len(),
            iv == view_arr(inps@),
            iv.len() == inps@.len(),
            forall|k: int| 0 <= k < iv.len() ==> iv[k] == inps@[k]@,
            eval_list(iv.take(i as int), f@) == Ok::<Seq<JsonV>, ()>(view_arr(out@)),
        decreases inps.len() - i,
    {
        proof {
            assert(iv.take(i as int + 1).drop_last() =~= iv.take(i as int));
            assert(iv.take(i as int + 1).last() == iv[i as int]);
        }
        match eval_one(&inps[i], f) {
            Ok(mut vs) => {
                let ghost oldo = out@;
                let ghost vv = vs@;
                out.append(&mut vs);
                proof {
                    lemma_view_arr(oldo);
                    lemma_view_arr(vv);
                    lemma_view_arr(oldo + vv);
                    assert(view_arr(oldo + vv) =~= view_arr(oldo) + view_arr(vv));
                }
            },
            Err(e) => {
                proof {
                    lemma_eval_list_err(iv, f@, i as int);
                }
                return Err(e);
            },
        }
        i = i + 1;
    }
    proof {
        assert(iv.take(inps@.len() as int) =~= iv);
    }
    Ok(out)
}

/// Evaluate a filter against a stream of inputs: the outputs of every
/// input, concatenated in input order, or the first error raised.
pub fn interpret(json: Vec<Json>, jq: Jq) -> (r: Result<Vec<Json>, String>)
    ensures
        match r {
            Ok(vs) => eval_list(view_arr(json@), jq@) == Ok::<Seq<JsonV>, ()>(view_arr(vs@)),
            Err(_) => eval_list(view_arr(json@), jq@) is Err,
        },
{
    eval_all(&json, &jq)
}

} // verus!
