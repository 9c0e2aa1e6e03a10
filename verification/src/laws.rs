//! General properties of the evaluator and of the tree hash, stated and
//! proved once and for all inputs.

use vstd::prelude::*;

use crate::json::JsonV;
use crate::jq::{JqV, hash_jqv};
use crate::jq_interpreter::{eval, eval_list};

verus! {

broadcast use vstd::seq::group_seq_axioms;

/// The identity filter emits exactly its input: `eval(x, Identity) = [x]`.
pub proof fn lemma_eval_identity(x: JsonV)
    ensures
        eval(x, JqV::Identity) == Ok::<Seq<JsonV>, ()>(seq![x]),
{
}

/// Evaluating the identity filter over a stream hands the stream back.
pub proof fn lemma_eval_list_identity(vs: Seq<JsonV>)
    ensures
        eval_list(vs, JqV::Identity) matches Ok(ws) && ws == vs,
    decreases vs.len(),
{
    if vs.len() == 0 {
        assert(vs =~= Seq::<JsonV>::empty());
    } else {
        lemma_eval_list_identity(vs.drop_last());
        assert(eval(vs.last(), JqV::Identity) matches Ok(u) && u == seq![vs.last()]);
        assert(vs.drop_last() + seq![vs.last()] =~= vs);
    }
}

/// A stream of one input evaluates like the input alone.
pub proof fn lemma_eval_list_singleton(x: JsonV, f: JqV)
    ensures
        eval(x, f) matches Ok(vs) ==> (eval_list(seq![x], f) matches Ok(ws) && ws == vs),
        eval(x, f) is Err ==> eval_list(seq![x], f) is Err,
{
    let s = seq![x];
    assert(s.drop_last() =~= Seq::<JsonV>::empty());
    assert(s.last() == x);
    assert(eval_list(s.drop_last(), f) matches Ok(e0) && e0 == Seq::<JsonV>::empty());
    match eval(x, f) {
        Ok(vs) => {
            assert(Seq::<JsonV>::empty() + vs =~= vs);
        },
        Err(()) => {},
    }
}

/// The identity is neutral on the right of a pipe:
/// `eval(x, Pipe(a, Identity)) = eval(x, a)`.
#[verifier::rlimit(100)]
pub proof fn lemma_pipe_identity_right(x: JsonV, a: JqV)
    ensures
        match eval(x, a) {
            Ok(vs) => eval(x, JqV::Pipe(Box::new(a), Box::new(JqV::Identity))) matches Ok(ws)
                && ws == vs,
            Err(()) => eval(x, JqV::Pipe(Box::new(a), Box::new(JqV::Identity))) is Err,
        },
{
    match eval(x, a) {
        Ok(vs) => {
            lemma_eval_list_identity(vs);
        },
        Err(()) => {},
    }
}

/// The identity is neutral on the left of a pipe:
/// `eval(x, Pipe(Identity, a)) = eval(x, a)`.
#[verifier::rlimit(100)]
pub proof fn lemma_pipe_identity_left(x: JsonV, a: JqV)
    ensures
        match eval(x, a) {
            Ok(vs) => eval(x, JqV::Pipe(Box::new(JqV::Identity), Box::new(a))) matches Ok(ws)
                && ws == vs,
            Err(()) => eval(x, JqV::Pipe(Box::new(JqV::Identity), Box::new(a))) is Err,
        },
{
    assert(eval(x, JqV::Identity) matches Ok(u) && u == seq![x]);
    lemma_eval_list_singleton(x, a);
}

/// A comma concatenates the two sides' streams, keeping length and order:
/// `eval(x, Comma(a, b)) = eval(x, a) ++ eval(x, b)`.
pub proof fn lemma_comma_concat(x: JsonV, a: JqV, b: JqV)
    ensures
        match (eval(x, a), eval(x, b)) {
            (Ok(xs), Ok(ys)) => eval(x, JqV::Comma(Box::new(a), Box::new(b))) == Ok::<
                Seq<JsonV>,
                (),
            >(xs + ys) && (xs + ys).len() == xs.len() + ys.len() && (forall|i: int|
                0 <= i < xs.len() ==> (xs + ys)[i] == xs[i]) && (forall|i: int|
                0 <= i < ys.len() ==> (xs + ys)[xs.len() + i] == ys[i]),
            _ => eval(x, JqV::Comma(Box::new(a), Box::new(b))) is Err,
        },
{
}

/// The tree hash is a function of tree equality: equal trees hash alike.
pub proof fn lemma_hash_respects_eq(a: JqV, b: JqV)
    ensures
        a == b ==> hash_jqv(a) == hash_jqv(b),
{
}

} // verus!
