//! Recursive-descent parser for the filter language.
//!
//! The parser is precedence-climbing by search order: at each position it
//! looks for the lowest-precedence operator whose delimiter stands at
//! bracket depth zero, splits there, and recurses into the two sides.  Each
//! function is specified against a spec-level mirror over `Seq<char>`.

use vstd::prelude::*;

use crate::json::{Json, JsonV};
use crate::jq::{Jq, JqV, view_jq_seq, view_jq_pairs, lemma_view_jq_seq, lemma_view_jq_pairs,
    from_json, jq_of_json, clone_jq, eq_jq};
use crate::json_parser;
use crate::util::{
    skip_spec, word_spec, char_s_spec, number_spec, skip_stuff, get_word, get_char_s, get_number,
    get_any_char, get_any_char_s, any_char_spec, any_char_s_spec,
};

verus! {

broadcast use vstd::seq::group_seq_axioms, vstd::std_specs::vec::group_vec_axioms,
    vstd::string::group_string_axioms;

/// Where the needle first stands at parenthesis and bracket depth zero; a
/// closing delimiter below depth zero gives nothing.
pub open spec fn sp_find(s: Seq<char>, w: Seq<char>, d1: int, d2: int) -> Option<int>
    decreases s.len(),
{
    if s.len() == 0 {
        None
    } else if d1 == 0 && d2 == 0 && w.len() <= s.len() && s.take(w.len() as int) == w {
        Some(0)
    } else {
        let c = s[0];
        if c == '(' {
            if d1 + 1 >= 0x4000_0000 {
                None
            } else {
                sp_find_step(s, w, d1 + 1, d2)
            }
        } else if c == '[' {
            if d2 + 1 >= 0x4000_0000 {
                None
            } else {
                sp_find_step(s, w, d1, d2 + 1)
            }
        } else if c == ')' {
            if d1 > 0 {
                sp_find_step(s, w, d1 - 1, d2)
            } else {
                None
            }
        } else if c == ']' {
            if d2 > 0 {
                sp_find_step(s, w, d1, d2 - 1)
            } else {
                None
            }
        } else {
            sp_find_step(s, w, d1, d2)
        }
    }
}

pub open spec fn sp_find_step(s: Seq<char>, w: Seq<char>, d1: int, d2: int) -> Option<int>
    decreases s.len(), 0int,
{
    if s.len() == 0 {
        None
    } else {
        match sp_find(s.drop_first(), w, d1, d2) {
            Some(i) => Some(i + 1),
            None => None,
        }
    }
}

/// Search for the needle at bracket depth zero.
pub fn avoid_parenthesis(input: &str, to_find: &str) -> (r: Option<usize>)
    ensures
        match r {
            Some(i) => sp_find(input@, to_find@, 0, 0) == Some(i as int) && i + to_find@.len()
                <= input@.len(),
            None => sp_find(input@, to_find@, 0, 0) is None,
        },
{
    find_depth0(input, to_find, 0, 0)
}

fn starts_with_at(input: &str, w: &str) -> (r: bool)
    ensures
        r == (w@.len() <= input@.len() && input@.take(w@.len() as int) == w@),
{
    let n: usize = input.unicode_len();
    let wn: usize = w.unicode_len();
    if wn > n {
        return false;
    }
    let mut i: usize = 0;
    while i < wn
        invariant_except_break
            0 <= i <= wn <= n,
            n == input@.len() && wn == w@.len(),
            forall|j: int| 0 <= j < i ==> input@[j] == w@[j],
        ensures
            0 <= i <= wn <= n,
            n == input@.len() && wn == w@.len(),
            i == wn ==> input@.take(wn as int) =~= w@,
            i < wn ==> input@[i as int] != w@[i as int],
        decreases wn - i,
    {
        if input.get_char(i) != w.get_char(i) {
            break ;
        }
        i = i + 1;
    }
    if i == wn {
        true
    } else {
        proof {
            assert(input@.take(wn as int)[i as int] == input@[i as int]);
        }
        false
    }
}

fn find_depth0(input: &str, w: &str, d1: usize, d2: usize) -> (r: Option<usize>)
    requires
        d1 < 0x4000_0000,
        d2 < 0x4000_0000,
    ensures
        match r {
            Some(i) => sp_find(input@, w@, d1 as int, d2 as int) == Some(i as int) && i + w@.len()
                <= input@.len(),
            None => sp_find(input@, w@, d1 as int, d2 as int) is None,
        },
    decreases input@.len(),
{
    let n: usize = input.unicode_len();
    if n == 0 {
        return None;
    }
    if d1 == 0 && d2 == 0 && starts_with_at(input, w) {
        return Some(0);
    }
    let c = input.get_char(0);
    let tail = input.substring_char(1, n);
    proof {
        assert(input@.subrange(1, n as int) =~= input@.drop_first());
    }
    let sub = if c == '(' {
        if d1 + 1 >= 0x4000_0000 {
            return None;
        }
        find_depth0(tail, w, d1 + 1, d2)
    } else if c == '[' {
        if d2 + 1 >= 0x4000_0000 {
            return None;
        }
        find_depth0(tail, w, d1, d2 + 1)
    } else if c == ')' {
        if d1 > 0 {
            find_depth0(tail, w, d1 - 1, d2)
        } else {
            return None;
        }
    } else if c == ']' {
        if d2 > 0 {
            find_depth0(tail, w, d1, d2 - 1)
        } else {
            return None;
        }
    } else {
        find_depth0(tail, w, d1, d2)
    };
    match sub {
        Some(i) => Some(i + 1),
        None => None,
    }
}

/// An identifier's first character: a letter or an underscore.
pub open spec fn sp_letter(c: char) -> bool {
    ('A' <= c && c <= 'Z') || ('a' <= c && c <= 'z') || c == '_'
}

/// A later identifier character may also be a nonzero digit.
pub open spec fn sp_idnum(c: char) -> bool {
    '1' <= c && c <= '9'
}

/// Whether the character can open an identifier.
pub fn is_letter(c: char) -> (r: bool)
    ensures
        r == sp_letter(c),
{
    ('A' <= c && c <= 'Z') || ('a' <= c && c <= 'z') || c == '_'
}

/// Whether the character may continue an identifier as a digit.
pub fn is_number(c: char) -> (r: bool)
    ensures
        r == sp_idnum(c),
{
    '1' <= c && c <= '9'
}

/// Length of the identifier run at the head of `t`.
pub open spec fn ident_len(t: Seq<char>) -> nat
    decreases t.len(),
{
    if t.len() == 0 || !(sp_letter(t[0]) || sp_idnum(t[0])) {
        0
    } else {
        1 + ident_len(t.drop_first())
    }
}

proof fn lemma_ident_len_exact(t: Seq<char>, i: int)
    requires
        0 <= i <= t.len(),
        forall|j: int| 0 <= j < i ==> sp_letter(#[trigger] t[j]) || sp_idnum(t[j]),
        i < t.len() ==> !(sp_letter(t[i]) || sp_idnum(t[i])),
    ensures
        ident_len(t) == i,
    decreases t.len(),
{
    if i > 0 {
        assert(sp_letter(t[0]) || sp_idnum(t[0]));
        assert forall|j: int| 0 <= j < i - 1 implies sp_letter(#[trigger] t.drop_first()[j])
            || sp_idnum(t.drop_first()[j]) by {
            assert(t.drop_first()[j] == t[j + 1]);
        }
        if i - 1 < t.drop_first().len() {
            assert(t.drop_first()[i - 1] == t[i]);
        }
        lemma_ident_len_exact(t.drop_first(), i - 1);
    }
}

/// What a bare field name yields: the identifier after leading whitespace.
pub open spec fn sp_object_id(s: Seq<char>) -> Option<(JqV, Seq<char>)> {
    let t = skip_spec(s);
    if t.len() == 0 || !sp_letter(t[0]) {
        None
    } else {
        Some((JqV::Id(t.take(ident_len(t) as int)), t.skip(ident_len(t) as int)))
    }
}

/// Parse a bare field name.
pub fn parse_object_id(input: &str) -> (r: Option<(Jq, &str)>)
    ensures
        match r {
            Some(p) => sp_object_id(input@) == Some((p.0@, p.1@)),
            None => sp_object_id(input@) is None,
        },
{
    let t = skip_stuff(input);
    let n: usize = t.unicode_len();
    if n == 0 {
        return None;
    }
    let c0 = t.get_char(0);
    if !is_letter(c0) {
        return None;
    }
    let mut i: usize = 0;
    while i < n
        invariant_except_break
            0 <= i <= n,
            n == t@.len(),
            forall|j: int| 0 <= j < i ==> sp_letter(#[trigger] t@[j]) || sp_idnum(t@[j]),
        ensures
            0 <= i <= n,
            n == t@.len(),
            forall|j: int| 0 <= j < i ==> sp_letter(#[trigger] t@[j]) || sp_idnum(t@[j]),
            i < n ==> !(sp_letter(t@[i as int]) || sp_idnum(t@[i as int])),
        decreases n - i,
    {
        let c = t.get_char(i);
        if !(is_letter(c) || is_number(c)) {
            break ;
        }
        i = i + 1;
    }
    proof {
        lemma_ident_len_exact(t@, i as int);
    }
    let name = t.substring_char(0, i);
    let rest = t.substring_char(i, n);
    Some((Jq::Id(name.to_owned()), rest))
}

/// A comma tree flattened into the list of its sides, left to right.
pub open spec fn sp_unpack(v: JqV) -> Seq<JqV>
    decreases v,
{
    match v {
        JqV::Comma(a, b) => seq![*a] + sp_unpack(*b),
        _ => seq![v],
    }
}

/// Flatten a parsed comma tree into array-literal elements.
fn unpack_comma_to_array(v: Jq) -> (r: Vec<Jq>)
    ensures
        view_jq_seq(r@) == sp_unpack(v@),
    decreases v,
{
    match v {
        Jq::Comma(a, b) => {
            let mut out: Vec<Jq> = Vec::new();
            out.push(*a);
            let ghost first = out@;
            let mut rest = unpack_comma_to_array(*b);
            let ghost restv = rest@;
            out.append(&mut rest);
            proof {
                lemma_view_jq_seq(first);
                lemma_view_jq_seq(restv);
                lemma_view_jq_seq(first + restv);
                assert(view_jq_seq(first + restv) =~= seq![first[0]@] + view_jq_seq(restv));
            }
            out
        },
        other => {
            let mut out: Vec<Jq> = Vec::new();
            out.push(other);
            proof {
                lemma_view_jq_seq(out@);
                assert(view_jq_seq(out@) =~= seq![out@[0]@]);
            }
            out
        },
    }
}


// ------------------------------------------------------------------
// The grammar: spec mirrors.
// ------------------------------------------------------------------

/// `( e )`: the parenthesized body, parsed as a whole program.
pub open spec fn sp_parenthesis(s: Seq<char>) -> Option<(JqV, Seq<char>)>
    decreases s.len(), 1int,
{
    match char_s_spec(s, '(') {
        Some(body) => if body.len() < s.len() {
            match sp_find(body, seq![')'], 0, 0) {
                Some(i) => if 0 <= i < body.len() {
                    match sp_parse(body.take(i)) {
                        Some(v) => Some((JqV::Parenthesis(Box::new(v)), body.skip(i + 1))),
                        None => None,
                    }
                } else {
                    None
                },
                None => None,
            }
        } else {
            None
        },
        None => None,
    }
}

/// `a | b`: split at the first pipe at depth zero; an empty left side is
/// the `Input` sentinel; the whole rest is consumed.
pub open spec fn sp_pipe(s: Seq<char>) -> Option<(JqV, Seq<char>)>
    decreases s.len(), 3int,
{
    match sp_find(s, seq!['|'], 0, 0) {
        Some(i) => if 0 <= i < s.len() && i + 1 <= s.len() {
            let left = match sp_parse(s.take(i)) {
                Some(l) => l,
                None => JqV::Input,
            };
            match sp_parse(s.skip(i + 1)) {
                Some(rv) => Some((JqV::Pipe(Box::new(left), Box::new(rv)), Seq::empty())),
                None => None,
            }
        } else {
            None
        },
        None => None,
    }
}

/// `a , b`: both sides must parse; the whole rest is consumed.
pub open spec fn sp_comma(s: Seq<char>) -> Option<(JqV, Seq<char>)>
    decreases s.len(), 3int,
{
    match sp_find(s, seq![','], 0, 0) {
        Some(i) => if 0 <= i < s.len() && i + 1 <= s.len() {
            match sp_parse(s.take(i)) {
                Some(l) => match sp_parse(s.skip(i + 1)) {
                    Some(rv) => Some((JqV::Comma(Box::new(l), Box::new(rv)), Seq::empty())),
                    None => None,
                },
                None => None,
            }
        } else {
            None
        },
        None => None,
    }
}

/// A binary operator split: the left side must parse completely, the right
/// side gives the rest.
pub open spec fn sp_binary(s: Seq<char>, w: Seq<char>) -> Option<(JqV, JqV, Seq<char>)>
    decreases s.len(), 2int,
{
    match sp_find(s, w, 0, 0) {
        Some(i) => if 0 <= i < s.len() && i + w.len() <= s.len() && w.len() > 0 {
            match sp_jq(s.take(i)) {
                Some((lv, lrest)) => if skip_spec(lrest).len() != 0 {
                    None
                } else {
                    match sp_jq(s.skip(i + w.len())) {
                        Some((rv, rrest)) => Some((lv, rv, rrest)),
                        None => None,
                    }
                },
                None => None,
            }
        } else {
            None
        },
        None => None,
    }
}

/// `e ?`: the prefix before the question mark must parse completely.
pub open spec fn sp_optional(s: Seq<char>) -> Option<(JqV, Seq<char>)>
    decreases s.len(), 3int,
{
    match sp_find(s, seq!['?'], 0, 0) {
        Some(i) => if 0 <= i < s.len() {
            match sp_jq(s.take(i)) {
                Some((v, lrest)) => if skip_spec(lrest).len() != 0 {
                    None
                } else {
                    Some((JqV::Optional(Box::new(v)), s.skip(i + 1)))
                },
                None => None,
            }
        } else {
            None
        },
        None => None,
    }
}

/// `.[]`: the iterator.
pub open spec fn sp_iterator(s: Seq<char>) -> Option<(JqV, Seq<char>)> {
    match char_s_spec(s, '.') {
        Some(r1) => match char_s_spec(r1, '[') {
            Some(r2) => match char_s_spec(r2, ']') {
                Some(r3) => Some((JqV::Iterator, r3)),
                None => None,
            },
            None => None,
        },
        None => None,
    }
}

/// `a:b`, `a:`, `:b`: an array slice with optional bounds.
pub open spec fn sp_slice(s: Seq<char>) -> Option<(JqV, Seq<char>)> {
    let first = number_spec(s);
    let s1 = match first {
        Some((_, r)) => r,
        None => s,
    };
    match char_s_spec(s1, ':') {
        Some(after) => {
            let second = number_spec(after);
            let rest = match second {
                Some((_, r)) => r,
                None => after,
            };
            Some(
                (
                    JqV::Slice(
                        match first {
                            Some((v, _)) => Some(v as usize),
                            None => None,
                        },
                        match second {
                            Some((v, _)) => Some(v as usize),
                            None => None,
                        },
                    ),
                    rest,
                ),
            )
        },
        None => None,
    }
}

/// `.`: the identity.
pub open spec fn sp_identity(s: Seq<char>) -> Option<(JqV, Seq<char>)> {
    match char_s_spec(s, '.') {
        Some(r) => Some((JqV::Identity, r)),
        None => None,
    }
}

/// `..`: the recursive descent.
pub open spec fn sp_recursive(s: Seq<char>) -> Option<(JqV, Seq<char>)> {
    match char_s_spec(s, '.') {
        Some(r1) => match char_s_spec(r1, '.') {
            Some(r2) => Some((JqV::Recursive, r2)),
            None => None,
        },
        None => None,
    }
}

/// A JSON scalar literal inside a filter.
pub open spec fn sp_jq_null(s: Seq<char>) -> Option<(JqV, Seq<char>)> {
    match json_parser::sp_null(s) {
        Some((j, r)) => Some((jq_of_json(j), r)),
        None => None,
    }
}

pub open spec fn sp_jq_boolean(s: Seq<char>) -> Option<(JqV, Seq<char>)> {
    match json_parser::sp_boolean(s) {
        Some((j, r)) => Some((jq_of_json(j), r)),
        None => None,
    }
}

pub open spec fn sp_jq_number(s: Seq<char>) -> Option<(JqV, Seq<char>)> {
    match json_parser::sp_number(s) {
        Some((j, r)) => Some((jq_of_json(j), r)),
        None => None,
    }
}

pub open spec fn sp_jq_string(s: Seq<char>) -> Option<(JqV, Seq<char>)> {
    match json_parser::sp_string(s) {
        Some((j, r)) => Some((jq_of_json(j), r)),
        None => None,
    }
}

/// `[ e ]`: an array construction, with top-level commas unpacked into the
/// element list; an empty body is the iterator.
pub open spec fn sp_jq_array(s: Seq<char>) -> Option<(JqV, Seq<char>)>
    decreases s.len(), 1int,
{
    match char_s_spec(s, '[') {
        Some(body) => if body.len() < s.len() {
            match sp_find(body, seq![']'], 0, 0) {
                Some(i) => if 0 <= i < body.len() {
                    match sp_jq(body.take(i)) {
                        Some((v, lrest)) => if skip_spec(lrest).len() == 0 {
                            Some((JqV::ArrayLit(sp_unpack(v)), body.skip(i + 1)))
                        } else {
                            None
                        },
                        None => Some((JqV::Iterator, body.skip(i + 1))),
                    }
                } else {
                    None
                },
                None => None,
            }
        } else {
            None
        },
        None => None,
    }
}

/// One chained access after the leading dot, then the rest of the chain.
pub open spec fn sp_chain_first(s: Seq<char>) -> (Seq<JqV>, Seq<char>)
    decreases s.len(), 2int,
{
    match sp_jq_array(s) {
        Some((op, r)) => if r.len() < s.len() {
            let rest = sp_chain_rest(r);
            (seq![op] + rest.0, rest.1)
        } else {
            (seq![op], r)
        },
        None => match sp_object_id(s) {
            Some((op, r)) => if r.len() < s.len() {
                let rest = sp_chain_rest(r);
                (seq![op] + rest.0, rest.1)
            } else {
                (seq![op], r)
            },
            None => (Seq::empty(), s),
        },
    }
}

/// Further chained accesses: a bracketed form, or a dot and a field name.
pub open spec fn sp_chain_rest(s: Seq<char>) -> (Seq<JqV>, Seq<char>)
    decreases s.len(), 2int,
{
    match sp_jq_array(s) {
        Some((op, r)) => if r.len() < s.len() {
            let rest = sp_chain_rest(r);
            (seq![op] + rest.0, rest.1)
        } else {
            (seq![op], r)
        },
        None => if s.len() > 0 && s[0] == '.' {
            match sp_object_id(s.drop_first()) {
                Some((op, r)) => if r.len() < s.len() {
                    let rest = sp_chain_rest(r);
                    (seq![op] + rest.0, rest.1)
                } else {
                    (seq![op], r)
                },
                None => (Seq::empty(), s),
            }
        } else {
            (Seq::empty(), s)
        },
    }
}

/// `.a.b[0]` and the like; a bare dot is the identity.
pub open spec fn sp_id_chain(s: Seq<char>) -> Option<(JqV, Seq<char>)>
    decreases s.len(), 3int,
    via sp_id_chain_dec
{
    match char_s_spec(s, '.') {
        Some(d) => {
            let chain = sp_chain_first(d);
            if chain.0.len() == 0 {
                Some((JqV::Identity, d))
            } else {
                Some((JqV::IdChain(chain.0), chain.1))
            }
        },
        None => None,
    }
}

#[via_fn]
proof fn sp_id_chain_dec(s: Seq<char>) {
    crate::util::lemma_skip_spec(s);
}

/// `if c then t [else e] end`.
pub open spec fn sp_if(s: Seq<char>) -> Option<(JqV, Seq<char>)>
    decreases s.len(), 3int,
{
    match word_spec(s, "if"@) {
        Some(r1) => if r1.len() < s.len() {
            match sp_jq(r1) {
                Some((c, r2)) => if r2.len() < s.len() {
                    match word_spec(r2, "then"@) {
                        Some(r3) => if r3.len() < s.len() {
                            match sp_jq(r3) {
                                Some((t, r4)) => match word_spec(r4, "else"@) {
                                    Some(r5) => if r5.len() < s.len() {
                                        match sp_jq(r5) {
                                            Some((e, r6)) => match word_spec(r6, "end"@) {
                                                Some(r7) => Some(
                                                    (
                                                        JqV::IfStatement(
                                                            Box::new(c),
                                                            Box::new(t),
                                                            Some(Box::new(e)),
                                                        ),
                                                        r7,
                                                    ),
                                                ),
                                                None => None,
                                            },
                                            None => None,
                                        }
                                    } else {
                                        None
                                    },
                                    None => match word_spec(r4, "end"@) {
                                        Some(r5) => Some(
                                            (
                                                JqV::IfStatement(Box::new(c), Box::new(t), None),
                                                r5,
                                            ),
                                        ),
                                        None => None,
                                    },
                                },
                                None => None,
                            }
                        } else {
                            None
                        },
                        None => None,
                    }
                } else {
                    None
                },
                None => None,
            }
        } else {
            None
        },
        None => None,
    }
}

/// `not e`.
pub open spec fn sp_not(s: Seq<char>) -> Option<(JqV, Seq<char>)>
    decreases s.len(), 2int,
{
    match word_spec(s, "not"@) {
        Some(r1) => if r1.len() < s.len() {
            match sp_jq(r1) {
                Some((v, r2)) => Some((JqV::Not(Box::new(v)), r2)),
                None => None,
            }
        } else {
            None
        },
        None => None,
    }
}

/// The comparison group: `and`, `or`, `not`, then the six comparators.
pub open spec fn sp_comparison(s: Seq<char>) -> Option<(JqV, Seq<char>)>
    decreases s.len(), 3int,
{
    if sp_binary(s, "and"@) is Some {
        match sp_binary(s, "and"@) {
            Some((a, b, r)) => Some((JqV::And(Box::new(a), Box::new(b)), r)),
            None => None,
        }
    } else if sp_binary(s, "or"@) is Some {
        match sp_binary(s, "or"@) {
            Some((a, b, r)) => Some((JqV::Or(Box::new(a), Box::new(b)), r)),
            None => None,
        }
    } else if sp_not(s) is Some {
        sp_not(s)
    } else if sp_binary(s, "=="@) is Some {
        match sp_binary(s, "=="@) {
            Some((a, b, r)) => Some((JqV::Eq(Box::new(a), Box::new(b)), r)),
            None => None,
        }
    } else if sp_binary(s, "!="@) is Some {
        match sp_binary(s, "!="@) {
            Some((a, b, r)) => Some((JqV::NotEq(Box::new(a), Box::new(b)), r)),
            None => None,
        }
    } else if sp_binary(s, ">"@) is Some {
        match sp_binary(s, ">"@) {
            Some((a, b, r)) => Some((JqV::Gt(Box::new(a), Box::new(b)), r)),
            None => None,
        }
    } else if sp_binary(s, ">="@) is Some {
        match sp_binary(s, ">="@) {
            Some((a, b, r)) => Some((JqV::Gte(Box::new(a), Box::new(b)), r)),
            None => None,
        }
    } else if sp_binary(s, "<"@) is Some {
        match sp_binary(s, "<"@) {
            Some((a, b, r)) => Some((JqV::Lt(Box::new(a), Box::new(b)), r)),
            None => None,
        }
    } else if sp_binary(s, "<="@) is Some {
        match sp_binary(s, "<="@) {
            Some((a, b, r)) => Some((JqV::Lte(Box::new(a), Box::new(b)), r)),
            None => None,
        }
    } else {
        None
    }
}

/// The arithmetic group, tried in a fixed order.
pub open spec fn sp_arithmetic(s: Seq<char>) -> Option<(JqV, Seq<char>)>
    decreases s.len(), 3int,
{
    if sp_binary(s, "+"@) is Some {
        match sp_binary(s, "+"@) {
            Some((a, b, r)) => Some((JqV::Addition(Box::new(a), Box::new(b)), r)),
            None => None,
        }
    } else if sp_binary(s, "-"@) is Some {
        match sp_binary(s, "-"@) {
            Some((a, b, r)) => Some((JqV::Subtraction(Box::new(a), Box::new(b)), r)),
            None => None,
        }
    } else if sp_binary(s, "*"@) is Some {
        match sp_binary(s, "*"@) {
            Some((a, b, r)) => Some((JqV::Multiplication(Box::new(a), Box::new(b)), r)),
            None => None,
        }
    } else if sp_binary(s, "/"@) is Some {
        match sp_binary(s, "/"@) {
            Some((a, b, r)) => Some((JqV::Division(Box::new(a), Box::new(b)), r)),
            None => None,
        }
    } else if sp_binary(s, "%"@) is Some {
        match sp_binary(s, "%"@) {
            Some((a, b, r)) => Some((JqV::Modulo(Box::new(a), Box::new(b)), r)),
            None => None,
        }
    } else {
        None
    }
}

/// `a // b`.
pub open spec fn sp_alternative(s: Seq<char>) -> Option<(JqV, Seq<char>)>
    decreases s.len(), 3int,
{
    match sp_binary(s, "//"@) {
        Some((a, b, r)) => Some((JqV::Alternative(Box::new(a), Box::new(b)), r)),
        None => None,
    }
}

/// A built-in's name, with an optional parenthesized argument.
pub open spec fn sp_fun1(s: Seq<char>, name: Seq<char>) -> Option<(Option<Box<JqV>>, Seq<char>)>
    decreases s.len(), 2int,
{
    match word_spec(s, name) {
        Some(r1) => if r1.len() < s.len() {
            match sp_parenthesis(r1) {
                Some((JqV::Parenthesis(content), r2)) => Some((Some(content), r2)),
                _ => Some((None, r1)),
            }
        } else {
            Some((None, r1))
        },
        None => None,
    }
}

/// The built-in function calls, tried in a fixed order; `has`, `in` and
/// `map` need their argument.
pub open spec fn sp_functions(s: Seq<char>) -> Option<(JqV, Seq<char>)>
    decreases s.len(), 3int,
{
    if sp_fun1(s, "abs"@) is Some {
        match sp_fun1(s, "abs"@) {
            Some((arg, r)) => Some((JqV::Abs(arg), r)),
            None => None,
        }
    } else if sp_fun1(s, "length"@) is Some {
        match sp_fun1(s, "length"@) {
            Some((arg, r)) => Some((JqV::Length(arg), r)),
            None => None,
        }
    } else if sp_fun1(s, "keys"@) is Some {
        match sp_fun1(s, "keys"@) {
            Some((arg, r)) => Some((JqV::Keys(arg), r)),
            None => None,
        }
    } else if sp_fun1(s, "has"@) is Some {
        match sp_fun1(s, "has"@) {
            Some((Some(arg), r)) => Some((JqV::Has(arg), r)),
            _ => None,
        }
    } else if sp_fun1(s, "in"@) is Some {
        match sp_fun1(s, "in"@) {
            Some((Some(arg), r)) => Some((JqV::In(arg), r)),
            _ => None,
        }
    } else if sp_fun1(s, "map"@) is Some {
        match sp_fun1(s, "map"@) {
            Some((Some(arg), r)) => Some((JqV::MapFn(arg), r)),
            _ => None,
        }
    } else {
        None
    }
}

/// `k : v`, both sides filter expressions.
pub open spec fn sp_key_value(s: Seq<char>) -> Option<(JqV, JqV, Seq<char>)>
    decreases s.len(), 6int,
{
    match sp_jq(s) {
        Some((k, r1)) => if r1.len() <= s.len() {
            match char_s_spec(r1, ':') {
                Some(r2) => if r2.len() <= s.len() {
                    match sp_jq(r2) {
                        Some((v, r3)) => Some((k, v, r3)),
                        None => None,
                    }
                } else {
                    None
                },
                None => None,
            }
        } else {
            None
        },
        None => None,
    }
}

/// A pair list bound like a map keyed by the key trees: a later pair under
/// an equal key tree replaces the earlier one, in place.
pub open spec fn jq_pairs_set(m: Seq<(JqV, JqV)>, k: JqV, v: JqV) -> Seq<(JqV, JqV)>
    decreases m.len(),
{
    if m.len() == 0 {
        seq![(k, v)]
    } else if m[0].0 == k {
        seq![(k, v)] + m.drop_first()
    } else {
        seq![m[0]] + jq_pairs_set(m.drop_first(), k, v)
    }
}

pub open spec fn build_jq_obj(pairs: Seq<(JqV, JqV)>) -> Seq<(JqV, JqV)>
    decreases pairs,
{
    if pairs.len() == 0 {
        Seq::empty()
    } else {
        jq_pairs_set(build_jq_obj(pairs.drop_last()), pairs.last().0, pairs.last().1)
    }
}

/// The raw member list of an object construction.
pub open spec fn sp_jq_members(s: Seq<char>) -> Option<(Seq<(JqV, JqV)>, Seq<char>)>
    decreases s.len(), 7int,
{
    match sp_key_value(s) {
        Some((k, v, r1)) => if r1.len() < s.len() {
            match char_s_spec(r1, ',') {
                Some(r2) => if r2.len() < s.len() {
                    match sp_jq_members(r2) {
                        Some((ms, r3)) => Some((seq![(k, v)] + ms, r3)),
                        None => None,
                    }
                } else {
                    None
                },
                None => match char_s_spec(r1, '}') {
                    Some(r2) => Some((seq![(k, v)], r2)),
                    None => None,
                },
            }
        } else {
            None
        },
        None => None,
    }
}

/// `{ k: v, ... }`: an object construction, keyed by the key trees.
pub open spec fn sp_jq_object(s: Seq<char>) -> Option<(JqV, Seq<char>)>
    decreases s.len(), 1int,
    via sp_jq_object_dec
{
    match char_s_spec(s, '{') {
        Some(body) => match sp_jq_members(body) {
            Some((ms, r)) => Some((JqV::ObjectLit(build_jq_obj(ms)), r)),
            None => None,
        },
        None => None,
    }
}

#[via_fn]
proof fn sp_jq_object_dec(s: Seq<char>) {
    crate::util::lemma_skip_spec(s);
}

/// One filter expression: every form tried at the current position, from
/// the lowest-precedence splits down to the literals.
pub open spec fn sp_jq(s: Seq<char>) -> Option<(JqV, Seq<char>)>
    decreases s.len(), 4int,
{
    if sp_parenthesis(s) is Some {
        sp_parenthesis(s)
    } else if sp_pipe(s) is Some {
        sp_pipe(s)
    } else if sp_comma(s) is Some {
        sp_comma(s)
    } else if sp_alternative(s) is Some {
        sp_alternative(s)
    } else if sp_if(s) is Some {
        sp_if(s)
    } else if sp_comparison(s) is Some {
        sp_comparison(s)
    } else if sp_arithmetic(s) is Some {
        sp_arithmetic(s)
    } else if sp_optional(s) is Some {
        sp_optional(s)
    } else if sp_recursive(s) is Some {
        sp_recursive(s)
    } else if sp_id_chain(s) is Some {
        sp_id_chain(s)
    } else if sp_iterator(s) is Some {
        sp_iterator(s)
    } else if sp_slice(s) is Some {
        sp_slice(s)
    } else if sp_identity(s) is Some {
        sp_identity(s)
    } else if sp_functions(s) is Some {
        sp_functions(s)
    } else if sp_jq_null(s) is Some {
        sp_jq_null(s)
    } else if sp_jq_boolean(s) is Some {
        sp_jq_boolean(s)
    } else if sp_jq_number(s) is Some {
        sp_jq_number(s)
    } else if sp_jq_string(s) is Some {
        sp_jq_string(s)
    } else if sp_jq_array(s) is Some {
        sp_jq_array(s)
    } else {
        sp_jq_object(s)
    }
}

/// A whole filter program: one expression, and where text is left over, a
/// further pipeline stage.  This mirror is the formal statement of the
/// grammar: on any text it accepts, `parse` is total and returns exactly
/// this one tree.
pub open spec fn sp_parse(s: Seq<char>) -> Option<JqV>
    decreases s.len(), 5int,
{
    match sp_jq(s) {
        Some((v, leftover)) => if skip_spec(leftover).len() == 0 {
            Some(v)
        } else if leftover.len() >= s.len() {
            None
        } else {
            match sp_parse(leftover) {
                Some(rest) => Some(JqV::Pipe(Box::new(v), Box::new(rest))),
                None => None,
            }
        },
        None => None,
    }
}


// ------------------------------------------------------------------
// The grammar: executable parsers.
// ------------------------------------------------------------------

/// Parse a parenthesized subexpression.
pub fn parse_parenthesis(input: &str) -> (r: Option<(Jq, &str)>)
    ensures
        match r {
            Some(p) => sp_parenthesis(input@) == Some((p.0@, p.1@)),
            None => sp_parenthesis(input@) is None,
        },
    decreases input@.len(), 1int,
{
    match get_char_s(input, '(') {
        Some(body) => {
            proof {
                crate::util::lemma_skip_spec(input@);
                reveal_strlit(")");
                assert(")"@ =~= seq![')']);
            }
            let bn: usize = body.unicode_len();
            match avoid_parenthesis(body, ")") {
                Some(i) => {
                    if i < bn {
                        let content = body.substring_char(0, i);
                        let after = body.substring_char(i + 1, bn);
                        proof {
                            assert(body@.subrange(0, i as int) =~= body@.take(i as int));
                            assert(body@.subrange(i as int + 1, bn as int) =~= body@.skip(
                                i as int + 1,
                            ));
                        }
                        match parse(content) {
                            Some(v) => Some((Jq::Parenthesis(Box::new(v)), after)),
                            None => None,
                        }
                    } else {
                        None
                    }
                },
                None => None,
            }
        },
        None => None,
    }
}

/// Parse a pipe split.
fn parse_pipe(input: &str) -> (r: Option<(Jq, &str)>)
    ensures
        match r {
            Some(p) => sp_pipe(input@) == Some((p.0@, p.1@)),
            None => sp_pipe(input@) is None,
        },
    decreases input@.len(), 3int,
{
    let n: usize = input.unicode_len();
    proof {
        reveal_strlit("|");
        assert("|"@ =~= seq!['|']);
    }
    match avoid_parenthesis(input, "|") {
        Some(i) => {
            if i < n {
                let lefttext = input.substring_char(0, i);
                let righttext = input.substring_char(i + 1, n);
                proof {
                    assert(input@.subrange(0, i as int) =~= input@.take(i as int));
                    assert(input@.subrange(i as int + 1, n as int) =~= input@.skip(i as int + 1));
                }
                let left = match parse(lefttext) {
                    Some(l) => l,
                    None => Jq::Input,
                };
                proof {
                    assert(left@ == (match sp_parse(input@.take(i as int)) {
                        Some(l) => l,
                        None => JqV::Input,
                    }));
                }
                match parse(righttext) {
                    Some(rv) => {
                        let empty_rest = input.substring_char(n, n);
                        proof {
                            assert(input@.subrange(n as int, n as int) =~= Seq::<char>::empty());
                        }
                        Some((Jq::Pipe(Box::new(left), Box::new(rv)), empty_rest))
                    },
                    None => None,
                }
            } else {
                None
            }
        },
        None => None,
    }
}

/// Parse a comma split.
fn parse_comma(input: &str) -> (r: Option<(Jq, &str)>)
    ensures
        match r {
            Some(p) => sp_comma(input@) == Some((p.0@, p.1@)),
            None => sp_comma(input@) is None,
        },
    decreases input@.len(), 3int,
{
    let n: usize = input.unicode_len();
    proof {
        reveal_strlit(",");
        assert(","@ =~= seq![',']);
    }
    match avoid_parenthesis(input, ",") {
        Some(i) => {
            if i < n {
                let lefttext = input.substring_char(0, i);
                let righttext = input.substring_char(i + 1, n);
                proof {
                    assert(input@.subrange(0, i as int) =~= input@.take(i as int));
                    assert(input@.subrange(i as int + 1, n as int) =~= input@.skip(i as int + 1));
                }
                match parse(lefttext) {
                    Some(l) => match parse(righttext) {
                        Some(rv) => {
                            let empty_rest = input.substring_char(n, n);
                            proof {
                                assert(input@.subrange(n as int, n as int) =~= Seq::<
                                    char,
                                >::empty());
                            }
                            Some((Jq::Comma(Box::new(l), Box::new(rv)), empty_rest))
                        },
                        None => None,
                    },
                    None => None,
                }
            } else {
                None
            }
        },
        None => None,
    }
}

/// Split at a binary operator: the two parsed sides and the rest.
fn parse_binary_operation<'a>(input: &'a str, op: &'a str) -> (r: Option<(Jq, Jq, &'a str)>)
    ensures
        match r {
            Some(p) => sp_binary(input@, op@) matches Some(q) && q.0 == p.0@ && q.1 == p.1@ && q.2
                == p.2@,
            None => sp_binary(input@, op@) is None,
        },
    decreases input@.len(), 2int,
{
    let n: usize = input.unicode_len();
    let wn: usize = op.unicode_len();
    match avoid_parenthesis(input, op) {
        Some(i) => {
            if i < n && wn > 0 {
                let lefttext = input.substring_char(0, i);
                let righttext = input.substring_char(i + wn, n);
                proof {
                    assert(input@.subrange(0, i as int) =~= input@.take(i as int));
                    assert(input@.subrange(i as int + wn as int, n as int) =~= input@.skip(
                        i as int + wn as int,
                    ));
                }
                match parse_jq(lefttext) {
                    Some((lv, lrest)) => {
                        let t = skip_stuff(lrest);
                        if t.unicode_len() != 0 {
                            None
                        } else {
                            match parse_jq(righttext) {
                                Some((rv, rrest)) => Some((lv, rv, rrest)),
                                None => None,
                            }
                        }
                    },
                    None => None,
                }
            } else {
                None
            }
        },
        None => None,
    }
}

/// Parse a postfix question mark.
fn parse_optional(input: &str) -> (r: Option<(Jq, &str)>)
    ensures
        match r {
            Some(p) => sp_optional(input@) == Some((p.0@, p.1@)),
            None => sp_optional(input@) is None,
        },
    decreases input@.len(), 3int,
{
    let n: usize = input.unicode_len();
    proof {
        reveal_strlit("?");
        assert("?"@ =~= seq!['?']);
    }
    match avoid_parenthesis(input, "?") {
        Some(i) => {
            if i < n {
                let lefttext = input.substring_char(0, i);
                let after = input.substring_char(i + 1, n);
                proof {
                    assert(input@.subrange(0, i as int) =~= input@.take(i as int));
                    assert(input@.subrange(i as int + 1, n as int) =~= input@.skip(i as int + 1));
                }
                match parse_jq(lefttext) {
                    Some((v, lrest)) => {
                        let t = skip_stuff(lrest);
                        if t.unicode_len() != 0 {
                            None
                        } else {
                            Some((Jq::Optional(Box::new(v)), after))
                        }
                    },
                    None => None,
                }
            } else {
                None
            }
        },
        None => None,
    }
}

/// Parse the bare iterator `.[]`.
fn parse_iterator(input: &str) -> (r: Option<(Jq, &str)>)
    ensures
        match r {
            Some(p) => sp_iterator(input@) == Some((p.0@, p.1@)),
            None => sp_iterator(input@) is None,
        },
{
    match get_char_s(input, '.') {
        Some(r1) => match get_char_s(r1, '[') {
            Some(r2) => match get_char_s(r2, ']') {
                Some(r3) => Some((Jq::Iterator, r3)),
                None => None,
            },
            None => None,
        },
        None => None,
    }
}

/// Parse a slice form `a:b` with optional bounds.
fn parse_slice(input: &str) -> (r: Option<(Jq, &str)>)
    ensures
        match r {
            Some(p) => sp_slice(input@) == Some((p.0@, p.1@)),
            None => sp_slice(input@) is None,
        },
{
    let first = get_number(input);
    let (f0, s1) = match first {
        Some((v, rest)) => (Some(v), rest),
        None => (None, input),
    };
    match get_char_s(s1, ':') {
        Some(after) => {
            let second = get_number(after);
            let (s0, rest) = match second {
                Some((v, r2)) => (Some(v), r2),
                None => (None, after),
            };
            Some((Jq::Slice(f0, s0), rest))
        },
        None => None,
    }
}

/// Parse the bare identity `.`.
fn parse_identity(input: &str) -> (r: Option<(Jq, &str)>)
    ensures
        match r {
            Some(p) => sp_identity(input@) == Some((p.0@, p.1@)),
            None => sp_identity(input@) is None,
        },
{
    match get_char_s(input, '.') {
        Some(rest) => Some((Jq::Identity, rest)),
        None => None,
    }
}

/// Parse the recursive descent `..`.
fn parse_recursive(input: &str) -> (r: Option<(Jq, &str)>)
    ensures
        match r {
            Some(p) => sp_recursive(input@) == Some((p.0@, p.1@)),
            None => sp_recursive(input@) is None,
        },
{
    match get_char_s(input, '.') {
        Some(r1) => match get_char_s(r1, '.') {
            Some(r2) => Some((Jq::Recursive, r2)),
            None => None,
        },
        None => None,
    }
}

fn parse_null(input: &str) -> (r: Option<(Jq, &str)>)
    ensures
        match r {
            Some(p) => sp_jq_null(input@) == Some((p.0@, p.1@)),
            None => sp_jq_null(input@) is None,
        },
{
    match json_parser::parse_null(input) {
        Some((j, rest)) => Some((from_json(&j), rest)),
        None => None,
    }
}

fn parse_boolean(input: &str) -> (r: Option<(Jq, &str)>)
    ensures
        match r {
            Some(p) => sp_jq_boolean(input@) == Some((p.0@, p.1@)),
            None => sp_jq_boolean(input@) is None,
        },
{
    match json_parser::parse_boolean(input) {
        Some((j, rest)) => Some((from_json(&j), rest)),
        None => None,
    }
}

fn parse_number(input: &str) -> (r: Option<(Jq, &str)>)
    ensures
        match r {
            Some(p) => sp_jq_number(input@) == Some((p.0@, p.1@)),
            None => sp_jq_number(input@) is None,
        },
{
    match json_parser::parse_number(input) {
        Some((j, rest)) => Some((from_json(&j), rest)),
        None => None,
    }
}

fn parse_string(input: &str) -> (r: Option<(Jq, &str)>)
    ensures
        match r {
            Some(p) => sp_jq_string(input@) == Some((p.0@, p.1@)),
            None => sp_jq_string(input@) is None,
        },
{
    match json_parser::parse_string(input) {
        Some((j, rest)) => Some((from_json(&j), rest)),
        None => None,
    }
}

/// Parse an array construction `[ e ]`; an empty body is the iterator.
fn parse_array(input: &str) -> (r: Option<(Jq, &str)>)
    ensures
        match r {
            Some(p) => sp_jq_array(input@) == Some((p.0@, p.1@)),
            None => sp_jq_array(input@) is None,
        },
    decreases input@.len(), 1int,
{
    match get_char_s(input, '[') {
        Some(body) => {
            proof {
                crate::util::lemma_skip_spec(input@);
            }
            let bn: usize = body.unicode_len();
            proof {
                reveal_strlit("]");
                assert("]"@ =~= seq![']']);
            }
            match avoid_parenthesis(body, "]") {
                Some(i) => {
                    if i < bn {
                        let content = body.substring_char(0, i);
                        let after = body.substring_char(i + 1, bn);
                        proof {
                            assert(body@.subrange(0, i as int) =~= body@.take(i as int));
                            assert(body@.subrange(i as int + 1, bn as int) =~= body@.skip(
                                i as int + 1,
                            ));
                        }
                        match parse_jq(content) {
                            Some((v, lrest)) => {
                                let t = skip_stuff(lrest);
                                if t.unicode_len() == 0 {
                                    Some((Jq::ArrayLit(unpack_comma_to_array(v)), after))
                                } else {
                                    None
                                }
                            },
                            None => Some((Jq::Iterator, after)),
                        }
                    } else {
                        None
                    }
                },
                None => None,
            }
        },
        None => None,
    }
}

/// Parse one `key : value` pair of an object construction.
fn parse_key_value(input: &str) -> (r: Option<(Jq, Jq, &str)>)
    ensures
        match r {
            Some(p) => sp_key_value(input@) matches Some(q) && q.0 == p.0@ && q.1 == p.1@ && q.2
                == p.2@,
            None => sp_key_value(input@) is None,
        },
    decreases input@.len(), 6int,
{
    let n: usize = input.unicode_len();
    match parse_jq(input) {
        Some((k, r1)) => {
            if r1.unicode_len() <= n {
                match get_char_s(r1, ':') {
                    Some(r2) => {
                        if r2.unicode_len() <= n {
                            match parse_jq(r2) {
                                Some((v, r3)) => Some((k, v, r3)),
                                None => None,
                            }
                        } else {
                            None
                        }
                    },
                    None => None,
                }
            } else {
                None
            }
        },
        None => None,
    }
}

/// Bind one pair over a pair list keyed by the key trees.
fn jq_pairs_put(m: &mut Vec<(Jq, Jq)>, k: Jq, v: Jq)
    ensures
        view_jq_pairs(final(m)@) == jq_pairs_set(view_jq_pairs(old(m)@), k@, v@),
{
    let ghost ms = view_jq_pairs(old(m)@);
    proof {
        lemma_view_jq_pairs(old(m)@);
        assert(ms.skip(0) =~= ms);
        assert(ms.take(0) =~= Seq::<(JqV, JqV)>::empty());
    }
    let mut i: usize = 0;
    while i < m.len()
        invariant
            0 <= i <= m.len(),
            m@ == old(m)@,
            ms == view_jq_pairs(m@),
            ms.len() == m@.len(),
            forall|j: int| 0 <= j < ms.len() ==> ms[j] == (m@[j].0@, m@[j].1@),
            forall|j: int| 0 <= j < i ==> ms[j].0 != k@,
            jq_pairs_set(ms, k@, v@) =~= ms.take(i as int) + jq_pairs_set(
                ms.skip(i as int),
                k@,
                v@,
            ),
        decreases m.len() - i,
    {
        proof {
            let sm = ms.skip(i as int);
            assert(sm[0] == ms[i as int]);
            assert(sm.drop_first() =~= ms.skip(i as int + 1));
        }
        if eq_jq(&m[i].0, &k) {
            proof {
                let sm = ms.skip(i as int);
                assert(jq_pairs_set(sm, k@, v@) =~= seq![(k@, v@)] + ms.skip(i as int + 1));
            }
            m.remove(i);
            m.insert(i, (k, v));
            proof {
                lemma_view_jq_pairs(m@);
                assert(view_jq_pairs(m@) =~= jq_pairs_set(ms, k@, v@));
            }
            return ;
        }
        proof {
            let sm = ms.skip(i as int);
            assert(jq_pairs_set(sm, k@, v@) =~= seq![sm[0]] + jq_pairs_set(
                sm.drop_first(),
                k@,
                v@,
            ));
            assert(ms.take(i as int + 1) =~= ms.take(i as int) + seq![ms[i as int]]);
            assert(ms.take(i as int) + jq_pairs_set(ms.skip(i as int), k@, v@) =~= ms.take(
                i as int + 1,
            ) + jq_pairs_set(ms.skip(i as int + 1), k@, v@));
        }
        i = i + 1;
    }
    proof {
        assert(ms.skip(i as int) =~= Seq::<(JqV, JqV)>::empty());
        assert(ms.take(i as int) =~= ms);
    }
    m.push((k, v));
    proof {
        lemma_view_jq_pairs(old(m)@);
        lemma_view_jq_pairs(m@);
        assert(view_jq_pairs(m@) =~= jq_pairs_set(ms, k@, v@));
    }
}

/// Parse the member list of an object construction, after the brace.
fn jq_members_exec(input: &str) -> (r: Option<(Vec<(Jq, Jq)>, &str)>)
    ensures
        match r {
            Some(p) => sp_jq_members(input@) matches Some(q) && q.0 == view_jq_pairs(p.0@) && q.1
                == p.1@,
            None => sp_jq_members(input@) is None,
        },
    decreases input@.len(), 7int,
{
    let n: usize = input.unicode_len();
    match parse_key_value(input) {
        Some((k, v, r1)) => {
            if r1.unicode_len() < n {
                match get_char_s(r1, ',') {
                    Some(r2) => {
                        if r2.unicode_len() < n {
                            match jq_members_exec(r2) {
                                Some((ms, r3)) => {
                                    let mut out: Vec<(Jq, Jq)> = Vec::new();
                                    out.push((k, v));
                                    let ghost first = out@;
                                    let mut rest = ms;
                                    let ghost restv = rest@;
                                    out.append(&mut rest);
                                    proof {
                                        lemma_view_jq_pairs(first);
                                        lemma_view_jq_pairs(restv);
                                        lemma_view_jq_pairs(first + restv);
                                        assert(view_jq_pairs(first + restv) =~= seq![
                                            (first[0].0@, first[0].1@),
                                        ] + view_jq_pairs(restv));
                                    }
                                    Some((out, r3))
                                },
                                None => None,
                            }
                        } else {
                            None
                        }
                    },
                    None => match get_char_s(r1, '}') {
                        Some(r2) => {
                            let mut out: Vec<(Jq, Jq)> = Vec::new();
                            out.push((k, v));
                            proof {
                                lemma_view_jq_pairs(out@);
                                assert(view_jq_pairs(out@) =~= seq![(out@[0].0@, out@[0].1@)]);
                            }
                            Some((out, r2))
                        },
                        None => None,
                    },
                }
            } else {
                None
            }
        },
        None => None,
    }
}

/// Parse an object construction `{ k: v, ... }`.
pub fn parse_object(input: &str) -> (r: Option<(Jq, &str)>)
    ensures
        match r {
            Some(p) => sp_jq_object(input@) == Some((p.0@, p.1@)),
            None => sp_jq_object(input@) is None,
        },
    decreases input@.len(), 1int,
{
    match get_char_s(input, '{') {
        Some(body) => {
            proof {
                crate::util::lemma_skip_spec(input@);
            }
            match jq_members_exec(body) {
                Some((ms, r)) => {
                    let ghost pv = view_jq_pairs(ms@);
                    proof {
                        lemma_view_jq_pairs(ms@);
                    }
                    let mut out: Vec<(Jq, Jq)> = Vec::new();
                    let mut i: usize = 0;
                    proof {
                        assert(view_jq_pairs(out@) =~= Seq::<(JqV, JqV)>::empty());
                        assert(pv.take(0) =~= Seq::<(JqV, JqV)>::empty());
                    }
                    while i < ms.len()
                        invariant
                            0 <= i <= ms.len(),
                            pv == view_jq_pairs(ms@),
                            pv.len() == ms@.len(),
                            forall|k: int| 0 <= k < pv.len() ==> pv[k] == (ms@[k].0@, ms@[k].1@),
                            view_jq_pairs(out@) == build_jq_obj(pv.take(i as int)),
                        decreases ms.len() - i,
                    {
                        proof {
                            assert(pv.take(i as int + 1).drop_last() =~= pv.take(i as int));
                            assert(pv.take(i as int + 1).last() == pv[i as int]);
                        }
                        let key = clone_jq(&ms[i].0);
                        let value = clone_jq(&ms[i].1);
                        jq_pairs_put(&mut out, key, value);
                        i = i + 1;
                    }
                    proof {
                        assert(pv.take(ms@.len() as int) =~= pv);
                    }
                    Some((Jq::ObjectLit(out), r))
                },
                None => None,
            }
        },
        None => None,
    }
}


/// Chained accesses starting after the leading dot.
fn chain_first_exec(input: &str) -> (r: (Vec<Jq>, &str))
    ensures
        sp_chain_first(input@) == (view_jq_seq(r.0@), r.1@),
    decreases input@.len(), 2int,
{
    let n: usize = input.unicode_len();
    match parse_array(input) {
        Some((op, rest)) => {
            if rest.unicode_len() < n {
                let (ops, fin) = chain_rest_exec(rest);
                let mut out: Vec<Jq> = Vec::new();
                out.push(op);
                let ghost first = out@;
                let mut more = ops;
                let ghost morev = more@;
                out.append(&mut more);
                proof {
                    lemma_view_jq_seq(first);
                    lemma_view_jq_seq(morev);
                    lemma_view_jq_seq(first + morev);
                    assert(view_jq_seq(first + morev) =~= seq![first[0]@] + view_jq_seq(morev));
                }
                (out, fin)
            } else {
                let mut out: Vec<Jq> = Vec::new();
                out.push(op);
                proof {
                    lemma_view_jq_seq(out@);
                    assert(view_jq_seq(out@) =~= seq![out@[0]@]);
                }
                (out, rest)
            }
        },
        None => match parse_object_id(input) {
            Some((op, rest)) => {
                if rest.unicode_len() < n {
                    let (ops, fin) = chain_rest_exec(rest);
                    let mut out: Vec<Jq> = Vec::new();
                    out.push(op);
                    let ghost first = out@;
                    let mut more = ops;
                    let ghost morev = more@;
                    out.append(&mut more);
                    proof {
                        lemma_view_jq_seq(first);
                        lemma_view_jq_seq(morev);
                        lemma_view_jq_seq(first + morev);
                        assert(view_jq_seq(first + morev) =~= seq![first[0]@] + view_jq_seq(
                            morev,
                        ));
                    }
                    (out, fin)
                } else {
                    let mut out: Vec<Jq> = Vec::new();
                    out.push(op);
                    proof {
                        lemma_view_jq_seq(out@);
                        assert(view_jq_seq(out@) =~= seq![out@[0]@]);
                    }
                    (out, rest)
                }
            },
            None => {
                let out: Vec<Jq> = Vec::new();
                proof {
                    assert(view_jq_seq(out@) =~= Seq::<JqV>::empty());
                }
                (out, input)
            },
        },
    }
}

/// Further chained accesses: bracketed forms or dotted field names.
fn chain_rest_exec(input: &str) -> (r: (Vec<Jq>, &str))
    ensures
        sp_chain_rest(input@) == (view_jq_seq(r.0@), r.1@),
    decreases input@.len(), 2int,
{
    let n: usize = input.unicode_len();
    match parse_array(input) {
        Some((op, rest)) => {
            if rest.unicode_len() < n {
                let (ops, fin) = chain_rest_exec(rest);
                let mut out: Vec<Jq> = Vec::new();
                out.push(op);
                let ghost first = out@;
                let mut more = ops;
                let ghost morev = more@;
                out.append(&mut more);
                proof {
                    lemma_view_jq_seq(first);
                    lemma_view_jq_seq(morev);
                    lemma_view_jq_seq(first + morev);
                    assert(view_jq_seq(first + morev) =~= seq![first[0]@] + view_jq_seq(morev));
                }
                (out, fin)
            } else {
                let mut out: Vec<Jq> = Vec::new();
                out.push(op);
                proof {
                    lemma_view_jq_seq(out@);
                    assert(view_jq_seq(out@) =~= seq![out@[0]@]);
                }
                (out, rest)
            }
        },
        None => {
            if n > 0 && input.get_char(0) == '.' {
                let tail = input.substring_char(1, n);
                proof {
                    assert(input@.subrange(1, n as int) =~= input@.drop_first());
                }
                match parse_object_id(tail) {
                    Some((op, rest)) => {
                        if rest.unicode_len() < n {
                            let (ops, fin) = chain_rest_exec(rest);
                            let mut out: Vec<Jq> = Vec::new();
                            out.push(op);
                            let ghost first = out@;
                            let mut more = ops;
                            let ghost morev = more@;
                            out.append(&mut more);
                            proof {
                                lemma_view_jq_seq(first);
                                lemma_view_jq_seq(morev);
                                lemma_view_jq_seq(first + morev);
                                assert(view_jq_seq(first + morev) =~= seq![first[0]@]
                                    + view_jq_seq(morev));
                            }
                            (out, fin)
                        } else {
                            let mut out: Vec<Jq> = Vec::new();
                            out.push(op);
                            proof {
                                lemma_view_jq_seq(out@);
                                assert(view_jq_seq(out@) =~= seq![out@[0]@]);
                            }
                            (out, rest)
                        }
                    },
                    None => {
                        let out: Vec<Jq> = Vec::new();
                        proof {
                            assert(view_jq_seq(out@) =~= Seq::<JqV>::empty());
                        }
                        (out, input)
                    },
                }
            } else {
                let out: Vec<Jq> = Vec::new();
                proof {
                    assert(view_jq_seq(out@) =~= Seq::<JqV>::empty());
                }
                (out, input)
            }
        },
    }
}

/// Parse a chained access `.a.b[0]`; a bare dot is the identity.
fn parse_id_chain(input: &str) -> (r: Option<(Jq, &str)>)
    ensures
        match r {
            Some(p) => sp_id_chain(input@) == Some((p.0@, p.1@)),
            None => sp_id_chain(input@) is None,
        },
    decreases input@.len(), 3int,
{
    match get_char_s(input, '.') {
        Some(d) => {
            proof {
                crate::util::lemma_skip_spec(input@);
            }
            let (ops, rest) = chain_first_exec(d);
            if ops.len() == 0 {
                proof {
                    lemma_view_jq_seq(ops@);
                }
                Some((Jq::Identity, d))
            } else {
                proof {
                    lemma_view_jq_seq(ops@);
                }
                Some((Jq::IdChain(ops), rest))
            }
        },
        None => None,
    }
}

/// Parse a conditional `if c then t [else e] end`.
fn parse_if_statement(input: &str) -> (r: Option<(Jq, &str)>)
    ensures
        match r {
            Some(p) => sp_if(input@) == Some((p.0@, p.1@)),
            None => sp_if(input@) is None,
        },
    decreases input@.len(), 3int,
{
    let n: usize = input.unicode_len();
    match get_word(input, "if") {
        Some(r1) => {
            if r1.unicode_len() < n {
                match parse_jq(r1) {
                    Some((c, r2)) => {
                        if r2.unicode_len() < n {
                            match get_word(r2, "then") {
                                Some(r3) => {
                                    if r3.unicode_len() < n {
                                        match parse_jq(r3) {
                                            Some((t, r4)) => match get_word(r4, "else") {
                                                Some(r5) => {
                                                    if r5.unicode_len() < n {
                                                        match parse_jq(r5) {
                                                            Some((e, r6)) => match get_word(
                                                                r6,
                                                                "end",
                                                            ) {
                                                                Some(r7) => Some(
                                                                    (
                                                                        Jq::IfStatement(
                                                                            Box::new(c),
                                                                            Box::new(t),
                                                                            Some(Box::new(e)),
                                                                        ),
                                                                        r7,
                                                                    ),
                                                                ),
                                                                None => None,
                                                            },
                                                            None => None,
                                                        }
                                                    } else {
                                                        None
                                                    }
                                                },
                                                None => match get_word(r4, "end") {
                                                    Some(r5) => Some(
                                                        (
                                                            Jq::IfStatement(
                                                                Box::new(c),
                                                                Box::new(t),
                                                                None,
                                                            ),
                                                            r5,
                                                        ),
                                                    ),
                                                    None => None,
                                                },
                                            },
                                            None => None,
                                        }
                                    } else {
                                        None
                                    }
                                },
                                None => None,
                            }
                        } else {
                            None
                        }
                    },
                    None => None,
                }
            } else {
                None
            }
        },
        None => None,
    }
}

/// Parse a negation `not e`.
fn parse_not(input: &str) -> (r: Option<(Jq, &str)>)
    ensures
        match r {
            Some(p) => sp_not(input@) == Some((p.0@, p.1@)),
            None => sp_not(input@) is None,
        },
    decreases input@.len(), 2int,
{
    let n: usize = input.unicode_len();
    match get_word(input, "not") {
        Some(r1) => {
            if r1.unicode_len() < n {
                match parse_jq(r1) {
                    Some((v, r2)) => Some((Jq::Not(Box::new(v)), r2)),
                    None => None,
                }
            } else {
                None
            }
        },
        None => None,
    }
}

/// Parse the comparison group, boolean connectives first.
fn parse_comparison(input: &str) -> (r: Option<(Jq, &str)>)
    ensures
        match r {
            Some(p) => sp_comparison(input@) == Some((p.0@, p.1@)),
            None => sp_comparison(input@) is None,
        },
    decreases input@.len(), 3int,
{
    if let Some((a, b, rest)) = parse_binary_operation(input, "and") {
        return Some((Jq::And(Box::new(a), Box::new(b)), rest));
    }
    if let Some((a, b, rest)) = parse_binary_operation(input, "or") {
        return Some((Jq::Or(Box::new(a), Box::new(b)), rest));
    }
    if let Some(p) = parse_not(input) {
        return Some(p);
    }
    if let Some((a, b, rest)) = parse_binary_operation(input, "==") {
        return Some((Jq::Eq(Box::new(a), Box::new(b)), rest));
    }
    if let Some((a, b, rest)) = parse_binary_operation(input, "!=") {
        return Some((Jq::NotEq(Box::new(a), Box::new(b)), rest));
    }
    if let Some((a, b, rest)) = parse_binary_operation(input, ">") {
        return Some((Jq::Gt(Box::new(a), Box::new(b)), rest));
    }
    if let Some((a, b, rest)) = parse_binary_operation(input, ">=") {
        return Some((Jq::Gte(Box::new(a), Box::new(b)), rest));
    }
    if let Some((a, b, rest)) = parse_binary_operation(input, "<") {
        return Some((Jq::Lt(Box::new(a), Box::new(b)), rest));
    }
    if let Some((a, b, rest)) = parse_binary_operation(input, "<=") {
        return Some((Jq::Lte(Box::new(a), Box::new(b)), rest));
    }
    None
}

/// Parse the arithmetic group.
fn parse_arithmetic(input: &str) -> (r: Option<(Jq, &str)>)
    ensures
        match r {
            Some(p) => sp_arithmetic(input@) == Some((p.0@, p.1@)),
            None => sp_arithmetic(input@) is None,
        },
    decreases input@.len(), 3int,
{
    if let Some((a, b, rest)) = parse_binary_operation(input, "+") {
        return Some((Jq::Addition(Box::new(a), Box::new(b)), rest));
    }
    if let Some((a, b, rest)) = parse_binary_operation(input, "-") {
        return Some((Jq::Subtraction(Box::new(a), Box::new(b)), rest));
    }
    if let Some((a, b, rest)) = parse_binary_operation(input, "*") {
        return Some((Jq::Multiplication(Box::new(a), Box::new(b)), rest));
    }
    if let Some((a, b, rest)) = parse_binary_operation(input, "/") {
        return Some((Jq::Division(Box::new(a), Box::new(b)), rest));
    }
    if let Some((a, b, rest)) = parse_binary_operation(input, "%") {
        return Some((Jq::Modulo(Box::new(a), Box::new(b)), rest));
    }
    None
}

/// Parse the fallback operator `a // b`.
fn parse_alternative(input: &str) -> (r: Option<(Jq, &str)>)
    ensures
        match r {
            Some(p) => sp_alternative(input@) == Some((p.0@, p.1@)),
            None => sp_alternative(input@) is None,
        },
    decreases input@.len(), 3int,
{
    match parse_binary_operation(input, "//") {
        Some((a, b, rest)) => Some((Jq::Alternative(Box::new(a), Box::new(b)), rest)),
        None => None,
    }
}

/// Parse a built-in's name with an optional parenthesized argument.
fn parse_function_single_arg<'a>(input: &'a str, func_name: &'a str) -> (r: Option<
    (Option<Box<Jq>>, &'a str),
>)
    ensures
        match r {
            Some(p) => sp_fun1(input@, func_name@) matches Some(q) && q.1 == p.1@ && (match (
                q.0,
                p.0,
            ) {
                (Some(x), Some(y)) => *x == (*y)@,
                (None, None) => true,
                _ => false,
            }),
            None => sp_fun1(input@, func_name@) is None,
        },
    decreases input@.len(), 2int,
{
    let n: usize = input.unicode_len();
    match get_word(input, func_name) {
        Some(r1) => {
            if r1.unicode_len() < n {
                match parse_parenthesis(r1) {
                    Some((p, r2)) => match p {
                        Jq::Parenthesis(content) => Some((Some(content), r2)),
                        _ => Some((None, r1)),
                    },
                    None => Some((None, r1)),
                }
            } else {
                Some((None, r1))
            }
        },
        None => None,
    }
}

/// Parse the built-in function calls.
fn parse_functions(input: &str) -> (r: Option<(Jq, &str)>)
    ensures
        match r {
            Some(p) => sp_functions(input@) == Some((p.0@, p.1@)),
            None => sp_functions(input@) is None,
        },
    decreases input@.len(), 3int,
{
    if let Some((arg, rest)) = parse_function_single_arg(input, "abs") {
        return Some((Jq::Abs(arg), rest));
    }
    if let Some((arg, rest)) = parse_function_single_arg(input, "length") {
        return Some((Jq::Length(arg), rest));
    }
    if let Some((arg, rest)) = parse_function_single_arg(input, "keys") {
        return Some((Jq::Keys(arg), rest));
    }
    if let Some((arg, rest)) = parse_function_single_arg(input, "has") {
        match arg {
            Some(a) => {
                return Some((Jq::Has(a), rest));
            },
            None => {
                return None;
            },
        }
    }
    if let Some((arg, rest)) = parse_function_single_arg(input, "in") {
        match arg {
            Some(a) => {
                return Some((Jq::In(a), rest));
            },
            None => {
                return None;
            },
        }
    }
    if let Some((arg, rest)) = parse_function_single_arg(input, "map") {
        match arg {
            Some(a) => {
                return Some((Jq::MapFn(a), rest));
            },
            None => {
                return None;
            },
        }
    }
    None
}

/// Parse one filter expression at the current position.
fn parse_jq(input: &str) -> (r: Option<(Jq, &str)>)
    ensures
        match r {
            Some(p) => sp_jq(input@) == Some((p.0@, p.1@)),
            None => sp_jq(input@) is None,
        },
    decreases input@.len(), 4int,
{
    if let Some(p) = parse_parenthesis(input) {
        return Some(p);
    }
    if let Some(p) = parse_pipe(input) {
        return Some(p);
    }
    if let Some(p) = parse_comma(input) {
        return Some(p);
    }
    if let Some(p) = parse_alternative(input) {
        return Some(p);
    }
    if let Some(p) = parse_if_statement(input) {
        return Some(p);
    }
    if let Some(p) = parse_comparison(input) {
        return Some(p);
    }
    if let Some(p) = parse_arithmetic(input) {
        return Some(p);
    }
    if let Some(p) = parse_optional(input) {
        return Some(p);
    }
    if let Some(p) = parse_recursive(input) {
        return Some(p);
    }
    if let Some(p) = parse_id_chain(input) {
        return Some(p);
    }
    if let Some(p) = parse_iterator(input) {
        return Some(p);
    }
    if let Some(p) = parse_slice(input) {
        return Some(p);
    }
    if let Some(p) = parse_identity(input) {
        return Some(p);
    }
    if let Some(p) = parse_functions(input) {
        return Some(p);
    }
    if let Some(p) = parse_null(input) {
        return Some(p);
    }
    if let Some(p) = parse_boolean(input) {
        return Some(p);
    }
    if let Some(p) = parse_number(input) {
        return Some(p);
    }
    if let Some(p) = parse_string(input) {
        return Some(p);
    }
    if let Some(p) = parse_array(input) {
        return Some(p);
    }
    parse_object(input)
}

/// Parse a whole filter program; leftover text becomes a further pipeline
/// stage.
pub fn parse(input: &str) -> (r: Option<Jq>)
    ensures
        match r {
            Some(v) => sp_parse(input@) == Some(v@),
            None => sp_parse(input@) is None,
        },
    decreases input@.len(), 5int,
{
    let n: usize = input.unicode_len();
    match parse_jq(input) {
        Some((v, leftover)) => {
            let t = skip_stuff(leftover);
            if t.unicode_len() == 0 {
                Some(v)
            } else if leftover.unicode_len() >= n {
                None
            } else {
                match parse(leftover) {
                    Some(rest) => Some(Jq::Pipe(Box::new(v), Box::new(rest))),
                    None => None,
                }
            }
        },
        None => None,
    }
}

} // verus!
