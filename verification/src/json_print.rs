//! Printing JSON values back to text, in compact form.
//!
//! The output is valid JSON that the library's own parser reads back:
//! strings are double-quoted with the standard escapes, arrays and objects
//! are comma-separated without added whitespace.  Numbers render through
//! the trusted decimal formatter.

use vstd::prelude::*;

use crate::json::{Json, JsonV, view_arr, view_obj, lemma_view_arr, lemma_view_obj};
use crate::num::{
    float_str, num_to_string, is_nan_bits, is_inf_bits, sign_bit, num_is_nan, num_is_inf,
    num_is_negative,
};

verus! {

broadcast use vstd::seq::group_seq_axioms, vstd::std_specs::vec::group_vec_axioms,
    vstd::string::group_string_axioms;

/// A string body with the standard escapes applied.
pub open spec fn sp_escape(s: Seq<char>) -> Seq<char>
    decreases s.len(),
{
    if s.len() == 0 {
        Seq::empty()
    } else {
        let c = s[0];
        let head: Seq<char> = if c == '\\' {
            seq!['\\', '\\']
        } else if c == '"' {
            seq!['\\', '"']
        } else if c == '\n' {
            seq!['\\', 'n']
        } else if c == '\t' {
            seq!['\\', 't']
        } else {
            seq![c]
        };
        head + sp_escape(s.drop_first())
    }
}

/// A rendered number with the sign dropped from a `+`-signed exponent, so
/// that the text fits the crate's own number grammar.
pub open spec fn sp_strip_plus(t: Seq<char>) -> Seq<char>
    decreases t.len(),
{
    if t.len() == 0 {
        Seq::empty()
    } else if t.len() >= 2 && (t[0] == 'e' || t[0] == 'E') && t[1] == '+' {
        seq![t[0]] + sp_strip_plus(t.skip(2))
    } else {
        seq![t[0]] + sp_strip_plus(t.drop_first())
    }
}

/// The text of one number: `null` for a NaN (the one JSON spelling
/// available), a decimal literal with a saturating exponent for an
/// infinity, else the trusted rendering with any `+` exponent sign
/// dropped so the crate's own parser reads it back.
pub open spec fn sp_print_num(n: u64) -> Seq<char> {
    if is_nan_bits(n) {
        "null"@
    } else if is_inf_bits(n) {
        if sign_bit(n) {
            "-1e999"@
        } else {
            "1e999"@
        }
    } else {
        sp_strip_plus(float_str(n))
    }
}

/// The compact text of a value.
pub open spec fn sp_print(v: JsonV) -> Seq<char>
    decreases v,
{
    match v {
        JsonV::Null => "null"@,
        JsonV::Boolean(b) => if b {
            "true"@
        } else {
            "false"@
        },
        JsonV::Number(n) => sp_print_num(n),
        JsonV::String(s) => seq!['"'] + sp_escape(s) + seq!['"'],
        JsonV::Array(a) => seq!['['] + sp_print_arr(a) + seq![']'],
        JsonV::Object(m) => seq!['{'] + sp_print_obj(m) + seq!['}'],
    }
}

/// Array elements, comma separated.
pub open spec fn sp_print_arr(s: Seq<JsonV>) -> Seq<char>
    decreases s,
{
    if s.len() == 0 {
        Seq::empty()
    } else if s.len() == 1 {
        sp_print(s[0])
    } else {
        sp_print_arr(s.drop_last()) + seq![','] + sp_print(s.last())
    }
}

/// Object members, comma separated, each `"key":value`.
pub open spec fn sp_print_obj(s: Seq<(Seq<char>, JsonV)>) -> Seq<char>
    decreases s,
{
    if s.len() == 0 {
        Seq::empty()
    } else if s.len() == 1 {
        sp_print_pair(s[0])
    } else {
        sp_print_obj(s.drop_last()) + seq![','] + sp_print_pair(s.last())
    }
}

pub open spec fn sp_print_pair(p: (Seq<char>, JsonV)) -> Seq<char>
    decreases p,
{
    seq!['"'] + sp_escape(p.0) + seq!['"', ':'] + sp_print(p.1)
}

/// Relies on `String::push`: appends exactly one character.
#[verifier::external_body]
fn push_char(s: &mut String, c: char)
    ensures
        final(s)@ == old(s)@.push(c),
{
    s.push(c);
}

/// Drop the sign from `+`-signed exponents of a rendered number.
fn strip_plus_exec(input: &str) -> (r: String)
    ensures
        r@ == sp_strip_plus(input@),
    decreases input@.len(),
{
    let n: usize = input.unicode_len();
    if n == 0 {
        return String::new();
    }
    let c0 = input.get_char(0);
    if n >= 2 && (c0 == 'e' || c0 == 'E') && input.get_char(1) == '+' {
        let tail = input.substring_char(2, n);
        proof {
            assert(input@.subrange(2, n as int) =~= input@.skip(2));
        }
        let rest = strip_plus_exec(tail);
        let mut out = String::new();
        push_char(&mut out, c0);
        out.append(rest.as_str());
        proof {
            assert(out@ =~= seq![input@[0]] + rest@);
        }
        out
    } else {
        let tail = input.substring_char(1, n);
        proof {
            assert(input@.subrange(1, n as int) =~= input@.drop_first());
        }
        let rest = strip_plus_exec(tail);
        let mut out = String::new();
        push_char(&mut out, c0);
        out.append(rest.as_str());
        proof {
            assert(out@ =~= seq![input@[0]] + rest@);
        }
        out
    }
}

/// The text of one number.
fn print_num_exec(n: u64) -> (r: String)
    ensures
        r@ == sp_print_num(n),
{
    if num_is_nan(n) {
        "null".to_owned()
    } else if num_is_inf(n) {
        if num_is_negative(n) {
            "-1e999".to_owned()
        } else {
            "1e999".to_owned()
        }
    } else {
        let rendered = num_to_string(n);
        strip_plus_exec(rendered.as_str())
    }
}

/// Escape a string body for printing.
fn escape_exec(s: &String) -> (r: String)
    ensures
        r@ == sp_escape(s@),
{
    let t = s.as_str();
    let n: usize = t.unicode_len();
    let mut out = String::new();
    let mut i: usize = 0;
    proof {
        assert(out@ =~= Seq::<char>::empty());
        assert(s@.skip(0) =~= s@);
    }
    while i < n
        invariant
            0 <= i <= n,
            n == s@.len(),
            t@ == s@,
            sp_escape(s@) == out@ + sp_escape(s@.skip(i as int)),
        decreases n - i,
    {
        let c = t.get_char(i);
        let ghost su = s@.skip(i as int);
        proof {
            assert(su[0] == s@[i as int]);
            assert(su.drop_first() =~= s@.skip(i as int + 1));
        }
        let ghost oldo = out@;
        if c == '\\' {
            push_char(&mut out, '\\');
            push_char(&mut out, '\\');
        } else if c == '"' {
            push_char(&mut out, '\\');
            push_char(&mut out, '"');
        } else if c == '\n' {
            push_char(&mut out, '\\');
            push_char(&mut out, 'n');
        } else if c == '\t' {
            push_char(&mut out, '\\');
            push_char(&mut out, 't');
        } else {
            push_char(&mut out, c);
        }
        proof {
            assert(sp_escape(su) == (if su[0] == '\\' {
                seq!['\\', '\\']
            } else if su[0] == '"' {
                seq!['\\', '"']
            } else if su[0] == '\n' {
                seq!['\\', 'n']
            } else if su[0] == '\t' {
                seq!['\\', 't']
            } else {
                seq![su[0]]
            }) + sp_escape(su.drop_first()));
            assert(out@ + sp_escape(s@.skip(i as int + 1)) =~= oldo + sp_escape(su));
        }
        i = i + 1;
    }
    proof {
        assert(s@.skip(n as int) =~= Seq::<char>::empty());
        assert(out@ + sp_escape(s@.skip(n as int)) =~= out@);
    }
    out
}

/// The compact text of a value.
pub fn to_text(j: &Json) -> (r: String)
    ensures
        r@ == sp_print(j@),
    decreases j,
{
    match j {
        Json::Null => "null".to_owned(),
        Json::Boolean(b) => if *b {
            "true".to_owned()
        } else {
            "false".to_owned()
        },
        Json::Number(n) => print_num_exec(*n),
        Json::String(s) => {
            let mut out = String::new();
            push_char(&mut out, '"');
            let body = escape_exec(s);
            out.append(body.as_str());
            push_char(&mut out, '"');
            proof {
                assert(out@ =~= seq!['"'] + sp_escape(s@) + seq!['"']);
            }
            out
        },
        Json::Array(a) => print_arr_exec(a),
        Json::Object(m) => print_obj_exec(m),
    }
}

fn print_arr_exec(a: &Vec<Json>) -> (r: String)
    ensures
        r@ == seq!['['] + sp_print_arr(view_arr(a@)) + seq![']'],
    decreases a,
{
    let ghost va = view_arr(a@);
    proof {
        lemma_view_arr(a@);
    }
    let mut out = String::new();
    push_char(&mut out, '[');
    let mut i: usize = 0;
    proof {
        assert(sp_print_arr(va.take(0)) =~= Seq::<char>::empty());
        assert(out@ =~= seq!['['] + sp_print_arr(va.take(0)));
    }
    while i < a.len()
        invariant
            0 <= i <= a.len(),
            va == view_arr(a@),
            va.len() == a@.len(),
            forall|k: int| 0 <= k < va.len() ==> va[k] == a@[k]@,
            out@ == seq!['['] + sp_print_arr(va.take(i as int)),
        decreases a.len() - i,
    {
        if i > 0 {
            push_char(&mut out, ',');
        }
        let piece = to_text(&a[i]);
        out.append(piece.as_str());
        proof {
            assert(va.take(i as int + 1).drop_last() =~= va.take(i as int));
            assert(va.take(i as int + 1).last() == va[i as int]);
            if i == 0 {
                assert(va.take(1).len() == 1 && va.take(1)[0] == va[0]);
                assert(sp_print_arr(va.take(1)) == sp_print(va[0]));
                assert(out@ =~= seq!['['] + sp_print_arr(va.take(1)));
            } else {
                assert(out@ =~= seq!['['] + sp_print_arr(va.take(i as int + 1)));
            }
        }
        i = i + 1;
    }
    push_char(&mut out, ']');
    proof {
        assert(va.take(a@.len() as int) =~= va);
        assert(out@ =~= seq!['['] + sp_print_arr(va) + seq![']']);
    }
    out
}

fn print_obj_exec(m: &Vec<(String, Json)>) -> (r: String)
    ensures
        r@ == seq!['{'] + sp_print_obj(view_obj(m@)) + seq!['}'],
    decreases m,
{
    let ghost ms = view_obj(m@);
    proof {
        lemma_view_obj(m@);
    }
    let mut out = String::new();
    push_char(&mut out, '{');
    let mut i: usize = 0;
    proof {
        assert(sp_print_obj(ms.take(0)) =~= Seq::<char>::empty());
        assert(out@ =~= seq!['{'] + sp_print_obj(ms.take(0)));
    }
    while i < m.len()
        invariant
            0 <= i <= m.len(),
            ms == view_obj(m@),
            ms.len() == m@.len(),
            forall|k: int| 0 <= k < ms.len() ==> ms[k] == (m@[k].0@, m@[k].1@),
            out@ == seq!['{'] + sp_print_obj(ms.take(i as int)),
        decreases m.len() - i,
    {
        if i > 0 {
            push_char(&mut out, ',');
        }
        push_char(&mut out, '"');
        let key = escape_exec(&m[i].0);
        out.append(key.as_str());
        push_char(&mut out, '"');
        push_char(&mut out, ':');
        let piece = to_text(&m[i].1);
        out.append(piece.as_str());
        proof {
            assert(ms.take(i as int + 1).drop_last() =~= ms.take(i as int));
            assert(ms.take(i as int + 1).last() == ms[i as int]);
            assert(sp_print_pair(ms[i as int]) =~= seq!['"'] + sp_escape(ms[i as int].0) + seq![
                '"',
                ':',
            ] + sp_print(ms[i as int].1));
            if i == 0 {
                assert(ms.take(1).len() == 1 && ms.take(1)[0] == ms[0]);
                assert(sp_print_obj(ms.take(1)) == sp_print_pair(ms[0]));
                assert(out@ =~= seq!['{'] + sp_print_obj(ms.take(1)));
            } else {
                assert(out@ =~= seq!['{'] + sp_print_obj(ms.take(i as int + 1)));
            }
        }
        i = i + 1;
    }
    push_char(&mut out, '}');
    proof {
        assert(ms.take(m@.len() as int) =~= ms);
        assert(out@ =~= seq!['{'] + sp_print_obj(ms) + seq!['}']);
    }
    out
}

/// The printed form of a value, line by line: one compact line.
pub fn print(j: &Json) -> (r: Vec<String>)
    ensures
        r@.len() == 1,
        r@[0]@ == sp_print(j@),
{
    let mut out: Vec<String> = Vec::new();
    out.push(to_text(j));
    out
}

} // verus!
