//! Recursive-descent parser for JSON documents.
//!
//! Each parsing function consumes a prefix of the input and hands back the
//! parsed value with the rest of the slice; each is specified against a
//! spec-level mirror over `Seq<char>`, so what the parser accepts and what
//! tree it builds is pinned exactly.

use vstd::prelude::*;

use crate::json::{
    Json, JsonV, view_arr, view_obj, lemma_view_arr, lemma_view_obj, obj_set, obj_keys_unique,
    lemma_obj_set_unique,
};
use crate::num::{dec_bits, neg_bits, num_from_parts, all_digits, is_digit_char};
use crate::util::{
    is_space, is_digit, skip_spec, word_spec, char_s_spec, chars_s_spec, number_string_spec,
    skip_stuff, get_word, get_char_s, get_chars_s, get_number_string, get_any_char,
};

verus! {

broadcast use vstd::seq::group_seq_axioms, vstd::std_specs::vec::group_vec_axioms,
    vstd::string::group_string_axioms;

/// Relies on `String::push`: appends exactly one character.
#[verifier::external_body]
fn push_char(s: &mut String, c: char)
    ensures
        final(s)@ == old(s)@.push(c),
{
    s.push(c);
}

/// What `char::from_u32` returns on a valid scalar value.
pub uninterp spec fn char_of_u32(v: u32) -> char;

/// Relies on `char::from_u32`: `Some` exactly on Unicode scalar values
/// (below the surrogate range or between it and the maximum), and the
/// returned character has the given code.
#[verifier::external_body]
fn char_from_u32(v: u32) -> (r: Option<char>)
    ensures
        r is Some <==> (v < 0xD800 || (0xE000 <= v && v <= 0x10FFFF)),
        r is Some ==> r == Some(char_of_u32(v)) && char_of_u32(v) as u32 == v,
{
    char::from_u32(v)
}

/// What `parse_null` yields.
pub open spec fn sp_null(s: Seq<char>) -> Option<(JsonV, Seq<char>)> {
    match word_spec(s, "null"@) {
        Some(rest) => Some((JsonV::Null, rest)),
        None => None,
    }
}

/// Parse the keyword `null`.
pub fn parse_null(input: &str) -> (r: Option<(Json, &str)>)
    ensures
        match r {
            Some(p) => sp_null(input@) == Some((p.0@, p.1@)),
            None => sp_null(input@) is None,
        },
{
    match get_word(input, "null") {
        Some(rest) => Some((Json::Null, rest)),
        None => None,
    }
}

/// What `parse_boolean` yields.
pub open spec fn sp_boolean(s: Seq<char>) -> Option<(JsonV, Seq<char>)> {
    match word_spec(s, "true"@) {
        Some(rest) => Some((JsonV::Boolean(true), rest)),
        None => match word_spec(s, "false"@) {
            Some(rest) => Some((JsonV::Boolean(false), rest)),
            None => None,
        },
    }
}

/// Parse the keywords `true` and `false`.
pub fn parse_boolean(input: &str) -> (r: Option<(Json, &str)>)
    ensures
        match r {
            Some(p) => sp_boolean(input@) == Some((p.0@, p.1@)),
            None => sp_boolean(input@) is None,
        },
{
    match get_word(input, "true") {
        Some(rest) => Some((Json::Boolean(true), rest)),
        None => match get_word(input, "false") {
            Some(rest) => Some((Json::Boolean(false), rest)),
            None => None,
        },
    }
}

/// Hexadecimal digit.
pub open spec fn is_hex(c: char) -> bool {
    is_digit(c) || ('a' <= c && c <= 'f') || ('A' <= c && c <= 'F')
}

/// Value of one hexadecimal digit.
pub open spec fn hex_val(c: char) -> u32 {
    if is_digit(c) {
        (c as u32 - '0' as u32) as u32
    } else if 'a' <= c && c <= 'f' {
        (c as u32 - 'a' as u32 + 10) as u32
    } else {
        (c as u32 - 'A' as u32 + 10) as u32
    }
}

/// What `parse_hexes` yields: the scalar encoded by four hex digits.
pub open spec fn sp_hexes(s: Seq<char>) -> Option<char> {
    if s.len() >= 4 && is_hex(s[0]) && is_hex(s[1]) && is_hex(s[2]) && is_hex(s[3]) {
        let v = ((hex_val(s[0]) * 4096 + hex_val(s[1]) * 256 + hex_val(s[2]) * 16 + hex_val(
            s[3],
        )) as u32);
        if v < 0xD800 || v >= 0xE000 {
            Some(char_of_u32(v))
        } else {
            None
        }
    } else {
        None
    }
}

fn hex_digit(c: char) -> (r: Option<u32>)
    ensures
        r is Some <==> is_hex(c),
        is_hex(c) ==> r == Some(hex_val(c)),
{
    let v = c as u32;
    if '0' <= c && c <= '9' {
        Some(v - 48)
    } else if 'a' <= c && c <= 'f' {
        Some(v - 97 + 10)
    } else if 'A' <= c && c <= 'F' {
        Some(v - 65 + 10)
    } else {
        None
    }
}

/// Parse four hexadecimal digits into one character, as written after `\\u`.
pub fn parse_hexes(input: &str) -> (r: Option<char>)
    requires
        input@.len() >= 4,
    ensures
        r == sp_hexes(input@),
{
    let c0 = input.get_char(0);
    let c1 = input.get_char(1);
    let c2 = input.get_char(2);
    let c3 = input.get_char(3);
    match (hex_digit(c0), hex_digit(c1), hex_digit(c2), hex_digit(c3)) {
        (Some(v0), Some(v1), Some(v2), Some(v3)) => {
            let v: u32 = v0 * 4096 + v1 * 256 + v2 * 16 + v3;
            if v < 0xD800 || v >= 0xE000 {
                char_from_u32(v)
            } else {
                None
            }
        },
        _ => None,
    }
}

/// What the body scanner of a quoted string yields: the text up to the
/// closing delimiter, with the recognized escapes replaced, and the rest of
/// the input after the delimiter.  An escape that is not recognized keeps
/// its backslash.  An unterminated string or a bad unicode escape yields
/// nothing.
pub open spec fn sp_string_body(s: Seq<char>, delim: char) -> Option<(Seq<char>, Seq<char>)>
    decreases s.len(),
{
    if s.len() == 0 {
        None
    } else if s[0] == delim {
        Some((Seq::empty(), s.drop_first()))
    } else if s[0] == '\\' && s.len() >= 2 {
        let c = s[1];
        if c == 'u' {
            if s.len() >= 6 {
                match sp_hexes(s.subrange(2, 6)) {
                    Some(u) => match sp_string_body(s.skip(6), delim) {
                        Some((t, r)) => Some((seq![u] + t, r)),
                        None => None,
                    },
                    None => None,
                }
            } else {
                None
            }
        } else if c == '\\' || c == '"' || c == '\'' || c == '/' || c == 'n' || c == 't' {
            let e = if c == 'n' {
                '\n'
            } else if c == 't' {
                '\t'
            } else {
                c
            };
            match sp_string_body(s.skip(2), delim) {
                Some((t, r)) => Some((seq![e] + t, r)),
                None => None,
            }
        } else {
            match sp_string_body(s.skip(2), delim) {
                Some((t, r)) => Some((seq!['\\', c] + t, r)),
                None => None,
            }
        }
    } else {
        match sp_string_body(s.drop_first(), delim) {
            Some((t, r)) => Some((seq![s[0]] + t, r)),
            None => None,
        }
    }
}

/// Scan a quoted string's body up to the closing delimiter.
fn scan_string(input: &str, delim: char) -> (r: Option<(String, &str)>)
    ensures
        match r {
            Some(p) => sp_string_body(input@, delim) == Some((p.0@, p.1@)),
            None => sp_string_body(input@, delim) is None,
        },
    decreases input@.len(),
{
    let n: usize = input.unicode_len();
    if n == 0 {
        return None;
    }
    let c0 = input.get_char(0);
    if c0 == delim {
        let rest = input.substring_char(1, n);
        proof {
            assert(input@.subrange(1, n as int) =~= input@.drop_first());
        }
        Some((String::new(), rest))
    } else if c0 == '\\' && n >= 2 {
        let c = input.get_char(1);
        if c == 'u' {
            if n >= 6 {
                let hexpart = input.substring_char(2, 6);
                match parse_hexes(hexpart) {
                    Some(u) => {
                        let tail = input.substring_char(6, n);
                        proof {
                            assert(input@.subrange(6, n as int) =~= input@.skip(6));
                        }
                        match scan_string(tail, delim) {
                            Some((t, r)) => {
                                let mut out = String::new();
                                push_char(&mut out, u);
                                out.append(t.as_str());
                                proof {
                                    assert(out@ =~= seq![u] + t@);
                                }
                                Some((out, r))
                            },
                            None => None,
                        }
                    },
                    None => None,
                }
            } else {
                None
            }
        } else if c == '\\' || c == '"' || c == '\'' || c == '/' || c == 'n' || c == 't' {
            let e = if c == 'n' {
                '\n'
            } else if c == 't' {
                '\t'
            } else {
                c
            };
            let tail = input.substring_char(2, n);
            proof {
                assert(input@.subrange(2, n as int) =~= input@.skip(2));
            }
            match scan_string(tail, delim) {
                Some((t, r)) => {
                    let mut out = String::new();
                    push_char(&mut out, e);
                    out.append(t.as_str());
                    proof {
                        assert(out@ =~= seq![e] + t@);
                    }
                    Some((out, r))
                },
                None => None,
            }
        } else {
            let tail = input.substring_char(2, n);
            proof {
                assert(input@.subrange(2, n as int) =~= input@.skip(2));
            }
            match scan_string(tail, delim) {
                Some((t, r)) => {
                    let mut out = String::new();
                    push_char(&mut out, '\\');
                    push_char(&mut out, c);
                    out.append(t.as_str());
                    proof {
                        assert(out@ =~= seq!['\\', c] + t@);
                    }
                    Some((out, r))
                },
                None => None,
            }
        }
    } else {
        let tail = input.substring_char(1, n);
        proof {
            assert(input@.subrange(1, n as int) =~= input@.drop_first());
        }
        match scan_string(tail, delim) {
            Some((t, r)) => {
                let mut out = String::new();
                push_char(&mut out, c0);
                out.append(t.as_str());
                proof {
                    assert(out@ =~= seq![input@[0]] + t@);
                }
                Some((out, r))
            },
            None => None,
        }
    }
}

/// What `parse_string` yields: a single- or double-quoted string with its
/// matching delimiter.
pub open spec fn sp_string(s: Seq<char>) -> Option<(JsonV, Seq<char>)> {
    match char_s_spec(s, '"') {
        Some(body) => match sp_string_body(body, '"') {
            Some((t, r)) => Some((JsonV::String(t), r)),
            None => None,
        },
        None => match char_s_spec(s, '\'') {
            Some(body) => match sp_string_body(body, '\'') {
                Some((t, r)) => Some((JsonV::String(t), r)),
                None => None,
            },
            None => None,
        },
    }
}

/// Parse a quoted string literal.
pub fn parse_string(input: &str) -> (r: Option<(Json, &str)>)
    ensures
        match r {
            Some(p) => sp_string(input@) == Some((p.0@, p.1@)),
            None => sp_string(input@) is None,
        },
{
    match get_char_s(input, '"') {
        Some(body) => match scan_string(body, '"') {
            Some((t, r)) => Some((Json::String(t), r)),
            None => None,
        },
        None => match get_char_s(input, '\'') {
            Some(body) => match scan_string(body, '\'') {
                Some((t, r)) => Some((Json::String(t), r)),
                None => None,
            },
            None => None,
        },
    }
}

/// The optional fraction part after the integer digits: the digits after a
/// dot, or nothing, with the rest of the input.
pub open spec fn sp_frac(s: Seq<char>) -> (Option<Seq<char>>, Seq<char>) {
    match char_s_spec(s, '.') {
        Some(after) => match number_string_spec(after) {
            Some((ds, r)) => (Some(ds), r),
            None => (None, s),
        },
        None => (None, s),
    }
}

/// The optional exponent part: marker, optional minus, digits.
pub open spec fn sp_exp(s: Seq<char>) -> (bool, Option<Seq<char>>, Seq<char>) {
    match chars_s_spec(s, seq!['e', 'E']) {
        Some((m, after)) => match char_s_spec(after, '-') {
            Some(after2) => match number_string_spec(after2) {
                Some((ds, r)) => (true, Some(ds), r),
                None => (false, None, s),
            },
            None => match number_string_spec(after) {
                Some((ds, r)) => (false, Some(ds), r),
                None => (false, None, s),
            },
        },
        None => (false, None, s),
    }
}

/// What an unsigned number literal yields: the bits of the parsed double.
pub open spec fn sp_number_body(s: Seq<char>) -> Option<(u64, Seq<char>)> {
    match number_string_spec(s) {
        None => None,
        Some((ip, rest1)) => {
            let fr = sp_frac(rest1);
            let ex = sp_exp(fr.1);
            if ip.len() < 0x8000_0000 && (match fr.0 {
                Some(ds) => ds.len() < 0x8000_0000,
                None => true,
            }) && (match ex.1 {
                Some(ds) => ds.len() < 0x8000_0000,
                None => true,
            }) {
                Some((dec_bits(ip, fr.0, ex.0, ex.1), ex.2))
            } else {
                None
            }
        },
    }
}

/// What `parse_number` yields: an optionally negated decimal literal.
pub open spec fn sp_number(s: Seq<char>) -> Option<(JsonV, Seq<char>)> {
    match char_s_spec(s, '-') {
        Some(rest) => match sp_number_body(rest) {
            Some((b, r)) => Some((JsonV::Number(neg_bits(b)), r)),
            None => None,
        },
        None => match sp_number_body(s) {
            Some((b, r)) => Some((JsonV::Number(b), r)),
            None => None,
        },
    }
}

/// Digits handed out by `get_number_string` are decimal digits.
proof fn lemma_number_string_digits(s: Seq<char>)
    ensures
        number_string_spec(s) matches Some(p) ==> all_digits(p.0) && p.0.len() > 0,
{
    match number_string_spec(s) {
        Some(p) => {
            let t = skip_spec(s);
            crate::util::lemma_digits_len(t);
            let n = crate::util::digits_len(t);
            assert forall|i: int| 0 <= i < p.0.len() implies is_digit_char(#[trigger] p.0[i]) by {
                assert(p.0[i] == t[i]);
            }
        },
        None => {},
    }
}

/// The digits of the fraction, if a dot with digits follows.
fn frac_exec<'a>(input: &'a str) -> (r: (Option<&'a str>, &'a str))
    ensures
        match r.0 {
            Some(ds) => sp_frac(input@) == (Some(ds@), r.1@) && all_digits(ds@) && ds@.len() > 0,
            None => sp_frac(input@) == (None::<Seq<char>>, r.1@) && r.1@ == input@,
        },
{
    match get_char_s(input, '.') {
        Some(after) => match get_number_string(after) {
            Some((ds, rest)) => {
                proof {
                    lemma_number_string_digits(after@);
                }
                (Some(ds), rest)
            },
            None => (None, input),
        },
        None => (None, input),
    }
}

/// The exponent: whether it is negative and its digits, if present.
fn exp_exec<'a>(input: &'a str) -> (r: (bool, Option<&'a str>, &'a str))
    ensures
        match r.1 {
            Some(ds) => sp_exp(input@) == (r.0, Some(ds@), r.2@) && all_digits(ds@) && ds@.len()
                > 0,
            None => sp_exp(input@) == (false, None::<Seq<char>>, r.2@) && !r.0 && r.2@ == input@,
        },
{
    let mut markers: Vec<char> = Vec::new();
    markers.push('e');
    markers.push('E');
    proof {
        assert(markers@ =~= seq!['e', 'E']);
    }
    match get_chars_s(input, markers) {
        Some((_, after)) => match get_char_s(after, '-') {
            Some(after2) => match get_number_string(after2) {
                Some((ds, rest)) => {
                    proof {
                        lemma_number_string_digits(after2@);
                    }
                    (true, Some(ds), rest)
                },
                None => (false, None, input),
            },
            None => match get_number_string(after) {
                Some((ds, rest)) => {
                    proof {
                        lemma_number_string_digits(after@);
                    }
                    (false, Some(ds), rest)
                },
                None => (false, None, input),
            },
        },
        None => (false, None, input),
    }
}

fn number_body_exec<'a>(input: &'a str) -> (r: Option<(u64, &'a str)>)
    ensures
        match r {
            Some(p) => sp_number_body(input@) == Some((p.0, p.1@)),
            None => sp_number_body(input@) is None,
        },
{
    match get_number_string(input) {
        None => None,
        Some((ip, rest1)) => {
            let (fp, rest2) = frac_exec(rest1);
            let (neg, ep, rest3) = exp_exec(rest2);
            let ip_ok = ip.unicode_len() < 0x8000_0000;
            let fp_ok = match fp {
                Some(ds) => ds.unicode_len() < 0x8000_0000,
                None => true,
            };
            let ep_ok = match ep {
                Some(ds) => ds.unicode_len() < 0x8000_0000,
                None => true,
            };
            if ip_ok && fp_ok && ep_ok {
                proof {
                    lemma_number_string_digits(input@);
                }
                let b = num_from_parts(ip, fp, neg, ep);
                Some((b, rest3))
            } else {
                None
            }
        },
    }
}

/// Parse a number literal: optional minus, digits, optional fraction,
/// optional exponent; the value is the correctly rounded double.
pub fn parse_number(input: &str) -> (r: Option<(Json, &str)>)
    ensures
        match r {
            Some(p) => sp_number(input@) == Some((p.0@, p.1@)),
            None => sp_number(input@) is None,
        },
{
    match get_char_s(input, '-') {
        Some(rest) => match number_body_exec(rest) {
            Some((b, r)) => Some((Json::Number(crate::num::num_neg(b)), r)),
            None => None,
        },
        None => match number_body_exec(input) {
            Some((b, r)) => Some((Json::Number(b), r)),
            None => None,
        },
    }
}

/// What the element list of an array yields, after the opening bracket:
/// values separated by commas, closed by a bracket.
pub open spec fn sp_elems(s: Seq<char>) -> Option<(Seq<JsonV>, Seq<char>)>
    decreases s.len(), 2int,
{
    match sp_json(s) {
        None => None,
        Some((v, r1)) => if r1.len() < s.len() {
            match char_s_spec(r1, ',') {
                Some(r2) => if r2.len() < s.len() {
                    match sp_elems(r2) {
                        Some((vs, r3)) => Some((seq![v] + vs, r3)),
                        None => None,
                    }
                } else {
                    None
                },
                None => match char_s_spec(r1, ']') {
                    Some(r2) => Some((seq![v], r2)),
                    None => None,
                },
            }
        } else {
            None
        },
    }
}

/// What `parse_array` yields: a bracketed, comma-separated value list.
pub open spec fn sp_array(s: Seq<char>) -> Option<(JsonV, Seq<char>)>
    decreases s.len(), 0int,
    via sp_array_dec
{
    match char_s_spec(s, '[') {
        Some(body) => match char_s_spec(body, ']') {
            Some(r) => Some((JsonV::Array(Seq::empty()), r)),
            None => match sp_elems(body) {
                Some((vs, r)) => Some((JsonV::Array(vs), r)),
                None => None,
            },
        },
        None => None,
    }
}

#[via_fn]
proof fn sp_array_dec(s: Seq<char>) {
    crate::util::lemma_skip_spec(s);
}

/// What the member list of an object yields, after the opening brace: raw
/// key/value pairs in written order.
pub open spec fn sp_members(s: Seq<char>) -> Option<(Seq<(Seq<char>, JsonV)>, Seq<char>)>
    decreases s.len(), 2int,
{
    match sp_string(s) {
        Some((JsonV::String(k), r1)) => if r1.len() <= s.len() {
            match char_s_spec(r1, ':') {
                Some(r2) => if r2.len() <= s.len() {
                    match sp_json(r2) {
                        Some((v, r3)) => if r3.len() < s.len() {
                            match char_s_spec(r3, ',') {
                                Some(r4) => if r4.len() < s.len() {
                                    match sp_members(r4) {
                                        Some((ms, r5)) => Some((seq![(k, v)] + ms, r5)),
                                        None => None,
                                    }
                                } else {
                                    None
                                },
                                None => match char_s_spec(r3, '}') {
                                    Some(r4) => Some((seq![(k, v)], r4)),
                                    None => None,
                                },
                            }
                        } else {
                            None
                        },
                        None => None,
                    }
                } else {
                    None
                },
                None => None,
            }
        } else {
            None
        },
        _ => None,
    }
}

/// An object built from raw pairs: a later pair replaces an earlier one
/// under the same key, in place.
pub open spec fn build_obj(pairs: Seq<(Seq<char>, JsonV)>) -> Seq<(Seq<char>, JsonV)>
    decreases pairs,
{
    if pairs.len() == 0 {
        Seq::empty()
    } else {
        obj_set(build_obj(pairs.drop_last()), pairs.last().0, pairs.last().1)
    }
}

/// An object built from raw pairs carries pairwise distinct keys.
pub proof fn lemma_build_obj_unique(pairs: Seq<(Seq<char>, JsonV)>)
    ensures
        obj_keys_unique(build_obj(pairs)),
    decreases pairs,
{
    if pairs.len() == 0 {
    } else {
        lemma_build_obj_unique(pairs.drop_last());
        lemma_obj_set_unique(build_obj(pairs.drop_last()), pairs.last().0, pairs.last().1);
    }
}

/// What `parse_object` yields: a braced, comma-separated member list, keys
/// kept unique.
pub open spec fn sp_object(s: Seq<char>) -> Option<(JsonV, Seq<char>)>
    decreases s.len(), 0int,
    via sp_object_dec
{
    match char_s_spec(s, '{') {
        Some(body) => match char_s_spec(body, '}') {
            Some(r) => Some((JsonV::Object(Seq::empty()), r)),
            None => match sp_members(body) {
                Some((ms, r)) => Some((JsonV::Object(build_obj(ms)), r)),
                None => None,
            },
        },
        None => None,
    }
}

#[via_fn]
proof fn sp_object_dec(s: Seq<char>) {
    crate::util::lemma_skip_spec(s);
}

/// What `parse_json` yields: the first grammar form that matches, tried in
/// a fixed order.
pub open spec fn sp_json(s: Seq<char>) -> Option<(JsonV, Seq<char>)>
    decreases s.len(), 1int,
{
    if sp_null(s) is Some {
        sp_null(s)
    } else if sp_number(s) is Some {
        sp_number(s)
    } else if sp_boolean(s) is Some {
        sp_boolean(s)
    } else if sp_string(s) is Some {
        sp_string(s)
    } else if sp_array(s) is Some {
        sp_array(s)
    } else {
        sp_object(s)
    }
}

/// Parse the element list of an array, after the opening bracket.
fn elems_exec(input: &str) -> (r: Option<(Vec<Json>, &str)>)
    ensures
        match r {
            Some(p) => sp_elems(input@) matches Some(q) && q.0 == view_arr(p.0@) && q.1 == p.1@,
            None => sp_elems(input@) is None,
        },
    decreases input@.len(), 2int,
{
    let n: usize = input.unicode_len();
    match parse_json(input) {
        None => None,
        Some((v, r1)) => {
            if r1.unicode_len() < n {
                match get_char_s(r1, ',') {
                    Some(r2) => {
                        if r2.unicode_len() < n {
                            match elems_exec(r2) {
                                Some((vs, r3)) => {
                                    let mut out: Vec<Json> = Vec::new();
                                    out.push(v);
                                    let ghost first = out@;
                                    let mut rest = vs;
                                    let ghost restv = rest@;
                                    out.append(&mut rest);
                                    proof {
                                        lemma_view_arr(first);
                                        lemma_view_arr(restv);
                                        lemma_view_arr(first + restv);
                                        assert(view_arr(first + restv) =~= seq![first[0]@]
                                            + view_arr(restv));
                                    }
                                    Some((out, r3))
                                },
                                None => None,
                            }
                        } else {
                            None
                        }
                    },
                    None => match get_char_s(r1, ']') {
                        Some(r2) => {
                            let mut out: Vec<Json> = Vec::new();
                            out.push(v);
                            proof {
                                lemma_view_arr(out@);
                                assert(view_arr(out@) =~= seq![out@[0]@]);
                            }
                            Some((out, r2))
                        },
                        None => None,
                    },
                }
            } else {
                None
            }
        },
    }
}

/// Parse an array literal.
pub fn parse_array(input: &str) -> (r: Option<(Json, &str)>)
    ensures
        match r {
            Some(p) => sp_array(input@) == Some((p.0@, p.1@)),
            None => sp_array(input@) is None,
        },
    decreases input@.len(), 0int,
{
    match get_char_s(input, '[') {
        Some(body) => match get_char_s(body, ']') {
            Some(r) => {
                let out: Vec<Json> = Vec::new();
                proof {
                    assert(view_arr(out@) =~= Seq::<JsonV>::empty());
                }
                Some((Json::Array(out), r))
            },
            None => {
                proof {
                    crate::util::lemma_skip_spec(input@);
                }
                match elems_exec(body) {
                    Some((vs, r)) => Some((Json::Array(vs), r)),
                    None => None,
                }
            },
        },
        None => None,
    }
}

/// Parse the member list of an object, after the opening brace.
fn members_exec(input: &str) -> (r: Option<(Vec<(String, Json)>, &str)>)
    ensures
        match r {
            Some(p) => sp_members(input@) matches Some(q) && q.0 == view_obj(p.0@) && q.1 == p.1@,
            None => sp_members(input@) is None,
        },
    decreases input@.len(), 2int,
{
    let n: usize = input.unicode_len();
    match parse_string(input) {
        Some((Json::String(k), r1)) => {
            if r1.unicode_len() <= n {
                match get_char_s(r1, ':') {
                    Some(r2) => {
                        if r2.unicode_len() <= n {
                            match parse_json(r2) {
                                Some((v, r3)) => {
                                    if r3.unicode_len() < n {
                                        match get_char_s(r3, ',') {
                                            Some(r4) => {
                                                if r4.unicode_len() < n {
                                                    match members_exec(r4) {
                                                        Some((ms, r5)) => {
                                                            let mut out: Vec<(String, Json)> =
                                                                Vec::new();
                                                            out.push((k, v));
                                                            let ghost first = out@;
                                                            let mut rest = ms;
                                                            let ghost restv = rest@;
                                                            out.append(&mut rest);
                                                            proof {
                                                                lemma_view_obj(first);
                                                                lemma_view_obj(restv);
                                                                lemma_view_obj(first + restv);
                                                                assert(view_obj(first + restv)
                                                                    =~= seq![
                                                                    (first[0].0@, first[0].1@),
                                                                ] + view_obj(restv));
                                                            }
                                                            Some((out, r5))
                                                        },
                                                        None => None,
                                                    }
                                                } else {
                                                    None
                                                }
                                            },
                                            None => match get_char_s(r3, '}') {
                                                Some(r4) => {
                                                    let mut out: Vec<(String, Json)> = Vec::new();
                                                    out.push((k, v));
                                                    proof {
                                                        lemma_view_obj(out@);
                                                        assert(view_obj(out@) =~= seq![
                                                            (out@[0].0@, out@[0].1@),
                                                        ]);
                                                    }
                                                    Some((out, r4))
                                                },
                                                None => None,
                                            },
                                        }
                                    } else {
                                        None
                                    }
                                },
                                None => None,
                            }
                        } else {
                            None
                        }
                    },
                    None => None,
                }
            } else {
                None
            }
        },
        Some((_, _)) => None,
        None => None,
    }
}

/// Build the object value from raw members, later pairs replacing earlier
/// ones under the same key.
fn build_obj_exec(pairs: Vec<(String, Json)>) -> (r: Vec<(String, Json)>)
    ensures
        view_obj(r@) == build_obj(view_obj(pairs@)),
        obj_keys_unique(view_obj(r@)),
{
    proof {
        lemma_build_obj_unique(view_obj(pairs@));
    }
    let ghost pv = view_obj(pairs@);
    proof {
        lemma_view_obj(pairs@);
    }
    let mut out: Vec<(String, Json)> = Vec::new();
    let mut i: usize = 0;
    proof {
        assert(view_obj(out@) =~= Seq::<(Seq<char>, JsonV)>::empty());
        assert(pv.take(0) =~= Seq::<(Seq<char>, JsonV)>::empty());
    }
    while i < pairs.len()
        invariant
            0 <= i <= pairs.len(),
            pv == view_obj(pairs@),
            pv.len() == pairs@.len(),
            forall|k: int| 0 <= k < pv.len() ==> pv[k] == (pairs@[k].0@, pairs@[k].1@),
            view_obj(out@) == build_obj(pv.take(i as int)),
        decreases pairs.len() - i,
    {
        proof {
            assert(pv.take(i as int + 1).drop_last() =~= pv.take(i as int));
            assert(pv.take(i as int + 1).last() == pv[i as int]);
        }
        let key = pairs[i].0.clone();
        let value = crate::json::clone_json(&pairs[i].1);
        crate::json::obj_put(&mut out, key, value);
        i = i + 1;
    }
    proof {
        assert(pv.take(pairs@.len() as int) =~= pv);
    }
    out
}

/// Parse an object literal.
pub fn parse_object(input: &str) -> (r: Option<(Json, &str)>)
    ensures
        match r {
            Some(p) => sp_object(input@) == Some((p.0@, p.1@)),
            None => sp_object(input@) is None,
        },
    decreases input@.len(), 0int,
{
    match get_char_s(input, '{') {
        Some(body) => match get_char_s(body, '}') {
            Some(r) => {
                let out: Vec<(String, Json)> = Vec::new();
                proof {
                    assert(view_obj(out@) =~= Seq::<(Seq<char>, JsonV)>::empty());
                }
                Some((Json::Object(out), r))
            },
            None => {
                proof {
                    crate::util::lemma_skip_spec(input@);
                }
                match members_exec(body) {
                    Some((ms, r)) => Some((Json::Object(build_obj_exec(ms)), r)),
                    None => None,
                }
            },
        },
        None => None,
    }
}

/// Parse one JSON value, trying each grammar form in a fixed order.
pub fn parse_json(input: &str) -> (r: Option<(Json, &str)>)
    ensures
        match r {
            Some(p) => sp_json(input@) == Some((p.0@, p.1@)),
            None => sp_json(input@) is None,
        },
    decreases input@.len(), 1int,
{
    if let Some(p) = parse_null(input) {
        return Some(p);
    }
    if let Some(p) = parse_number(input) {
        return Some(p);
    }
    if let Some(p) = parse_boolean(input) {
        return Some(p);
    }
    if let Some(p) = parse_string(input) {
        return Some(p);
    }
    if let Some(p) = parse_array(input) {
        return Some(p);
    }
    parse_object(input)
}

} // verus!
