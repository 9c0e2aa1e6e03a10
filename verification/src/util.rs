//! Lexical helpers shared by the JSON parser and the filter parser.
//!
//! Every helper first skips leading whitespace (space, tab, newline), then
//! consumes a specific shape of prefix from the input slice.  Each exec
//! function is specified against a spec-level mirror over `Seq<char>`.

use vstd::prelude::*;

verus! {

broadcast use vstd::seq::group_seq_axioms, vstd::std_specs::vec::group_vec_axioms,
    vstd::string::group_string_axioms;

/// Whitespace that the lexical helpers skip.
pub open spec fn is_space(c: char) -> bool {
    c == ' ' || c == '\t' || c == '\n'
}

/// ASCII decimal digit.
pub open spec fn is_digit(c: char) -> bool {
    '0' <= c && c <= '9'
}

/// The input after leading whitespace.
pub open spec fn skip_spec(s: Seq<char>) -> Seq<char>
    decreases s.len(),
{
    if s.len() == 0 {
        s
    } else if is_space(s[0]) {
        skip_spec(s.drop_first())
    } else {
        s
    }
}

/// Number of leading whitespace characters of `s`.
pub open spec fn skip_len(s: Seq<char>) -> nat
    decreases s.len(),
{
    if s.len() == 0 {
        0
    } else if is_space(s[0]) {
        1 + skip_len(s.drop_first())
    } else {
        0
    }
}

pub proof fn lemma_skip_spec(s: Seq<char>)
    ensures
        skip_len(s) <= s.len(),
        skip_spec(s) == s.skip(skip_len(s) as int),
        forall|j: int| 0 <= j < skip_len(s) ==> is_space(#[trigger] s[j]),
        skip_spec(s).len() > 0 ==> !is_space(skip_spec(s)[0]),
    decreases s.len(),
{
    if s.len() > 0 && is_space(s[0]) {
        lemma_skip_spec(s.drop_first());
        assert(s.drop_first().skip(skip_len(s.drop_first()) as int) =~= s.skip(
            skip_len(s) as int,
        ));
        assert forall|j: int| 0 <= j < skip_len(s) implies is_space(#[trigger] s[j]) by {
            if j > 0 {
                assert(s.drop_first()[j - 1] == s[j]);
            }
        }
    } else {
        assert(s.skip(0) =~= s);
    }
}

/// Skip leading whitespace and hand back the rest of the slice.
pub fn skip_stuff(input: &str) -> (r: &str)
    ensures
        r@ == skip_spec(input@),
{
    let n: usize = input.unicode_len();
    let mut i: usize = 0;
    proof {
        assert(input@.skip(0) =~= input@);
    }
    while i < n
        invariant_except_break
            0 <= i <= n,
            n == input@.len(),
            skip_spec(input@) == skip_spec(input@.skip(i as int)),
        ensures
            0 <= i <= n,
            n == input@.len(),
            skip_spec(input@) == skip_spec(input@.skip(i as int)),
            i < n ==> !is_space(input@[i as int]),
        decreases n - i,
    {
        let c = input.get_char(i);
        if !(c == ' ' || c == '\t' || c == '\n') {
            break ;
        }
        proof {
            let t = input@.skip(i as int);
            assert(t[0] == input@[i as int]);
            assert(t.drop_first() =~= input@.skip(i as int + 1));
        }
        i = i + 1;
    }
    proof {
        let t = input@.skip(i as int);
        if i < n {
            assert(t[0] == input@[i as int]);
            assert(!is_space(t[0]));
        } else {
            assert(t =~= Seq::<char>::empty());
        }
    }
    input.substring_char(i, n)
}

/// What `get_any_char_s` yields: the first character after whitespace.
pub open spec fn any_char_s_spec(s: Seq<char>) -> Option<(char, Seq<char>)> {
    let t = skip_spec(s);
    if t.len() == 0 {
        None
    } else {
        Some((t[0], t.drop_first()))
    }
}

/// Take the first character after leading whitespace.
pub fn get_any_char_s(input: &str) -> (r: Option<(char, &str)>)
    ensures
        match r {
            Some(p) => any_char_s_spec(input@) == Some((p.0, p.1@)),
            None => any_char_s_spec(input@) is None,
        },
{
    let t = skip_stuff(input);
    let n: usize = t.unicode_len();
    if n == 0 {
        None
    } else {
        let c = t.get_char(0);
        let rest = t.substring_char(1, n);
        proof {
            assert(t@.subrange(1, n as int) =~= t@.drop_first());
        }
        Some((c, rest))
    }
}

/// What `get_any_char` yields: the very first character, no skipping.
pub open spec fn any_char_spec(s: Seq<char>) -> Option<(char, Seq<char>)> {
    if s.len() == 0 {
        None
    } else {
        Some((s[0], s.drop_first()))
    }
}

/// Take the first character of the input as it stands.
pub fn get_any_char(input: &str) -> (r: Option<(char, &str)>)
    ensures
        match r {
            Some(p) => any_char_spec(input@) == Some((p.0, p.1@)),
            None => any_char_spec(input@) is None,
        },
{
    let n: usize = input.unicode_len();
    if n == 0 {
        None
    } else {
        let c = input.get_char(0);
        let rest = input.substring_char(1, n);
        proof {
            assert(input@.subrange(1, n as int) =~= input@.drop_first());
        }
        Some((c, rest))
    }
}

/// What `get_char_s` yields: the rest after one expected character.
pub open spec fn char_s_spec(s: Seq<char>, c: char) -> Option<Seq<char>> {
    let t = skip_spec(s);
    if t.len() > 0 && t[0] == c {
        Some(t.drop_first())
    } else {
        None
    }
}

/// Consume one specific character, after skipping whitespace.
pub fn get_char_s(input: &str, c: char) -> (r: Option<&str>)
    ensures
        match r {
            Some(rest) => char_s_spec(input@, c) == Some(rest@),
            None => char_s_spec(input@, c) is None,
        },
{
    let t = skip_stuff(input);
    let n: usize = t.unicode_len();
    if n == 0 {
        None
    } else if t.get_char(0) == c {
        let rest = t.substring_char(1, n);
        proof {
            assert(t@.subrange(1, n as int) =~= t@.drop_first());
        }
        Some(rest)
    } else {
        None
    }
}

/// What `get_chars_s` yields: one character drawn from a set of candidates.
pub open spec fn chars_s_spec(s: Seq<char>, cs: Seq<char>) -> Option<(char, Seq<char>)> {
    let t = skip_spec(s);
    if t.len() > 0 && cs.contains(t[0]) {
        Some((t[0], t.drop_first()))
    } else {
        None
    }
}

/// Consume one character out of a set of candidates, after skipping whitespace.
pub fn get_chars_s(input: &str, cs: Vec<char>) -> (r: Option<(char, &str)>)
    ensures
        match r {
            Some(p) => chars_s_spec(input@, cs@) == Some((p.0, p.1@)),
            None => chars_s_spec(input@, cs@) is None,
        },
{
    let t = skip_stuff(input);
    let n: usize = t.unicode_len();
    if n == 0 {
        return None;
    }
    let c = t.get_char(0);
    let mut j: usize = 0;
    let mut found: bool = false;
    while j < cs.len()
        invariant_except_break
            0 <= j <= cs.len(),
            !found,
            forall|k: int| 0 <= k < j ==> cs@[k] != c,
        ensures
            found ==> cs@.contains(c),
            !found ==> !cs@.contains(c),
        decreases cs.len() - j,
    {
        if cs[j] == c {
            found = true;
            break ;
        }
        j = j + 1;
    }
    if found {
        let rest = t.substring_char(1, n);
        proof {
            assert(t@.subrange(1, n as int) =~= t@.drop_first());
        }
        Some((c, rest))
    } else {
        None
    }
}

/// Length of the run of decimal digits at the head of `s`.
pub open spec fn digits_len(s: Seq<char>) -> nat
    decreases s.len(),
{
    if s.len() == 0 || !is_digit(s[0]) {
        0
    } else {
        1 + digits_len(s.drop_first())
    }
}

pub proof fn lemma_digits_len(s: Seq<char>)
    ensures
        digits_len(s) <= s.len(),
        forall|j: int| 0 <= j < digits_len(s) ==> is_digit(#[trigger] s[j]),
        digits_len(s) < s.len() ==> !is_digit(s[digits_len(s) as int]),
    decreases s.len(),
{
    if s.len() > 0 && is_digit(s[0]) {
        lemma_digits_len(s.drop_first());
        assert forall|j: int| 0 <= j < digits_len(s) implies is_digit(#[trigger] s[j]) by {
            if j > 0 {
                assert(s.drop_first()[j - 1] == s[j]);
            }
        }
        if digits_len(s) < s.len() {
            assert(s.drop_first()[digits_len(s.drop_first()) as int] == s[digits_len(s) as int]);
        }
    }
}

/// The digit run is exactly `i` long when the first `i` characters are digits
/// and the next one, if any, is not.
pub proof fn lemma_digits_len_exact(s: Seq<char>, i: int)
    requires
        0 <= i <= s.len(),
        forall|j: int| 0 <= j < i ==> is_digit(#[trigger] s[j]),
        i < s.len() ==> !is_digit(s[i]),
    ensures
        digits_len(s) == i,
    decreases s.len(),
{
    if i > 0 {
        assert(is_digit(s[0]));
        assert forall|j: int| 0 <= j < i - 1 implies is_digit(#[trigger] s.drop_first()[j]) by {
            assert(s.drop_first()[j] == s[j + 1]);
        }
        if i - 1 < s.drop_first().len() {
            assert(s.drop_first()[i - 1] == s[i]);
        }
        lemma_digits_len_exact(s.drop_first(), i - 1);
    }
}

/// What `get_number_string` yields: the run of digits and the rest.
pub open spec fn number_string_spec(s: Seq<char>) -> Option<(Seq<char>, Seq<char>)> {
    let t = skip_spec(s);
    let n = digits_len(t);
    if n == 0 {
        None
    } else {
        Some((t.take(n as int), t.skip(n as int)))
    }
}

/// Split an unsigned integer literal off the head of the input.
pub fn get_number_string(input: &str) -> (r: Option<(&str, &str)>)
    ensures
        match r {
            Some(p) => number_string_spec(input@) == Some((p.0@, p.1@)),
            None => number_string_spec(input@) is None,
        },
{
    let t = skip_stuff(input);
    let n: usize = t.unicode_len();
    let mut i: usize = 0;
    while i < n
        invariant_except_break
            0 <= i <= n,
            n == t@.len(),
            forall|j: int| 0 <= j < i ==> is_digit(#[trigger] t@[j]),
        ensures
            0 <= i <= n,
            n == t@.len(),
            forall|j: int| 0 <= j < i ==> is_digit(#[trigger] t@[j]),
            i < n ==> !is_digit(t@[i as int]),
        decreases n - i,
    {
        let c = t.get_char(i);
        if !('0' <= c && c <= '9') {
            break ;
        }
        i = i + 1;
    }
    proof {
        lemma_digits_len_exact(t@, i as int);
    }
    if i == 0 {
        None
    } else {
        let digits = t.substring_char(0, i);
        let rest = t.substring_char(i, n);
        Some((digits, rest))
    }
}

/// Numeric value of a string of decimal digits.
pub open spec fn dec_val(s: Seq<char>) -> nat
    decreases s.len(),
{
    if s.len() == 0 {
        0
    } else {
        (10 * dec_val(s.drop_last()) + (s.last() as nat - '0' as nat)) as nat
    }
}

pub proof fn lemma_dec_val_step(s: Seq<char>, i: int)
    requires
        0 <= i < s.len(),
    ensures
        dec_val(s.take(i + 1)) == (10 * dec_val(s.take(i)) + (s[i] as nat - '0' as nat)) as nat,
{
    assert(s.take(i + 1).drop_last() =~= s.take(i));
    assert(s.take(i + 1).last() == s[i]);
}

pub proof fn lemma_dec_val_mono(s: Seq<char>, i: int, j: int)
    requires
        0 <= i <= j <= s.len(),
        forall|k: int| 0 <= k < s.len() ==> is_digit(#[trigger] s[k]),
    ensures
        dec_val(s.take(i)) <= dec_val(s.take(j)),
    decreases j - i,
{
    if i < j {
        lemma_dec_val_mono(s, i, j - 1);
        lemma_dec_val_step(s, j - 1);
    }
}

/// What `get_number` yields: the digit run as a machine integer, when it fits.
pub open spec fn number_spec(s: Seq<char>) -> Option<(nat, Seq<char>)> {
    match number_string_spec(s) {
        None => None,
        Some((ds, rest)) => if dec_val(ds) > usize::MAX {
            None
        } else {
            Some((dec_val(ds), rest))
        },
    }
}

/// Parse an unsigned integer literal, after skipping whitespace.
pub fn get_number(input: &str) -> (r: Option<(usize, &str)>)
    ensures
        match r {
            Some(p) => number_spec(input@) == Some((p.0 as nat, p.1@)),
            None => number_spec(input@) is None,
        },
{
    match get_number_string(input) {
        None => None,
        Some((digits, rest)) => {
            let n: usize = digits.unicode_len();
            let ghost ds = digits@;
            proof {
                assert(number_string_spec(input@) == Some((digits@, rest@)));
                lemma_digits_len(skip_spec(input@));
                assert(forall|k: int| 0 <= k < ds.len() ==> is_digit(#[trigger] ds[k]));
                assert(ds.take(0) =~= Seq::<char>::empty());
            }
            let mut v: usize = 0;
            let mut i: usize = 0;
            while i < n
                invariant
                    0 <= i <= n,
                    n == ds.len(),
                    digits@ == ds,
                    number_string_spec(input@) == Some((ds, rest@)),
                    forall|k: int| 0 <= k < ds.len() ==> is_digit(#[trigger] ds[k]),
                    v == dec_val(ds.take(i as int)),
                decreases n - i,
            {
                let c = digits.get_char(i);
                proof {
                    assert(is_digit(ds[i as int]));
                }
                let d: usize = (c as u32 as usize) - 48;
                proof {
                    assert('0' as nat == 48 && '9' as nat == 57);
                    assert(d == ds[i as int] as nat - '0' as nat);
                    lemma_dec_val_step(ds, i as int);
                    assert(dec_val(ds.take(i + 1)) == 10 * (v as nat) + d);
                }
                if v > (usize::MAX - d) / 10 {
                    proof {
                        assert(10 * (v as nat) + d > usize::MAX) by (nonlinear_arith)
                            requires
                                0 <= d <= 9,
                                v > (usize::MAX - d) / 10,
                        ;
                        lemma_dec_val_mono(ds, i + 1, ds.len() as int);
                        assert(ds.take(ds.len() as int) =~= ds);
                        assert(dec_val(ds) > usize::MAX);
                        assert(number_string_spec(input@) == Some((ds, rest@)));
                        assert(number_spec(input@) is None);
                    }
                    return None;
                }
                proof {
                    assert(10 * (v as nat) + d <= usize::MAX) by (nonlinear_arith)
                        requires
                            0 <= d <= 9,
                            v <= (usize::MAX - d) / 10,
                    ;
                }
                v = v * 10 + d;
                i = i + 1;
            }
            proof {
                assert(ds.take(n as int) =~= ds);
            }
            Some((v, rest))
        },
    }
}

/// What `get_word` yields: the rest after an expected keyword.
pub open spec fn word_spec(s: Seq<char>, w: Seq<char>) -> Option<Seq<char>> {
    let t = skip_spec(s);
    if w.len() <= t.len() && t.take(w.len() as int) == w {
        Some(t.skip(w.len() as int))
    } else {
        None
    }
}

/// Consume an exact keyword, after skipping whitespace.
pub fn get_word<'a>(input: &'a str, word: &'a str) -> (r: Option<&'a str>)
    ensures
        match r {
            Some(rest) => word_spec(input@, word@) == Some(rest@),
            None => word_spec(input@, word@) is None,
        },
{
    let t = skip_stuff(input);
    let n: usize = t.unicode_len();
    let wn: usize = word.unicode_len();
    if wn > n {
        proof {
            assert(word_spec(input@, word@) is None);
        }
        return None;
    }
    let mut i: usize = 0;
    while i < wn
        invariant_except_break
            0 <= i <= wn <= n,
            n == t@.len(),
            wn == word@.len(),
            forall|j: int| 0 <= j < i ==> t@[j] == word@[j],
        ensures
            0 <= i <= wn <= n,
            n == t@.len(),
            wn == word@.len(),
            i == wn ==> t@.take(wn as int) =~= word@,
            i < wn ==> t@[i as int] != word@[i as int],
        decreases wn - i,
    {
        if t.get_char(i) != word.get_char(i) {
            break ;
        }
        i = i + 1;
    }
    if i == wn {
        let rest = t.substring_char(wn, n);
        Some(rest)
    } else {
        proof {
            assert(t@.take(wn as int)[i as int] == t@[i as int]);
        }
        None
    }
}

} // verus!
