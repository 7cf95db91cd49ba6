use crate::ast::{AST, AstView, Container, KeyView, ast_view, asts_view, entries_view, key_view};
use crate::ast::{key_of_ast_view, lemma_asts_view_index, lemma_entries_view_index};
use crate::ast::{HashMap, HashMapKey, Keyword, List, Number, Str, Symbol, Vector};
use crate::error::Error;
use crate::text::{chars_string, str_chars};
use vstd::prelude::*;

verus! {

// ---------------------------------------------------------------------------
// Character classes
// ---------------------------------------------------------------------------
/// Whitespace, written out as the exact code points of the Unicode
/// `White_Space` property, the set that `char::is_whitespace` tests.
pub open spec fn spec_is_whitespace(c: char) -> bool {
    let u = c as u32;
    u == 0x09 || u == 0x0a || u == 0x0b || u == 0x0c || u == 0x0d || u == 0x20 || u == 0x85 || u
        == 0xa0 || u == 0x1680 || (0x2000 <= u && u <= 0x200a) || u == 0x2028 || u == 0x2029 || u
        == 0x202f || u == 0x205f || u == 0x3000
}

/// A separator: whitespace or a comma, both skipped between tokens.
pub open spec fn spec_is_separator(c: char) -> bool {
    c == ',' || spec_is_whitespace(c)
}

/// The characters that always stand alone as one-character tokens.
pub open spec fn spec_is_special(c: char) -> bool {
    c == '[' || c == ']' || c == '{' || c == '}' || c == '(' || c == ')' || c == '\'' || c == '`'
        || c == '~' || c == '^' || c == '@'
}

/// The characters that end a misc token: separators, the comment and
/// string openers, the bracket pairs, quote and quasiquote.
pub open spec fn spec_is_misc_delimiter(c: char) -> bool {
    spec_is_separator(c) || c == ';' || c == '"' || c == '[' || c == ']' || c == '{' || c == '}'
        || c == '(' || c == ')' || c == '\'' || c == '`'
}

fn is_whitespace(c: char) -> (r: bool)
    ensures
        r == spec_is_whitespace(c),
{
    let u = c as u32;
    u == 0x09 || u == 0x0a || u == 0x0b || u == 0x0c || u == 0x0d || u == 0x20 || u == 0x85 || u
        == 0xa0 || u == 0x1680 || (0x2000 <= u && u <= 0x200a) || u == 0x2028 || u == 0x2029 || u
        == 0x202f || u == 0x205f || u == 0x3000
}

fn is_separator(c: char) -> (r: bool)
    ensures
        r == spec_is_separator(c),
{
    c == ',' || is_whitespace(c)
}

fn is_special(c: char) -> (r: bool)
    ensures
        r == spec_is_special(c),
{
    c == '[' || c == ']' || c == '{' || c == '}' || c == '(' || c == ')' || c == '\'' || c == '`'
        || c == '~' || c == '^' || c == '@'
}

fn is_misc_delimiter(c: char) -> (r: bool)
    ensures
        r == spec_is_misc_delimiter(c),
{
    is_separator(c) || c == ';' || c == '"' || c == '[' || c == ']' || c == '{' || c == '}' || c
        == '(' || c == ')' || c == '\'' || c == '`'
}

// ---------------------------------------------------------------------------
// Tokenizer
// ---------------------------------------------------------------------------
/// Where a string token that opened at `i - 1` ends: the scan consumes
/// characters up to and including the first unescaped closing quote, a
/// backslash always taking the character after it along; if the input
/// runs out first the token runs to the end of the input.
pub open spec fn string_token_end(s: Seq<char>, i: int) -> int
    decreases s.len() - i,
{
    if i >= s.len() {
        s.len() as int
    } else if s[i] == '"' {
        i + 1
    } else if s[i] == '\\' {
        if i + 2 <= s.len() {
            string_token_end(s, i + 2)
        } else {
            s.len() as int
        }
    } else {
        string_token_end(s, i + 1)
    }
}

/// Where a misc token whose first character stands at `i - 1` ends: the
/// first delimiter at or after `i`, or the end of the input.
pub open spec fn misc_token_end(s: Seq<char>, i: int) -> int
    decreases s.len() - i,
{
    if i >= s.len() {
        s.len() as int
    } else if spec_is_misc_delimiter(s[i]) {
        i
    } else {
        misc_token_end(s, i + 1)
    }
}

pub proof fn lemma_string_token_end_bounds(s: Seq<char>, i: int)
    requires
        i <= s.len(),
    ensures
        i <= string_token_end(s, i) <= s.len(),
    decreases s.len() - i,
{
    if i < s.len() && s[i] != '"' {
        if s[i] == '\\' {
            if i + 2 <= s.len() {
                lemma_string_token_end_bounds(s, i + 2);
            }
        } else {
            lemma_string_token_end_bounds(s, i + 1);
        }
    }
}

pub proof fn lemma_misc_token_end_bounds(s: Seq<char>, i: int)
    requires
        i <= s.len(),
    ensures
        i <= misc_token_end(s, i) <= s.len(),
    decreases s.len() - i,
{
    if i < s.len() && !spec_is_misc_delimiter(s[i]) {
        lemma_misc_token_end_bounds(s, i + 1);
    }
}

/// The ordered token texts of the input from position `i` on. Separators
/// are skipped, `~@` is one token when adjacent, the special characters
/// stand alone, a quote opens a string token, a semicolon discards the
/// rest of the input, and anything else extends a misc token up to the
/// next delimiter.
pub open spec fn spec_tokenize_from(s: Seq<char>, i: int) -> Seq<Seq<char>>
    decreases s.len() - i,
    via spec_tokenize_from_decreases
{
    if i < 0 || i >= s.len() {
        Seq::empty()
    } else {
        let c = s[i];
        if spec_is_separator(c) {
            spec_tokenize_from(s, i + 1)
        } else if c == '~' && i + 1 < s.len() && s[i + 1] == '@' {
            seq![s.subrange(i, i + 2)] + spec_tokenize_from(s, i + 2)
        } else if spec_is_special(c) {
            seq![s.subrange(i, i + 1)] + spec_tokenize_from(s, i + 1)
        } else if c == '"' {
            seq![s.subrange(i, string_token_end(s, i + 1))] + spec_tokenize_from(
                s,
                string_token_end(s, i + 1),
            )
        } else if c == ';' {
            Seq::empty()
        } else {
            seq![s.subrange(i, misc_token_end(s, i + 1))] + spec_tokenize_from(
                s,
                misc_token_end(s, i + 1),
            )
        }
    }
}

#[via_fn]
proof fn spec_tokenize_from_decreases(s: Seq<char>, i: int) {
    if 0 <= i < s.len() {
        lemma_string_token_end_bounds(s, i + 1);
        lemma_misc_token_end_bounds(s, i + 1);
    }
}

/// The token texts of the whole input, in source order.
pub open spec fn spec_tokenize(s: Seq<char>) -> Seq<Seq<char>> {
    spec_tokenize_from(s, 0)
}

/// Scans a string token: `start` is the position of the opening quote and
/// the returned end is one past the closing quote, or the end of the
/// input when the quote never closes.
pub fn tokenize_string(chars: &Vec<char>, start: usize) -> (end: usize)
    requires
        start < chars@.len(),
    ensures
        end == string_token_end(chars@, start + 1),
        start < end <= chars@.len(),
{
    proof {
        lemma_string_token_end_bounds(chars@, start + 1);
    }
    let n = chars.len();
    let mut i: usize = start + 1;
    loop
        invariant
            start + 1 <= i <= n,
            n == chars@.len(),
            string_token_end(chars@, start + 1) == string_token_end(chars@, i as int),
        decreases n - i,
    {
        if i >= n {
            return n;
        }
        let c = chars[i];
        if c == '"' {
            return i + 1;
        }
        if c == '\\' {
            if n - i >= 2 {
                i = i + 2;
            } else {
                return n;
            }
        } else {
            i = i + 1;
        }
        proof {
            lemma_string_token_end_bounds(chars@, i as int);
        }
    }
}

/// Scans a misc token: `start` is the position of its first character and
/// the returned end is the first delimiter after it, or the end of the
/// input.
pub fn tokenize_misc(chars: &Vec<char>, start: usize) -> (end: usize)
    requires
        start < chars@.len(),
    ensures
        end == misc_token_end(chars@, start + 1),
        start < end <= chars@.len(),
{
    proof {
        lemma_misc_token_end_bounds(chars@, start + 1);
    }
    let n = chars.len();
    let mut i: usize = start + 1;
    loop
        invariant
            start + 1 <= i <= n,
            n == chars@.len(),
            misc_token_end(chars@, start + 1) == misc_token_end(chars@, i as int),
        decreases n - i,
    {
        if i >= n {
            return n;
        }
        if is_misc_delimiter(chars[i]) {
            return i;
        }
        i = i + 1;
        proof {
            lemma_misc_token_end_bounds(chars@, i as int);
        }
    }
}

/// Splits the input into its ordered token texts. Tokenizing never
/// fails; an input with no tokens simply yields an empty sequence.
pub fn tokenize(string: &str) -> (r: Vec<String>)
    ensures
        r.deep_view() == spec_tokenize(string@),
{
    let chars = str_chars(string);
    let mut tokens: Vec<String> = Vec::new();
    let n = chars.len();
    let mut i: usize = 0;
    loop
        invariant
            i <= n,
            n == chars@.len(),
            chars@ == string@,
            spec_tokenize(string@) == tokens.deep_view() + spec_tokenize_from(chars@, i as int),
        decreases n - i,
    {
        if i >= n {
            proof {
                assert(tokens.deep_view() + spec_tokenize_from(chars@, i as int)
                    =~= tokens.deep_view());
            }
            return tokens;
        }
        let ghost prev = tokens.deep_view();
        let c = chars[i];
        if is_separator(c) {
            i = i + 1;
        } else if c == '~' && i + 1 < n && chars[i + 1] == '@' {
            tokens.push(chars_string(&chars, i, i + 2));
            proof {
                assert(tokens.deep_view() =~~= prev + seq![chars@.subrange(i as int, i + 2)]);
            }
            i = i + 2;
        } else if is_special(c) {
            tokens.push(chars_string(&chars, i, i + 1));
            proof {
                assert(tokens.deep_view() =~~= prev + seq![chars@.subrange(i as int, i + 1)]);
            }
            i = i + 1;
        } else if c == '"' {
            let end = tokenize_string(&chars, i);
            tokens.push(chars_string(&chars, i, end));
            proof {
                assert(tokens.deep_view() =~~= prev + seq![
                    chars@.subrange(i as int, end as int),
                ]);
            }
            i = end;
        } else if c == ';' {
            proof {
                assert(tokens.deep_view() + spec_tokenize_from(chars@, i as int)
                    =~= tokens.deep_view());
            }
            return tokens;
        } else {
            let end = tokenize_misc(&chars, i);
            tokens.push(chars_string(&chars, i, end));
            proof {
                assert(tokens.deep_view() =~~= prev + seq![
                    chars@.subrange(i as int, end as int),
                ]);
            }
            i = end;
        }
    }
}

// ---------------------------------------------------------------------------
// The floating-point literal grammar
// ---------------------------------------------------------------------------
pub open spec fn is_digit(c: char) -> bool {
    0x30 <= c as u32 && c as u32 <= 0x39
}

pub open spec fn is_sign(c: char) -> bool {
    c == '+' || c == '-'
}

pub open spec fn all_digits(t: Seq<char>) -> bool {
    forall|i: int| 0 <= i < t.len() ==> is_digit(#[trigger] t[i])
}

/// The given text with one leading sign removed, if it has one.
pub open spec fn strip_sign(t: Seq<char>) -> Seq<char> {
    if t.len() > 0 && is_sign(t[0]) {
        t.drop_first()
    } else {
        t
    }
}

/// Whether `c` is the letter `l` (given lower-case) in either case.
pub open spec fn eq_ci(c: char, l: char) -> bool {
    c == l || c as u32 + 0x20 == l as u32
}

/// Case-insensitive match of `t` against the lower-case word `pat`.
pub open spec fn matches_ci(t: Seq<char>, pat: Seq<char>) -> bool {
    t.len() == pat.len() && forall|i: int| 0 <= i < t.len() ==> eq_ci(#[trigger] t[i], pat[i])
}

/// The first position at or after `i` holding an exponent marker.
pub open spec fn exp_start_from(t: Seq<char>, i: int) -> int
    decreases t.len() - i,
{
    if i >= t.len() {
        t.len() as int
    } else if t[i] == 'e' || t[i] == 'E' {
        i
    } else {
        exp_start_from(t, i + 1)
    }
}

/// The first position at or after `i` holding a decimal point.
pub open spec fn dot_from(t: Seq<char>, i: int) -> int
    decreases t.len() - i,
{
    if i >= t.len() {
        t.len() as int
    } else if t[i] == '.' {
        i
    } else {
        dot_from(t, i + 1)
    }
}

/// `Digit+ | Digit+ '.' Digit* | Digit* '.' Digit+`: digits with at most
/// one point among them, and at least one digit.
pub open spec fn is_mantissa(m: Seq<char>) -> bool {
    let d = dot_from(m, 0);
    if d == m.len() {
        m.len() > 0 && all_digits(m)
    } else {
        all_digits(m.subrange(0, d)) && all_digits(m.subrange(d + 1, m.len() as int)) && m.len()
            >= 2
    }
}

/// An exponent marker followed by an optionally signed nonempty digit run.
pub open spec fn is_exponent(x: Seq<char>) -> bool {
    x.len() >= 1 && (x[0] == 'e' || x[0] == 'E') && {
        let r = strip_sign(x.drop_first());
        r.len() > 0 && all_digits(r)
    }
}

/// The standard floating-point literal grammar, as the standard library
/// documents it for parsing a 64-bit float:
/// `Sign? ( 'inf' | 'infinity' | 'nan' | Number )` with the keywords
/// case-insensitive, `Number ::= Count Exp?`, `Count` a digit run with at
/// most one decimal point and at least one digit, and
/// `Exp ::= ('e'|'E') Sign? Digit+`.
pub open spec fn is_float_literal(t: Seq<char>) -> bool {
    let body = strip_sign(t);
    matches_ci(body, seq!['i', 'n', 'f']) || matches_ci(
        body,
        seq!['i', 'n', 'f', 'i', 'n', 'i', 't', 'y'],
    ) || matches_ci(body, seq!['n', 'a', 'n']) || {
        let e = exp_start_from(body, 0);
        is_mantissa(body.subrange(0, e)) && (e == body.len() || is_exponent(
            body.subrange(e, body.len() as int),
        ))
    }
}

fn ci_at(t: &Vec<char>, i: usize, l: char) -> (r: bool)
    requires
        i < t@.len(),
    ensures
        r == eq_ci(t@[i as int], l),
{
    let c = t[i];
    let cu = c as u32;
    let lu = l as u32;
    c == l || (lu >= 0x20 && cu == lu - 0x20)
}

/// Case-insensitive comparison of `t` from `from` on against a word.
fn match_ci_word(t: &Vec<char>, from: usize, pat: &Vec<char>) -> (r: bool)
    requires
        from <= t@.len(),
    ensures
        r == matches_ci(t@.subrange(from as int, t@.len() as int), pat@),
{
    let ghost body = t@.subrange(from as int, t@.len() as int);
    let n = t.len();
    let m = pat.len();
    if n - from != m {
        return false;
    }
    let mut i: usize = 0;
    while i < m
        invariant
            i <= m,
            m == pat@.len(),
            n == t@.len(),
            from + m == n,
            body == t@.subrange(from as int, t@.len() as int),
            forall|j: int| 0 <= j < i ==> eq_ci(#[trigger] body[j], pat@[j]),
        decreases m - i,
    {
        let ok = ci_at(t, from + i, pat[i]);
        proof {
            assert(body[i as int] == t@[from + i]);
        }
        if !ok {
            proof {
                assert(!eq_ci(body[i as int], pat@[i as int]));
            }
            return false;
        }
        i = i + 1;
    }
    true
}

/// Whether `t` from `from` on matches `inf`, `infinity` or `nan`.
fn check_float_keyword(t: &Vec<char>, from: usize) -> (r: bool)
    requires
        from <= t@.len(),
    ensures
        r == (matches_ci(t@.subrange(from as int, t@.len() as int), seq!['i', 'n', 'f'])
            || matches_ci(
            t@.subrange(from as int, t@.len() as int),
            seq!['i', 'n', 'f', 'i', 'n', 'i', 't', 'y'],
        ) || matches_ci(t@.subrange(from as int, t@.len() as int), seq!['n', 'a', 'n'])),
{
    let inf: Vec<char> = vec!['i', 'n', 'f'];
    let infinity: Vec<char> = vec!['i', 'n', 'f', 'i', 'n', 'i', 't', 'y'];
    let nan: Vec<char> = vec!['n', 'a', 'n'];
    proof {
        assert(inf@ =~= seq!['i', 'n', 'f']);
        assert(infinity@ =~= seq!['i', 'n', 'f', 'i', 'n', 'i', 't', 'y']);
        assert(nan@ =~= seq!['n', 'a', 'n']);
    }
    match_ci_word(t, from, &inf) || match_ci_word(t, from, &infinity) || match_ci_word(
        t,
        from,
        &nan,
    )
}

fn is_digit_char(c: char) -> (r: bool)
    ensures
        r == is_digit(c),
{
    let u = c as u32;
    0x30 <= u && u <= 0x39
}

/// Whether `t` holds digits only on the range `[from, to)`.
fn check_digits(t: &Vec<char>, from: usize, to: usize) -> (r: bool)
    requires
        from <= to <= t@.len(),
    ensures
        r == all_digits(t@.subrange(from as int, to as int)),
{
    let ghost part = t@.subrange(from as int, to as int);
    let mut i: usize = from;
    while i < to
        invariant
            from <= i <= to <= t@.len(),
            part == t@.subrange(from as int, to as int),
            forall|j: int| 0 <= j < i - from ==> is_digit(#[trigger] part[j]),
        decreases to - i,
    {
        if !is_digit_char(t[i]) {
            proof {
                assert(part[i - from] == t@[i as int]);
            }
            return false;
        }
        proof {
            assert(part[i - from] == t@[i as int]);
        }
        i = i + 1;
    }
    true
}

/// The first exponent marker at or after `from`.
fn find_exp(t: &Vec<char>, from: usize) -> (r: usize)
    requires
        from <= t@.len(),
    ensures
        r == exp_start_from(t@, from as int),
        from <= r <= t@.len(),
        r < t@.len() ==> (t@[r as int] == 'e' || t@[r as int] == 'E'),
{
    let n = t.len();
    let mut i: usize = from;
    while i < n
        invariant
            from <= i <= n,
            n == t@.len(),
            exp_start_from(t@, from as int) == exp_start_from(t@, i as int),
        decreases n - i,
    {
        let c = t[i];
        if c == 'e' || c == 'E' {
            return i;
        }
        i = i + 1;
    }
    n
}

/// The first decimal point at or after `from`.
fn find_dot(t: &Vec<char>, from: usize) -> (r: usize)
    requires
        from <= t@.len(),
    ensures
        r == dot_from(t@, from as int),
        from <= r <= t@.len(),
{
    let n = t.len();
    let mut i: usize = from;
    while i < n
        invariant
            from <= i <= n,
            n == t@.len(),
            dot_from(t@, from as int) == dot_from(t@, i as int),
        decreases n - i,
    {
        if t[i] == '.' {
            return i;
        }
        i = i + 1;
    }
    n
}

pub proof fn lemma_dot_from_bounds(t: Seq<char>, i: int)
    requires
        i <= t.len(),
    ensures
        i <= dot_from(t, i) <= t.len(),
        dot_from(t, i) < t.len() ==> t[dot_from(t, i)] == '.',
        forall|j: int| i <= j < dot_from(t, i) ==> (#[trigger] t[j]) != '.',
    decreases t.len() - i,
{
    if i < t.len() && t[i] != '.' {
        lemma_dot_from_bounds(t, i + 1);
    }
}

pub proof fn lemma_exp_start_bounds(t: Seq<char>, i: int)
    requires
        i <= t.len(),
    ensures
        i <= exp_start_from(t, i) <= t.len(),
        exp_start_from(t, i) < t.len() ==> (t[exp_start_from(t, i)] == 'e' || t[exp_start_from(
            t,
            i,
        )] == 'E'),
        forall|j: int|
            i <= j < exp_start_from(t, i) ==> ((#[trigger] t[j]) != 'e' && t[j] != 'E'),
    decreases t.len() - i,
{
    if i < t.len() && t[i] != 'e' && t[i] != 'E' {
        lemma_exp_start_bounds(t, i + 1);
    }
}

/// `dot_from` restricted to a subrange, re-based.
proof fn lemma_dot_from_subrange(t: Seq<char>, a: int, b: int, i: int)
    requires
        0 <= a <= b <= t.len(),
        a <= i + a <= b,
    ensures
        dot_from(t.subrange(a, b), i) == if dot_from(t, i + a) <= b {
            dot_from(t, i + a) - a
        } else {
            b - a
        },
    decreases b - (i + a),
{
    let part = t.subrange(a, b);
    lemma_dot_from_bounds(t, i + a);
    if i + a < b {
        assert(part[i] == t[i + a]);
        if t[i + a] != '.' {
            lemma_dot_from_subrange(t, a, b, i + 1);
        }
    }
}

/// Whether the whole token is a floating-point literal.
#[verifier::rlimit(50)]
fn check_float(t: &Vec<char>) -> (r: bool)
    ensures
        r == is_float_literal(t@),
{
    let n = t.len();
    let start: usize = if n > 0 && (t[0] == '+' || t[0] == '-') {
        1
    } else {
        0
    };
    let ghost body = strip_sign(t@);
    proof {
        assert(body =~= t@.subrange(start as int, n as int));
    }
    if check_float_keyword(t, start) {
        return true;
    }
    // Number ::= Count Exp?
    let e = find_exp(t, start);
    let ghost eb = exp_start_from(body, 0);
    proof {
        lemma_exp_start_subrange(t@, start as int, n as int, 0);
        assert(eb == e - start);
        assert(body.subrange(0, eb) =~= t@.subrange(start as int, e as int));
    }
    // the mantissa
    let d = find_dot(t, start);
    let ghost mant = body.subrange(0, eb);
    let mantissa_ok: bool = if d >= e {
        proof {
            lemma_dot_from_subrange(t@, start as int, e as int, 0);
        }
        e > start && check_digits(t, start, e)
    } else {
        proof {
            lemma_dot_from_subrange(t@, start as int, e as int, 0);
            assert(mant.subrange(0, d - start) =~= t@.subrange(start as int, d as int));
            assert(mant.subrange(d - start + 1, mant.len() as int) =~= t@.subrange(
                d + 1,
                e as int,
            ));
        }
        check_digits(t, start, d) && check_digits(t, d + 1, e) && e - start >= 2
    };
    if !mantissa_ok {
        return false;
    }
    if e == n {
        return true;
    }
    // Exp ::= ('e'|'E') Sign? Digit+
    let ghost expt = body.subrange(eb, body.len() as int);
    let es: usize = if e + 1 < n && (t[e + 1] == '+' || t[e + 1] == '-') {
        e + 2
    } else {
        e + 1
    };
    proof {
        assert(expt.len() == n - e);
        assert(forall|i: int| 0 <= i < expt.len() ==> expt[i] == t@[e + i]);
        assert(expt[0] == t@[e as int]);
        assert(strip_sign(expt.drop_first()) =~= t@.subrange(es as int, n as int));
    }
    es < n && check_digits(t, es, n)
}

/// `exp_start_from` restricted to a subrange, re-based.
proof fn lemma_exp_start_subrange(t: Seq<char>, a: int, b: int, i: int)
    requires
        0 <= a <= b <= t.len(),
        a <= i + a <= b,
    ensures
        exp_start_from(t.subrange(a, b), i) == if exp_start_from(t, i + a) <= b {
            exp_start_from(t, i + a) - a
        } else {
            b - a
        },
    decreases b - (i + a),
{
    let part = t.subrange(a, b);
    lemma_exp_start_bounds(t, i + a);
    if i + a < b {
        assert(part[i] == t[i + a]);
        if t[i + a] != 'e' && t[i + a] != 'E' {
            lemma_exp_start_subrange(t, a, b, i + 1);
        }
    }
}

// ---------------------------------------------------------------------------
// String decoding
// ---------------------------------------------------------------------------
/// The decoded text of a string token from position `i` on: a backslash
/// escapes the following character (`n` and `t` standing for newline and
/// tab, anything else passing through verbatim), an unescaped quote ends
/// the scan, and a scan that runs out of characters first fails.
pub open spec fn spec_unescape_from(t: Seq<char>, i: int) -> Result<Seq<char>, Error>
    decreases t.len() - i,
{
    if i >= t.len() {
        Err(Error::UnbalancedString)
    } else if t[i] == '"' {
        Ok(Seq::empty())
    } else if t[i] == '\\' {
        if i + 1 >= t.len() {
            Err(Error::UnbalancedString)
        } else {
            let c = t[i + 1];
            let d = if c == 'n' {
                '\n'
            } else if c == 't' {
                '\t'
            } else {
                c
            };
            match spec_unescape_from(t, i + 2) {
                Ok(rest) => Ok(seq![d] + rest),
                Err(e) => Err(e),
            }
        }
    } else {
        match spec_unescape_from(t, i + 1) {
            Ok(rest) => Ok(seq![t[i]] + rest),
            Err(e) => Err(e),
        }
    }
}

/// The decoded text of a whole string token (its leading quote skipped).
pub open spec fn spec_read_string(t: Seq<char>) -> Result<Seq<char>, Error> {
    spec_unescape_from(t, 1)
}

pub open spec fn prepend_result(p: Seq<char>, r: Result<Seq<char>, Error>) -> Result<
    Seq<char>,
    Error,
> {
    match r {
        Ok(x) => Ok(p + x),
        Err(e) => Err(e),
    }
}

/// Decodes a string token into a string node.
fn read_string(token: &Vec<char>) -> (r: Result<AST, Error>)
    requires
        token@.len() >= 1,
    ensures
        match spec_read_string(token@) {
            Ok(s) => r matches Ok(a) && a@ == AstView::String(s),
            Err(e) => r == Err::<AST, Error>(e),
        },
{
    let mut out = std::string::String::new();
    let n = token.len();
    let mut i: usize = 1;
    loop
        invariant
            1 <= i <= n,
            n == token@.len(),
            spec_read_string(token@) == prepend_result(out@, spec_unescape_from(token@, i as int)),
        decreases n - i,
    {
        if i >= n {
            return Err(Error::UnbalancedString);
        }
        let c = token[i];
        if c == '"' {
            proof {
                assert(out@ + Seq::<char>::empty() =~= out@);
            }
            return Ok(AST::String(Str(out)));
        }
        let ghost before = out@;
        if c == '\\' {
            if i + 1 >= n {
                return Err(Error::UnbalancedString);
            }
            let e = token[i + 1];
            let d = if e == 'n' {
                '\n'
            } else if e == 't' {
                '\t'
            } else {
                e
            };
            out.push(d);
            i = i + 2;
            proof {
                if let Ok(x) = spec_unescape_from(token@, i as int) {
                    assert(before + (seq![d] + x) =~= out@ + x);
                }
            }
        } else {
            out.push(c);
            i = i + 1;
            proof {
                if let Ok(x) = spec_unescape_from(token@, i as int) {
                    assert(before + (seq![c] + x) =~= out@ + x);
                }
            }
        }
    }
}

// ---------------------------------------------------------------------------
// Parser
// ---------------------------------------------------------------------------
pub open spec fn is_one_char_token(t: Seq<char>, c: char) -> bool {
    t.len() == 1 && t[0] == c
}

pub open spec fn is_splice_token(t: Seq<char>) -> bool {
    t.len() == 2 && t[0] == '~' && t[1] == '@'
}

/// The closing delimiter of each container kind.
pub open spec fn closer_char(kind: Container) -> char {
    match kind {
        Container::List => ')',
        Container::Vector => ']',
        Container::HashMap => '}',
    }
}

/// The canonical list form a reader macro expands to.
pub open spec fn macro_wrap(name: Seq<char>, sub: AstView) -> AstView {
    AstView::List(seq![AstView::Symbol(name), sub])
}

/// The node a single token denotes: a number when the token matches the
/// float literal grammar, a string when it opens with a quote, a keyword
/// when it opens with a colon, and a symbol otherwise.
pub open spec fn spec_read_atom(t: Seq<char>) -> Result<AstView, Error> {
    if is_float_literal(t) {
        Ok(AstView::Number(t))
    } else if t.len() > 0 && t[0] == '"' {
        match spec_read_string(t) {
            Ok(s) => Ok(AstView::String(s)),
            Err(e) => Err(e),
        }
    } else if t.len() > 0 && t[0] == ':' {
        Ok(AstView::Keyword(t.subrange(1, t.len() as int)))
    } else {
        Ok(AstView::Symbol(t))
    }
}

/// Inserts an entry into an association sequence: the first entry with
/// the same key has its value overwritten in place, and a missing key is
/// appended at the end.
pub open spec fn spec_map_insert(
    entries: Seq<(KeyView, AstView)>,
    k: KeyView,
    v: AstView,
) -> Seq<(KeyView, AstView)>
    decreases entries.len(),
{
    if entries.len() == 0 {
        seq![(k, v)]
    } else if entries[0].0 == k {
        seq![(k, v)] + entries.drop_first()
    } else {
        seq![entries[0]] + spec_map_insert(entries.drop_first(), k, v)
    }
}

/// Pairs a flat form sequence up into map entries, two at a time, in
/// order: a trailing key without a value fails, as does a key that is
/// neither a keyword nor a string.
pub open spec fn spec_build_map(values: Seq<AstView>, acc: Seq<(KeyView, AstView)>) -> Result<
    Seq<(KeyView, AstView)>,
    Error,
>
    decreases values.len(),
{
    if values.len() == 0 {
        Ok(acc)
    } else if values.len() == 1 {
        Err(Error::MissingHashMapValue)
    } else {
        match key_of_ast_view(values[0]) {
            Some(k) => spec_build_map(
                values.subrange(2, values.len() as int),
                spec_map_insert(acc, k, values[1]),
            ),
            None => Err(Error::UnsupportedHashMapKeyType),
        }
    }
}

/// One form read at token position `i`, with the position after it:
/// openers delegate to their container, the reader-macro prefixes wrap
/// the following form (or, for `^`, the following two forms with their
/// order swapped) in a canonical list, and any other token is an atom.
pub open spec fn spec_read_form(tokens: Seq<Seq<char>>, i: int) -> Result<(AstView, int), Error>
    decreases tokens.len() - i, 1int,
{
    if i < 0 || i >= tokens.len() {
        Err(Error::MissingAtom)
    } else {
        let t = tokens[i];
        if is_one_char_token(t, '(') {
            spec_read_container(tokens, i + 1, Container::List)
        } else if is_one_char_token(t, '[') {
            spec_read_container(tokens, i + 1, Container::Vector)
        } else if is_one_char_token(t, '{') {
            spec_read_container(tokens, i + 1, Container::HashMap)
        } else if is_one_char_token(t, '\'') {
            spec_read_macro(tokens, i, "quote"@)
        } else if is_one_char_token(t, '`') {
            spec_read_macro(tokens, i, "quasiquote"@)
        } else if is_one_char_token(t, '~') {
            spec_read_macro(tokens, i, "unquote"@)
        } else if is_splice_token(t) {
            spec_read_macro(tokens, i, "splice-unquote"@)
        } else if is_one_char_token(t, '@') {
            spec_read_macro(tokens, i, "deref"@)
        } else if is_one_char_token(t, '^') {
            match spec_read_form(tokens, i + 1) {
                Ok((meta, j)) => if i + 1 < j <= tokens.len() {
                    match spec_read_form(tokens, j) {
                        Ok((target, k)) => Ok(
                            (
                                AstView::List(
                                    seq![AstView::Symbol("with-meta"@), target, meta],
                                ),
                                k,
                            ),
                        ),
                        Err(e) => Err(e),
                    }
                } else {
                    Err(Error::MissingAtom)
                },
                Err(e) => Err(e),
            }
        } else {
            match spec_read_atom(t) {
                Ok(v) => Ok((v, i + 1)),
                Err(e) => Err(e),
            }
        }
    }
}

/// A reader-macro prefix at `i`: the following form wrapped under the
/// named symbol.
pub open spec fn spec_read_macro(tokens: Seq<Seq<char>>, i: int, name: Seq<char>) -> Result<
    (AstView, int),
    Error,
>
    decreases tokens.len() - i, 0int,
{
    if i < 0 || i + 1 > tokens.len() {
        Err(Error::MissingAtom)
    } else {
        match spec_read_form(tokens, i + 1) {
            Ok((sub, j)) => Ok((macro_wrap(name, sub), j)),
            Err(e) => Err(e),
        }
    }
}

/// The forms between `i` and the closing delimiter, which is consumed;
/// an exhausted token stream fails instead.
pub open spec fn spec_read_elems(tokens: Seq<Seq<char>>, i: int, closer: char) -> Result<
    (Seq<AstView>, int),
    Error,
>
    decreases tokens.len() - i, 2int,
{
    if i < 0 || i >= tokens.len() {
        Err(Error::UnbalancedCollection)
    } else if is_one_char_token(tokens[i], closer) {
        Ok((Seq::empty(), i + 1))
    } else {
        match spec_read_form(tokens, i) {
            Ok((v, j)) => if i < j <= tokens.len() {
                match spec_read_elems(tokens, j, closer) {
                    Ok((rest, k)) => Ok((seq![v] + rest, k)),
                    Err(e) => Err(e),
                }
            } else {
                Err(Error::MissingAtom)
            },
            Err(e) => Err(e),
        }
    }
}

/// A whole container read from the token after its opener: its forms,
/// then the node its kind builds from them.
pub open spec fn spec_read_container(tokens: Seq<Seq<char>>, i: int, kind: Container) -> Result<
    (AstView, int),
    Error,
>
    decreases tokens.len() - i, 3int,
{
    match spec_read_elems(tokens, i, closer_char(kind)) {
        Ok((elems, j)) => match kind {
            Container::List => Ok((AstView::List(elems), j)),
            Container::Vector => Ok((AstView::Vector(elems), j)),
            Container::HashMap => match spec_build_map(elems, Seq::empty()) {
                Ok(entries) => Ok((AstView::HashMap(entries), j)),
                Err(e) => Err(e),
            },
        },
        Err(e) => Err(e),
    }
}

/// One top-level form read from the input text: an input with no tokens
/// at all is rejected as empty, and tokens after the first form are
/// ignored.
pub open spec fn spec_read(s: Seq<char>) -> Result<AstView, Error> {
    let tokens = spec_tokenize(s);
    if tokens.len() == 0 {
        Err(Error::EmptyInput)
    } else {
        match spec_read_form(tokens, 0) {
            Ok((v, j)) => Ok(v),
            Err(e) => Err(e),
        }
    }
}

// ---------------------------------------------------------------------------
// Sequence-view lemmas
// ---------------------------------------------------------------------------
proof fn lemma_asts_view_push(s: Seq<AST>, x: AST)
    ensures
        asts_view(s.push(x)) == asts_view(s).push(ast_view(x)),
{
    lemma_asts_view_index(s.push(x));
    lemma_asts_view_index(s);
    assert(asts_view(s.push(x)) =~= asts_view(s).push(ast_view(x)));
}

proof fn lemma_asts_view_subrange(s: Seq<AST>, a: int, b: int)
    requires
        0 <= a <= b <= s.len(),
    ensures
        asts_view(s.subrange(a, b)) == asts_view(s).subrange(a, b),
{
    lemma_asts_view_index(s.subrange(a, b));
    lemma_asts_view_index(s);
    assert(asts_view(s.subrange(a, b)) =~= asts_view(s).subrange(a, b));
}

proof fn lemma_map_insert_found(s: Seq<(KeyView, AstView)>, k: KeyView, v: AstView, i: int)
    requires
        0 <= i < s.len(),
        s[i].0 == k,
        forall|j: int| 0 <= j < i ==> (#[trigger] s[j]).0 != k,
    ensures
        spec_map_insert(s, k, v) == s.update(i, (k, v)),
    decreases i,
{
    if i == 0 {
        assert(spec_map_insert(s, k, v) =~= s.update(0, (k, v)));
    } else {
        lemma_map_insert_found(s.drop_first(), k, v, i - 1);
        assert(seq![s[0]] + s.drop_first().update(i - 1, (k, v)) =~= s.update(i, (k, v)));
    }
}

pub proof fn lemma_map_insert_missing(s: Seq<(KeyView, AstView)>, k: KeyView, v: AstView)
    requires
        forall|j: int| 0 <= j < s.len() ==> (#[trigger] s[j]).0 != k,
    ensures
        spec_map_insert(s, k, v) == s + seq![(k, v)],
    decreases s.len(),
{
    if s.len() == 0 {
        assert(spec_map_insert(s, k, v) =~= s + seq![(k, v)]);
    } else {
        lemma_map_insert_missing(s.drop_first(), k, v);
        assert(seq![s[0]] + (s.drop_first() + seq![(k, v)]) =~= s + seq![(k, v)]);
    }
}

// ---------------------------------------------------------------------------
// Executable parser
// ---------------------------------------------------------------------------
fn key_eq(a: &HashMapKey, b: &HashMapKey) -> (r: bool)
    ensures
        r == (key_view(*a) == key_view(*b)),
{
    match (a, b) {
        (HashMapKey::Keyword(x), HashMapKey::Keyword(y)) => x.0.eq(&y.0),
        (HashMapKey::String(x), HashMapKey::String(y)) => x.0.eq(&y.0),
        _ => false,
    }
}

/// Inserts an entry into the association vector backing a hash-map node,
/// overwriting the value of the first entry whose key matches.
#[verifier::loop_isolation(false)]
fn map_insert(entries: &mut Vec<(HashMapKey, AST)>, key: HashMapKey, value: AST)
    ensures
        entries_view(final (entries)@) == spec_map_insert(
            entries_view(old(entries)@),
            key_view(key),
            ast_view(value),
        ),
{
    let ghost orig = entries@;
    let n = entries.len();
    let mut i: usize = 0;
    while i < n
        invariant
            i <= n,
            n == entries@.len(),
            entries@ == orig,
            forall|j: int| 0 <= j < i ==> key_view((#[trigger] orig[j]).0) != key_view(key),
        decreases n - i,
    {
        if key_eq(&entries[i].0, &key) {
            entries.remove(i);
            entries.insert(i, (key, value));
            proof {
                assert forall|j: int| 0 <= j < entries@.len() implies entries@[j] == orig.update(
                    i as int,
                    (key, value),
                )[j] by {
                    assert(entries@ == orig.remove(i as int).insert(i as int, (key, value)));
                }
                assert(entries@ =~= orig.update(i as int, (key, value)));
                lemma_entries_view_index(orig);
                lemma_entries_view_index(entries@);
                assert forall|j: int| 0 <= j < i implies (#[trigger] entries_view(orig)[j]).0
                    != key_view(key) by {
                    assert(entries_view(orig)[j] == (key_view(orig[j].0), ast_view(orig[j].1)));
                }
                lemma_map_insert_found(
                    entries_view(orig),
                    key_view(key),
                    ast_view(value),
                    i as int,
                );
                assert(entries_view(entries@) =~= entries_view(orig).update(
                    i as int,
                    (key_view(key), ast_view(value)),
                ));
            }
            return ;
        }
        i = i + 1;
    }
    entries.push((key, value));
    proof {
        lemma_entries_view_index(orig);
        lemma_entries_view_index(entries@);
        assert forall|j: int| 0 <= j < entries_view(orig).len() implies (#[trigger] entries_view(
            orig,
        )[j]).0 != key_view(key) by {
            assert(entries_view(orig)[j] == (key_view(orig[j].0), ast_view(orig[j].1)));
        }
        lemma_map_insert_missing(entries_view(orig), key_view(key), ast_view(value));
        assert(entries_view(entries@) =~= entries_view(orig) + seq![
            (key_view(key), ast_view(value)),
        ]);
    }
}

/// Pairs the flat forms of a `{ … }` body into map entries.
#[verifier::loop_isolation(false)]
fn build_map(values: Vec<AST>) -> (r: Result<Vec<(HashMapKey, AST)>, Error>)
    ensures
        match spec_build_map(asts_view(values@), Seq::empty()) {
            Ok(entries) => r matches Ok(v) && entries_view(v@) == entries,
            Err(e) => r == Err::<Vec<(HashMapKey, AST)>, Error>(e),
        },
{
    let ghost full = asts_view(values@);
    let mut values = values;
    let mut acc: Vec<(HashMapKey, AST)> = Vec::new();
    proof {
        assert(entries_view(acc@) =~= Seq::<(KeyView, AstView)>::empty());
    }
    loop
        invariant
            spec_build_map(full, Seq::empty()) == spec_build_map(
                asts_view(values@),
                entries_view(acc@),
            ),
        decreases values@.len(),
    {
        proof {
            lemma_asts_view_index(values@);
        }
        if values.len() == 0 {
            return Ok(acc);
        }
        if values.len() == 1 {
            return Err(Error::MissingHashMapValue);
        }
        let ghost vv = values@;
        let key_ast = values.remove(0);
        let val = values.remove(0);
        proof {
            assert(values@ =~= vv.subrange(2, vv.len() as int));
            lemma_asts_view_index(vv);
            lemma_asts_view_subrange(vv, 2, vv.len() as int);
        }
        match HashMapKey::of_ast(key_ast) {
            Ok(k) => {
                map_insert(&mut acc, k, val);
            },
            Err(e) => {
                return Err(e);
            },
        }
    }
}

/// Builds the canonical two-element list a reader macro expands to.
fn macro_list(name: &str, sub: AST) -> (r: AST)
    ensures
        r@ == macro_wrap(name@, sub@),
{
    let mut v: Vec<AST> = Vec::new();
    v.push(AST::Symbol(Symbol(name.to_owned())));
    v.push(sub);
    proof {
        let s = v@;
        lemma_asts_view_index(s);
        assert(asts_view(s) =~= seq![ast_view(s[0]), ast_view(s[1])]);
    }
    AST::List(List(v))
}

/// Builds the `with-meta` form: target first, metadata second.
fn with_meta_list(target: AST, meta: AST) -> (r: AST)
    ensures
        r@ == AstView::List(seq![AstView::Symbol("with-meta"@), target@, meta@]),
{
    let mut v: Vec<AST> = Vec::new();
    v.push(AST::Symbol(Symbol("with-meta".to_owned())));
    v.push(target);
    v.push(meta);
    proof {
        let s = v@;
        lemma_asts_view_index(s);
        assert(asts_view(s) =~= seq![ast_view(s[0]), ast_view(s[1]), ast_view(s[2])]);
    }
    AST::List(List(v))
}

/// Consumes one token as an atom; with no token left, the read fails.
fn read_atom(tokens: &Vec<String>, pos: usize) -> (r: (Result<AST, Error>, usize))
    requires
        pos <= tokens@.len(),
    ensures
        pos <= r.1 <= tokens@.len(),
        r.0 is Ok ==> pos < r.1,
        ({
            let dv = tokens.deep_view();
            if pos < dv.len() {
                match spec_read_atom(dv[pos as int]) {
                    Ok(v) => r.0 matches Ok(a) && a@ == v && r.1 == pos + 1,
                    Err(e) => r.0 == Err::<AST, Error>(e),
                }
            } else {
                r.0 == Err::<AST, Error>(Error::MissingAtom)
            }
        }),
{
    if pos >= tokens.len() {
        return (Err(Error::MissingAtom), pos);
    }
    let token = &tokens[pos];
    let tc = str_chars(token.as_str());
    proof {
        assert(tokens.deep_view()[pos as int] == tc@);
    }
    if check_float(&tc) {
        return (Ok(AST::Number(Number(token.clone()))), pos + 1);
    }
    if tc.len() > 0 && tc[0] == '"' {
        match read_string(&tc) {
            Ok(a) => {
                return (Ok(a), pos + 1);
            },
            Err(e) => {
                return (Err(e), pos);
            },
        }
    }
    if tc.len() > 0 && tc[0] == ':' {
        let text = chars_string(&tc, 1, tc.len());
        return (Ok(AST::Keyword(Keyword(text))), pos + 1);
    }
    (Ok(AST::Symbol(Symbol(token.clone()))), pos + 1)
}

/// A reader-macro prefix at `pos`: reads the following form and wraps it
/// under the named symbol.
fn read_macro(tokens: &Vec<String>, pos: usize, name: &str) -> (r: (Result<AST, Error>, usize))
    requires
        pos < tokens@.len(),
    ensures
        pos <= r.1 <= tokens@.len(),
        r.0 is Ok ==> pos < r.1,
        match spec_read_macro(tokens.deep_view(), pos as int, name@) {
            Ok(p) => r.0 matches Ok(a) && a@ == p.0 && r.1 == p.1,
            Err(e) => r.0 == Err::<AST, Error>(e),
        },
    decreases tokens@.len() - pos, 0int,
{
    let _n: usize = tokens.len();
    let (res, npos) = read_form(tokens, pos + 1);
    match res {
        Ok(sub) => (Ok(macro_list(name, sub)), npos),
        Err(e) => (Err(e), npos),
    }
}

/// Reads one form, dispatching on the next token without consuming it.
fn read_form(tokens: &Vec<String>, pos: usize) -> (r: (Result<AST, Error>, usize))
    requires
        pos <= tokens@.len(),
    ensures
        pos <= r.1 <= tokens@.len(),
        r.0 is Ok ==> pos < r.1,
        match spec_read_form(tokens.deep_view(), pos as int) {
            Ok(p) => r.0 matches Ok(a) && a@ == p.0 && r.1 == p.1,
            Err(e) => r.0 == Err::<AST, Error>(e),
        },
    decreases tokens@.len() - pos, 1int,
{
    if pos >= tokens.len() {
        return (Err(Error::MissingAtom), pos);
    }
    let token = &tokens[pos];
    let tc = str_chars(token.as_str());
    proof {
        assert(tokens.deep_view()[pos as int] == tc@);
    }
    let n1 = tc.len() == 1;
    if n1 && tc[0] == '(' {
        read_container(tokens, pos + 1, Container::List)
    } else if n1 && tc[0] == '[' {
        read_container(tokens, pos + 1, Container::Vector)
    } else if n1 && tc[0] == '{' {
        read_container(tokens, pos + 1, Container::HashMap)
    } else if n1 && tc[0] == '\'' {
        read_macro(tokens, pos, "quote")
    } else if n1 && tc[0] == '`' {
        read_macro(tokens, pos, "quasiquote")
    } else if n1 && tc[0] == '~' {
        read_macro(tokens, pos, "unquote")
    } else if tc.len() == 2 && tc[0] == '~' && tc[1] == '@' {
        read_macro(tokens, pos, "splice-unquote")
    } else if n1 && tc[0] == '@' {
        read_macro(tokens, pos, "deref")
    } else if n1 && tc[0] == '^' {
        let (r1, p1) = read_form(tokens, pos + 1);
        match r1 {
            Ok(meta) => {
                let (r2, p2) = read_form(tokens, p1);
                match r2 {
                    Ok(target) => (Ok(with_meta_list(target, meta)), p2),
                    Err(e) => (Err(e), p2),
                }
            },
            Err(e) => (Err(e), p1),
        }
    } else {
        read_atom(tokens, pos)
    }
}

/// Reads the forms of one container body and builds its node: a list or
/// vector keeps them in order, a hash-map pairs them up.
fn read_container(tokens: &Vec<String>, pos: usize, container_type: Container) -> (r: (
    Result<AST, Error>,
    usize,
))
    requires
        pos <= tokens@.len(),
    ensures
        pos <= r.1 <= tokens@.len(),
        match spec_read_container(tokens.deep_view(), pos as int, container_type) {
            Ok(p) => r.0 matches Ok(a) && a@ == p.0 && r.1 == p.1,
            Err(e) => r.0 == Err::<AST, Error>(e),
        },
    decreases tokens@.len() - pos, 3int,
{
    let ghost dv = tokens.deep_view();
    let closer: char = match container_type {
        Container::List => ')',
        Container::Vector => ']',
        Container::HashMap => '}',
    };
    let mut values: Vec<AST> = Vec::new();
    let mut cur: usize = pos;
    proof {
        assert(asts_view(values@) =~= Seq::<AstView>::empty());
    }
    loop
        invariant
            pos <= cur <= tokens@.len(),
            dv == tokens.deep_view(),
            closer == closer_char(container_type),
            spec_read_elems(dv, pos as int, closer) == (match spec_read_elems(
                dv,
                cur as int,
                closer,
            ) {
                Ok(p) => Ok::<(Seq<AstView>, int), Error>((asts_view(values@) + p.0, p.1)),
                Err(e) => Err::<(Seq<AstView>, int), Error>(e),
            }),
        decreases tokens@.len() - cur,
    {
        if cur >= tokens.len() {
            return (Err(Error::UnbalancedCollection), cur);
        }
        let token = &tokens[cur];
        proof {
            assert(dv[cur as int] == token@);
        }
        if token.as_str().unicode_len() == 1 && token.as_str().get_char(0) == closer {
            let j = cur + 1;
            proof {
                assert(asts_view(values@) + Seq::<AstView>::empty() =~= asts_view(values@));
            }
            match container_type {
                Container::List => {
                    return (Ok(AST::List(List(values))), j);
                },
                Container::Vector => {
                    return (Ok(AST::Vector(Vector(values))), j);
                },
                Container::HashMap => {
                    match build_map(values) {
                        Ok(entries) => {
                            return (Ok(AST::HashMap(HashMap(entries))), j);
                        },
                        Err(e) => {
                            return (Err(e), j);
                        },
                    }
                },
            }
        }
        let (res, npos) = read_form(tokens, cur);
        match res {
            Ok(a) => {
                let ghost old_values = values@;
                values.push(a);
                proof {
                    lemma_asts_view_push(old_values, a);
                    if let Ok(p) = spec_read_elems(dv, npos as int, closer) {
                        assert(asts_view(old_values) + (seq![ast_view(a)] + p.0) =~= asts_view(
                            values@,
                        ) + p.0);
                    }
                }
                cur = npos;
            },
            Err(e) => {
                return (Err(e), npos);
            },
        }
    }
}

/// Reads one top-level form from the input text. An input with no
/// tokens at all (blank, or nothing but a comment) is rejected as
/// `EmptyInput`; tokens after the first form are silently ignored.
pub fn read(string: &str) -> (r: Result<AST, Error>)
    ensures
        match spec_read(string@) {
            Ok(v) => r matches Ok(a) && a@ == v,
            Err(e) => r == Err::<AST, Error>(e),
        },
{
    let tokens = tokenize(string);
    if tokens.len() == 0 {
        return Err(Error::EmptyInput);
    }
    let (res, _pos) = read_form(&tokens, 0);
    res
}

} // verus!
