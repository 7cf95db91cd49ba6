use crate::ast::{AstView, Container, KeyView, key_of_ast_view, key_to_ast_view};
use crate::error::Error;
use crate::printer::{escape_char, lemma_print_key_as_ast, spec_escape, spec_print,
    spec_print_entries, spec_print_key, spec_print_seq};
use crate::reader::{dot_from, eq_ci, exp_start_from, is_digit, is_float_literal,
    is_one_char_token, is_sign, is_splice_token, lemma_dot_from_bounds, lemma_exp_start_bounds,
    lemma_map_insert_missing, matches_ci, misc_token_end, spec_build_map, spec_is_misc_delimiter,
    spec_is_separator, spec_is_special, spec_read, spec_read_atom,
    spec_read_container, spec_read_elems, spec_read_form, spec_read_string, spec_tokenize,
    spec_tokenize_from, spec_unescape_from, string_token_end, strip_sign};
use vstd::prelude::*;

verus! {

// ---------------------------------------------------------------------------
// Separators only separate
// ---------------------------------------------------------------------------
/// Tokenizing from a position and from the end of any run of separators
/// after it yields the same token sequence: separators never contribute
/// to a token and never change what follows.
pub proof fn lemma_tokenize_skips_separators(s: Seq<char>, i: int, k: int)
    requires
        0 <= i <= k <= s.len(),
        forall|j: int| i <= j < k ==> spec_is_separator(#[trigger] s[j]),
    ensures
        spec_tokenize_from(s, i) == spec_tokenize_from(s, k),
    decreases k - i,
{
    if i < k {
        lemma_tokenize_skips_separators(s, i + 1, k);
    }
}

// ---------------------------------------------------------------------------
// String escaping round-trips
// ---------------------------------------------------------------------------
proof fn lemma_unescape_escape(t: Seq<char>, i: int, s: Seq<char>)
    requires
        0 <= i <= t.len(),
        t.subrange(i, t.len() as int) == spec_escape(s) + seq!['"'],
    ensures
        spec_unescape_from(t, i) == Ok::<Seq<char>, Error>(s),
    decreases s.len(),
{
    let rest = t.subrange(i, t.len() as int);
    assert(rest.len() == t.len() - i);
    assert forall|j: int| 0 <= j < rest.len() implies rest[j] == t[i + j] by {
        assert(t.subrange(i, t.len() as int)[j] == t[i + j]);
    }
    if s.len() == 0 {
        assert(s =~= Seq::<char>::empty());
        assert(spec_escape(s) =~= Seq::<char>::empty());
        assert(rest[0] == '"');
        assert(t[i] == '"');
    } else {
        let c = s[0];
        let tail = s.drop_first();
        assert(spec_escape(s) == escape_char(c) + spec_escape(tail));
        if c == '"' || c == '\\' || c == '\n' || c == '\t' {
            assert(escape_char(c).len() == 2);
            assert(escape_char(c)[0] == '\\');
            assert(spec_escape(s)[0] == escape_char(c)[0]);
            assert(spec_escape(s)[1] == escape_char(c)[1]);
            assert(rest[0] == spec_escape(s)[0]);
            assert(rest[1] == spec_escape(s)[1]);
            assert(rest.len() == t.len() - i);
            assert(rest.len() >= 3);
            assert(t.subrange(i, t.len() as int)[0] == t[i]);
            assert(t.subrange(i, t.len() as int)[1] == t[i + 1]);
            assert(rest[0] == t[i + 0]);
            assert(rest[1] == t[i + 1]);
            assert(t[i] == '\\');
            assert(t[i + 1] == escape_char(c)[1]);
            assert(t.subrange(i + 2, t.len() as int) =~= spec_escape(tail) + seq!['"']) by {
                assert forall|j: int| 0 <= j < t.len() - i - 2 implies t.subrange(
                    i + 2,
                    t.len() as int,
                )[j] == (spec_escape(tail) + seq!['"'])[j] by {
                    assert(t.subrange(i + 2, t.len() as int)[j] == t[i + 2 + j]);
                    assert(rest[j + 2] == t[i + 2 + j]);
                    assert(rest[j + 2] == (spec_escape(s) + seq!['"'])[j + 2]);
                }
            }
            lemma_unescape_escape(t, i + 2, tail);
            assert(seq![c] + tail =~= s);
        } else {
            assert(escape_char(c) =~= seq![c]);
            assert(rest[0] == spec_escape(s)[0]);
            assert(spec_escape(s)[0] == c);
            assert(t.subrange(i, t.len() as int)[0] == t[i]);
            assert(t[i] == c);
            assert(t.subrange(i + 1, t.len() as int) =~= spec_escape(tail) + seq!['"']) by {
                assert forall|j: int| 0 <= j < t.len() - i - 1 implies t.subrange(
                    i + 1,
                    t.len() as int,
                )[j] == (spec_escape(tail) + seq!['"'])[j] by {
                    assert(t.subrange(i + 1, t.len() as int)[j] == t[i + 1 + j]);
                    assert(rest[j + 1] == t[i + 1 + j]);
                    assert(rest[j + 1] == (spec_escape(s) + seq!['"'])[j + 1]);
                }
            }
            lemma_unescape_escape(t, i + 1, tail);
            assert(seq![c] + tail =~= s);
        }
    }
}

/// String escaping round-trips: decoding a string token built by
/// escaping any text and closing the quote gives that text back,
/// for every text.
pub proof fn lemma_string_escape_round_trip(s: Seq<char>)
    ensures
        spec_read_string(seq!['"'] + spec_escape(s) + seq!['"']) == Ok::<Seq<char>, Error>(s),
{
    let t = seq!['"'] + spec_escape(s) + seq!['"'];
    assert(t.subrange(1, t.len() as int) =~= spec_escape(s) + seq!['"']);
    lemma_unescape_escape(t, 1, s);
}

// ---------------------------------------------------------------------------
// Printing is a fixed point under one round trip through the reader
// ---------------------------------------------------------------------------
/// The node the reader gives back for a printed node: identical in
/// shape, except that `nil`, `true` and `false` read back as the plain
/// symbols they print as.
pub open spec fn read_back(v: AstView) -> AstView
    decreases v,
{
    match v {
        AstView::Nil => AstView::Symbol("nil"@),
        AstView::Boolean(b) => AstView::Symbol(
            if b {
                "true"@
            } else {
                "false"@
            },
        ),
        AstView::Number(t) => AstView::Number(t),
        AstView::Symbol(t) => AstView::Symbol(t),
        AstView::Keyword(t) => AstView::Keyword(t),
        AstView::String(t) => AstView::String(t),
        AstView::List(elems) => AstView::List(read_back_seq(elems)),
        AstView::Vector(elems) => AstView::Vector(read_back_seq(elems)),
        AstView::HashMap(entries) => AstView::HashMap(read_back_entries(entries)),
    }
}

pub open spec fn read_back_seq(s: Seq<AstView>) -> Seq<AstView>
    decreases s,
{
    if s.len() == 0 {
        Seq::empty()
    } else {
        seq![read_back(s[0])] + read_back_seq(s.drop_first())
    }
}

pub open spec fn read_back_entries(s: Seq<(KeyView, AstView)>) -> Seq<(KeyView, AstView)>
    decreases s,
{
    if s.len() == 0 {
        Seq::empty()
    } else {
        seq![(s[0].0, read_back(s[0].1))] + read_back_entries(s.drop_first())
    }
}

/// A character that can stand inside an atom's text without ending its
/// token.
pub open spec fn plain_char(c: char) -> bool {
    !spec_is_misc_delimiter(c)
}

pub open spec fn plain_text(t: Seq<char>) -> bool {
    forall|i: int| 0 <= i < t.len() ==> plain_char(#[trigger] t[i])
}

/// Symbol text that the printer renders as exactly one symbol token:
/// nonempty, free of separators and delimiters, not opening another
/// token kind, and not itself a number.
pub open spec fn wf_symbol_text(t: Seq<char>) -> bool {
    t.len() > 0 && plain_text(t) && t[0] != '~' && t[0] != '^' && t[0] != '@' && t[0] != ':'
        && t[0] != '"' && !is_float_literal(t)
}

/// Number text as the reader produces it: a float literal (whose
/// characters are then necessarily plain and do not open another token
/// kind).
pub open spec fn wf_number_text(t: Seq<char>) -> bool {
    is_float_literal(t) && plain_text(t) && t[0] != '~' && t[0] != '^' && t[0] != '@' && t[0]
        != ':' && t[0] != '"'
}

pub open spec fn wf_key(k: KeyView) -> bool {
    match k {
        KeyView::Keyword(t) => plain_text(t),
        KeyView::String(_) => true,
    }
}

/// The values whose canonical text reads back losslessly: atom texts
/// well formed, and map keys distinct.
pub open spec fn wf_value(v: AstView) -> bool
    decreases v,
{
    match v {
        AstView::Nil => true,
        AstView::Boolean(_) => true,
        AstView::Number(t) => wf_number_text(t),
        AstView::Symbol(t) => wf_symbol_text(t),
        AstView::Keyword(t) => plain_text(t),
        AstView::String(_) => true,
        AstView::List(elems) => wf_seq(elems),
        AstView::Vector(elems) => wf_seq(elems),
        AstView::HashMap(entries) => wf_entries(entries),
    }
}

pub open spec fn wf_seq(s: Seq<AstView>) -> bool
    decreases s,
{
    if s.len() == 0 {
        true
    } else {
        wf_value(s[0]) && wf_seq(s.drop_first())
    }
}

pub open spec fn wf_entries(s: Seq<(KeyView, AstView)>) -> bool
    decreases s,
{
    if s.len() == 0 {
        true
    } else {
        wf_key(s[0].0) && wf_value(s[0].1) && (forall|j: int|
            1 <= j < s.len() ==> (#[trigger] s[j]).0 != s[0].0) && wf_entries(s.drop_first())
    }
}

/// The token texts that printing a node produces, in order.
pub open spec fn print_tokens(v: AstView) -> Seq<Seq<char>>
    decreases v,
{
    match v {
        AstView::List(elems) => seq![seq!['(']] + print_tokens_seq(elems) + seq![seq![')']],
        AstView::Vector(elems) => seq![seq!['[']] + print_tokens_seq(elems) + seq![seq![']']],
        AstView::HashMap(entries) => seq![seq!['{']] + print_tokens_entries(entries) + seq![
            seq!['}'],
        ],
        _ => seq![spec_print(v)],
    }
}

pub open spec fn print_tokens_seq(elems: Seq<AstView>) -> Seq<Seq<char>>
    decreases elems,
{
    if elems.len() == 0 {
        Seq::empty()
    } else {
        print_tokens(elems[0]) + print_tokens_seq(elems.drop_first())
    }
}

pub open spec fn print_tokens_entries(entries: Seq<(KeyView, AstView)>) -> Seq<Seq<char>>
    decreases entries,
{
    if entries.len() == 0 {
        Seq::empty()
    } else {
        seq![spec_print_key(entries[0].0)] + print_tokens(entries[0].1) + print_tokens_entries(
            entries.drop_first(),
        )
    }
}

// ---------------------------------------------------------------------------
// Text-position utilities
// ---------------------------------------------------------------------------
/// The text `w` stands at position `i` of `s`.
pub open spec fn seq_at(s: Seq<char>, i: int, w: Seq<char>) -> bool {
    0 <= i && i + w.len() <= s.len() && s.subrange(i, i + w.len() as int) == w
}

proof fn lemma_seq_at_index(s: Seq<char>, i: int, w: Seq<char>)
    requires
        seq_at(s, i, w),
    ensures
        forall|j: int| 0 <= j < w.len() ==> (#[trigger] w[j]) == s[i + j],
{
    assert forall|j: int| 0 <= j < w.len() implies (#[trigger] w[j]) == s[i + j] by {
        assert(s.subrange(i, i + w.len() as int)[j] == s[i + j]);
    }
}

proof fn lemma_seq_at_one(s: Seq<char>, i: int, c: char)
    requires
        seq_at(s, i, seq![c]),
    ensures
        s[i] == c,
{
    lemma_seq_at_index(s, i, seq![c]);
    assert(seq![c][0] == s[i + 0]);
}

proof fn lemma_seq_at_split(s: Seq<char>, i: int, a: Seq<char>, b: Seq<char>)
    requires
        seq_at(s, i, a + b),
    ensures
        seq_at(s, i, a),
        seq_at(s, i + a.len(), b),
{
    lemma_seq_at_index(s, i, a + b);
    assert(s.subrange(i, i + a.len() as int) =~= a) by {
        assert forall|j: int| 0 <= j < a.len() implies s.subrange(i, i + a.len() as int)[j]
            == a[j] by {
            assert(s.subrange(i, i + a.len() as int)[j] == s[i + j]);
            assert((a + b)[j] == s[i + j]);
        }
    }
    assert(s.subrange(i + a.len(), i + a.len() + b.len() as int) =~= b) by {
        assert forall|j: int|
            0 <= j < b.len() implies s.subrange(i + a.len(), i + a.len() + b.len() as int)[j]
            == b[j] by {
            assert(s.subrange(i + a.len(), i + a.len() + b.len() as int)[j] == s[i + a.len() + j]);
            assert((a + b)[a.len() + j] == s[i + a.len() + j]);
        }
    }
}

// ---------------------------------------------------------------------------
// Tokenizing printed text
// ---------------------------------------------------------------------------
/// What may follow a printed form: the end of the input, a separator,
/// or a closing delimiter.
pub open spec fn at_boundary(s: Seq<char>, j: int) -> bool {
    j == s.len() || spec_is_separator(s[j]) || s[j] == ')' || s[j] == ']' || s[j] == '}'
}

proof fn lemma_misc_end_at(s: Seq<char>, a: int, b: int)
    requires
        0 <= a <= b <= s.len(),
        forall|j: int| a <= j < b ==> !spec_is_misc_delimiter(#[trigger] s[j]),
        b == s.len() || spec_is_misc_delimiter(s[b]),
    ensures
        misc_token_end(s, a) == b,
    decreases b - a,
{
    if a < b {
        lemma_misc_end_at(s, a + 1, b);
    }
}

proof fn lemma_string_end_escape(s: Seq<char>, i: int, txt: Seq<char>)
    requires
        seq_at(s, i, spec_escape(txt) + seq!['"']),
    ensures
        string_token_end(s, i) == i + spec_escape(txt).len() + 1,
    decreases txt.len(),
{
    let w = spec_escape(txt) + seq!['"'];
    lemma_seq_at_index(s, i, w);
    if txt.len() == 0 {
        assert(spec_escape(txt) =~= Seq::<char>::empty());
        assert(w[0] == '"');
        assert(s[i] == '"');
    } else {
        let c = txt[0];
        let tail = txt.drop_first();
        assert(spec_escape(txt) == escape_char(c) + spec_escape(tail));
        if c == '"' || c == '\\' || c == '\n' || c == '\t' {
            assert(escape_char(c).len() == 2);
            assert(w[0] == escape_char(c)[0]);
            assert(w[0] == '\\');
            assert(s[i] == '\\');
            assert(w =~= seq!['\\', escape_char(c)[1]] + (spec_escape(tail) + seq!['"']));
            lemma_seq_at_split(s, i, seq!['\\', escape_char(c)[1]], spec_escape(tail) + seq!['"']);
            lemma_string_end_escape(s, i + 2, tail);
        } else {
            assert(escape_char(c) =~= seq![c]);
            assert(w[0] == c);
            assert(s[i] == c);
            assert(c != '"' && c != '\\');
            assert(w =~= seq![c] + (spec_escape(tail) + seq!['"']));
            lemma_seq_at_split(s, i, seq![c], spec_escape(tail) + seq!['"']);
            lemma_string_end_escape(s, i + 1, tail);
        }
    }
}

/// A plain word at `i` followed by a boundary tokenizes as exactly one
/// misc token.
proof fn lemma_tokenize_misc_word(s: Seq<char>, i: int, w: Seq<char>)
    requires
        w.len() > 0,
        plain_text(w),
        w[0] != '~' && w[0] != '^' && w[0] != '@',
        seq_at(s, i, w),
        at_boundary(s, i + w.len()),
    ensures
        spec_tokenize_from(s, i) == seq![w] + spec_tokenize_from(s, i + w.len()),
{
    lemma_seq_at_index(s, i, w);
    let c = s[i];
    assert(c == w[0]);
    assert(!spec_is_misc_delimiter(c));
    assert(!spec_is_separator(c));
    assert(!spec_is_special(c));
    assert(c != '"' && c != ';');
    assert forall|j: int| i + 1 <= j < i + w.len() implies !spec_is_misc_delimiter(
        #[trigger] s[j],
    ) by {
        assert(w[j - i] == s[j]);
        assert(plain_char(w[j - i]));
    }
    assert(i + w.len() == s.len() || spec_is_misc_delimiter(s[i + w.len()]));
    lemma_misc_end_at(s, i + 1, i + w.len() as int);
    assert(misc_token_end(s, i + 1) == i + w.len());
    assert(s.subrange(i, i + w.len() as int) == w);
}

/// A printed string literal at `i` tokenizes as exactly one string
/// token, whatever follows it.
proof fn lemma_tokenize_string_word(s: Seq<char>, i: int, txt: Seq<char>)
    requires
        seq_at(s, i, seq!['"'] + spec_escape(txt) + seq!['"']),
    ensures
        spec_tokenize_from(s, i) == seq![seq!['"'] + spec_escape(txt) + seq!['"']]
            + spec_tokenize_from(s, i + spec_escape(txt).len() + 2),
{
    let w = seq!['"'] + spec_escape(txt) + seq!['"'];
    lemma_seq_at_index(s, i, w);
    assert(w[0] == '"');
    assert(s[i] == '"');
    assert(!spec_is_separator('"'));
    assert(!spec_is_special('"'));
    assert(w =~= seq!['"'] + (spec_escape(txt) + seq!['"']));
    lemma_seq_at_split(s, i, seq!['"'], spec_escape(txt) + seq!['"']);
    lemma_string_end_escape(s, i + 1, txt);
    assert(string_token_end(s, i + 1) == i + w.len());
    assert(s.subrange(i, i + w.len() as int) == w);
}

/// Tokenizing printed text from a form's start yields the form's tokens
/// and continues after it.
proof fn lemma_tokenize_print(v: AstView, s: Seq<char>, i: int)
    requires
        wf_value(v),
        seq_at(s, i, spec_print(v)),
        at_boundary(s, i + spec_print(v).len()),
    ensures
        spec_tokenize_from(s, i) == print_tokens(v) + spec_tokenize_from(
            s,
            i + spec_print(v).len(),
        ),
    decreases v,
{
    let p = spec_print(v);
    match v {
        AstView::Nil => {
            proof_nil_word();
            lemma_tokenize_misc_word(s, i, p);
        },
        AstView::Boolean(b) => {
            proof_bool_words();
            lemma_tokenize_misc_word(s, i, p);
        },
        AstView::Number(t) => {
            lemma_tokenize_misc_word(s, i, p);
        },
        AstView::Symbol(t) => {
            lemma_tokenize_misc_word(s, i, p);
        },
        AstView::Keyword(t) => {
            assert(p == seq![':'] + t);
            assert forall|j: int| 0 <= j < p.len() implies plain_char(#[trigger] p[j]) by {
                if j == 0 {
                    assert(p[0] == ':');
                } else {
                    assert(p[j] == t[j - 1]);
                }
            }
            assert(p[0] == ':');
            lemma_tokenize_misc_word(s, i, p);
        },
        AstView::String(txt) => {
            lemma_tokenize_string_word(s, i, txt);
            assert(i + spec_escape(txt).len() + 2 == i + p.len());
        },
        AstView::List(elems) => {
            lemma_tokenize_container(s, i, spec_print_seq(elems), '(', ')');
            lemma_tokenize_print_seq(elems, s, i + 1);
            lemma_tokenize_container_close(s, i + 1 + spec_print_seq(elems).len(), ')');
            assert(spec_tokenize_from(s, i) =~~= print_tokens(v) + spec_tokenize_from(
                s,
                i + p.len(),
            ));
        },
        AstView::Vector(elems) => {
            lemma_tokenize_container(s, i, spec_print_seq(elems), '[', ']');
            lemma_tokenize_print_seq(elems, s, i + 1);
            lemma_tokenize_container_close(s, i + 1 + spec_print_seq(elems).len(), ']');
            assert(spec_tokenize_from(s, i) =~~= print_tokens(v) + spec_tokenize_from(
                s,
                i + p.len(),
            ));
        },
        AstView::HashMap(entries) => {
            lemma_tokenize_container(s, i, spec_print_entries(entries), '{', '}');
            lemma_tokenize_print_entries(entries, s, i + 1);
            lemma_tokenize_container_close(s, i + 1 + spec_print_entries(entries).len(), '}');
            assert(spec_tokenize_from(s, i) =~~= print_tokens(v) + spec_tokenize_from(
                s,
                i + p.len(),
            ));
        },
    }
}

/// The word `nil` is a plain misc word.
proof fn proof_nil_word()
    ensures
        "nil"@.len() == 3,
        plain_text("nil"@),
        "nil"@[0] == 'n',
{
    reveal_strlit("nil");
    assert forall|j: int| 0 <= j < "nil"@.len() implies plain_char(#[trigger] "nil"@[j]) by {
        if j == 0 {
        } else if j == 1 {
        } else {
        }
    }
}

/// The words `true` and `false` are plain misc words.
proof fn proof_bool_words()
    ensures
        "true"@.len() == 4,
        plain_text("true"@),
        "true"@[0] == 't',
        "false"@.len() == 5,
        plain_text("false"@),
        "false"@[0] == 'f',
{
    reveal_strlit("true");
    reveal_strlit("false");
    assert forall|j: int| 0 <= j < "true"@.len() implies plain_char(#[trigger] "true"@[j]) by {
        if j == 0 {
        } else if j == 1 {
        } else if j == 2 {
        } else {
        }
    }
    assert forall|j: int| 0 <= j < "false"@.len() implies plain_char(#[trigger] "false"@[j]) by {
        if j == 0 {
        } else if j == 1 {
        } else if j == 2 {
        } else if j == 3 {
        } else {
        }
    }
}

/// An opening delimiter at `i` (whose body and closer follow) is one
/// special token; the scan continues after it.
proof fn lemma_tokenize_container(s: Seq<char>, i: int, body: Seq<char>, opener: char, closer: char)
    requires
        (opener == '(' && closer == ')') || (opener == '[' && closer == ']') || (opener == '{'
            && closer == '}'),
        seq_at(s, i, seq![opener] + body + seq![closer]),
    ensures
        spec_tokenize_from(s, i) == seq![seq![opener]] + spec_tokenize_from(s, i + 1),
        seq_at(s, i + 1, body),
        s[i + 1 + body.len()] == closer,
{
    let p = seq![opener] + body + seq![closer];
    lemma_seq_at_index(s, i, p);
    assert(p[0] == opener);
    assert(s[i] == opener);
    assert(spec_is_special(opener));
    assert(!spec_is_separator(opener));
    assert(opener != '~');
    assert(s.subrange(i, i + 1) =~= seq![opener]);
    assert(p =~= seq![opener] + (body + seq![closer]));
    lemma_seq_at_split(s, i, seq![opener], body + seq![closer]);
    lemma_seq_at_split(s, i + 1, body, seq![closer]);
    lemma_seq_at_one(s, i + 1 + body.len(), closer);
}

/// A closing delimiter is one special token; the scan continues after
/// it.
proof fn lemma_tokenize_container_close(s: Seq<char>, m: int, closer: char)
    requires
        closer == ')' || closer == ']' || closer == '}',
        0 <= m < s.len(),
        s[m] == closer,
    ensures
        spec_tokenize_from(s, m) == seq![seq![closer]] + spec_tokenize_from(s, m + 1),
{
    assert(spec_is_special(closer));
    assert(!spec_is_separator(closer));
    assert(closer != '~');
    assert(s.subrange(m, m + 1) =~= seq![closer]);
}

/// Tokenizing the printed, space-joined elements of a container body,
/// up to the closing delimiter that follows them.
proof fn lemma_tokenize_print_seq(elems: Seq<AstView>, s: Seq<char>, i: int)
    requires
        wf_seq(elems),
        seq_at(s, i, spec_print_seq(elems)),
        i + spec_print_seq(elems).len() < s.len(),
        s[i + spec_print_seq(elems).len()] == ')' || s[i + spec_print_seq(elems).len()] == ']'
            || s[i + spec_print_seq(elems).len()] == '}',
    ensures
        spec_tokenize_from(s, i) == print_tokens_seq(elems) + spec_tokenize_from(
            s,
            i + spec_print_seq(elems).len(),
        ),
    decreases elems,
{
    let ps = spec_print_seq(elems);
    let j = i + ps.len();
    if elems.len() == 0 {
        assert(ps =~= Seq::<char>::empty());
        assert(print_tokens_seq(elems) + spec_tokenize_from(s, j) =~~= spec_tokenize_from(s, i));
    } else if elems.len() == 1 {
        assert(ps == spec_print(elems[0]));
        assert(at_boundary(s, i + spec_print(elems[0]).len()));
        lemma_tokenize_print(elems[0], s, i);
        assert(print_tokens_seq(elems.drop_first()) =~~= Seq::<Seq<char>>::empty());
        assert(print_tokens_seq(elems) + spec_tokenize_from(s, j) =~~= print_tokens(elems[0])
            + spec_tokenize_from(s, j));
    } else {
        let p0 = spec_print(elems[0]);
        let rest = elems.drop_first();
        assert(ps == p0 + seq![' '] + spec_print_seq(rest));
        assert(ps =~= p0 + (seq![' '] + spec_print_seq(rest)));
        lemma_seq_at_split(s, i, p0, seq![' '] + spec_print_seq(rest));
        lemma_seq_at_split(s, i + p0.len(), seq![' '], spec_print_seq(rest));
        let m = i + p0.len();
        lemma_seq_at_one(s, m, ' ');
        assert(s[m] == ' ');
        assert(spec_is_separator(' '));
        assert(at_boundary(s, m));
        lemma_tokenize_print(elems[0], s, i);
        assert(spec_tokenize_from(s, m) == spec_tokenize_from(s, m + 1));
        lemma_tokenize_print_seq(rest, s, m + 1);
        assert(spec_tokenize_from(s, i) =~~= print_tokens_seq(elems) + spec_tokenize_from(s, j));
    }
}

/// Tokenizing the printed, space-joined entries of a hash-map body, up
/// to the closing delimiter that follows them.
proof fn lemma_tokenize_print_entries(entries: Seq<(KeyView, AstView)>, s: Seq<char>, i: int)
    requires
        wf_entries(entries),
        seq_at(s, i, spec_print_entries(entries)),
        i + spec_print_entries(entries).len() < s.len(),
        s[i + spec_print_entries(entries).len()] == ')' || s[i + spec_print_entries(
            entries,
        ).len()] == ']' || s[i + spec_print_entries(entries).len()] == '}',
    ensures
        spec_tokenize_from(s, i) == print_tokens_entries(entries) + spec_tokenize_from(
            s,
            i + spec_print_entries(entries).len(),
        ),
    decreases entries,
{
    let pe = spec_print_entries(entries);
    let j = i + pe.len();
    if entries.len() == 0 {
        assert(pe =~= Seq::<char>::empty());
        assert(print_tokens_entries(entries) + spec_tokenize_from(s, j) =~~= spec_tokenize_from(
            s,
            i,
        ));
    } else {
        let k = entries[0].0;
        let v0 = entries[0].1;
        let pk = spec_print_key(k);
        let pv = spec_print(v0);
        let h = pk + seq![' '] + pv;
        let rest = entries.drop_first();
        if entries.len() == 1 {
            assert(pe == h);
        } else {
            assert(pe == h + seq![' '] + spec_print_entries(rest));
        }
        // the key token
        assert(pe =~= pk + (seq![' '] + pv + (pe.subrange(h.len() as int, pe.len() as int))));
        lemma_seq_at_split(
            s,
            i,
            pk,
            seq![' '] + pv + (pe.subrange(h.len() as int, pe.len() as int)),
        );
        let m = i + pk.len();
        assert(seq![' '] + pv + (pe.subrange(h.len() as int, pe.len() as int)) =~= seq![' '] + (pv
            + (pe.subrange(h.len() as int, pe.len() as int))));
        lemma_seq_at_split(s, m, seq![' '], pv + (pe.subrange(h.len() as int, pe.len() as int)));
        lemma_seq_at_one(s, m, ' ');
        assert(s[m] == ' ');
        assert(spec_is_separator(' '));
        match k {
            KeyView::Keyword(t) => {
                assert(pk == seq![':'] + t);
                assert forall|q: int| 0 <= q < pk.len() implies plain_char(#[trigger] pk[q]) by {
                    if q == 0 {
                        assert(pk[0] == ':');
                    } else {
                        assert(pk[q] == t[q - 1]);
                    }
                }
                assert(pk[0] == ':');
                assert(at_boundary(s, m));
                lemma_tokenize_misc_word(s, i, pk);
            },
            KeyView::String(txt) => {
                lemma_tokenize_string_word(s, i, txt);
                assert(i + spec_escape(txt).len() + 2 == m);
            },
        }
        // the separator, then the value
        assert(spec_tokenize_from(s, m) == spec_tokenize_from(s, m + 1));
        lemma_seq_at_split(s, m + 1, pv, pe.subrange(h.len() as int, pe.len() as int));
        if entries.len() == 1 {
            assert(pe.subrange(h.len() as int, pe.len() as int) =~= Seq::<char>::empty());
            assert(at_boundary(s, m + 1 + pv.len()));
            lemma_tokenize_print(v0, s, m + 1);
            assert(m + 1 + pv.len() == j);
            assert(print_tokens_entries(rest) =~~= Seq::<Seq<char>>::empty());
            assert(print_tokens_entries(entries) =~~= seq![pk] + print_tokens(v0));
            assert(spec_tokenize_from(s, i) =~~= print_tokens_entries(entries)
                + spec_tokenize_from(s, j));
        } else {
            let tail = pe.subrange(h.len() as int, pe.len() as int);
            assert(tail =~= seq![' '] + spec_print_entries(rest));
            let m2 = m + 1 + pv.len();
            lemma_seq_at_split(s, m2, seq![' '], spec_print_entries(rest));
            lemma_seq_at_one(s, m2, ' ');
            assert(s[m2] == ' ');
            assert(at_boundary(s, m2));
            lemma_tokenize_print(v0, s, m + 1);
            assert(spec_tokenize_from(s, m2) == spec_tokenize_from(s, m2 + 1));
            lemma_tokenize_print_entries(rest, s, m2 + 1);
            assert(m2 + 1 + spec_print_entries(rest).len() == j);
            assert(spec_tokenize_from(s, i) =~~= print_tokens_entries(entries)
                + spec_tokenize_from(s, j));
        }
    }
}

// ---------------------------------------------------------------------------
// Parsing printed tokens
// ---------------------------------------------------------------------------
/// The token texts `w` stand at position `i` of the token sequence.
pub open spec fn toks_at(tokens: Seq<Seq<char>>, i: int, w: Seq<Seq<char>>) -> bool {
    0 <= i && i + w.len() <= tokens.len() && tokens.subrange(i, i + w.len() as int) == w
}

proof fn lemma_toks_at_index(tokens: Seq<Seq<char>>, i: int, w: Seq<Seq<char>>)
    requires
        toks_at(tokens, i, w),
    ensures
        forall|j: int| 0 <= j < w.len() ==> (#[trigger] w[j]) == tokens[i + j],
{
    assert forall|j: int| 0 <= j < w.len() implies (#[trigger] w[j]) == tokens[i + j] by {
        assert(tokens.subrange(i, i + w.len() as int)[j] == tokens[i + j]);
    }
}

proof fn lemma_toks_at_split(tokens: Seq<Seq<char>>, i: int, a: Seq<Seq<char>>, b: Seq<Seq<char>>)
    requires
        toks_at(tokens, i, a + b),
    ensures
        toks_at(tokens, i, a),
        toks_at(tokens, i + a.len(), b),
{
    lemma_toks_at_index(tokens, i, a + b);
    assert(tokens.subrange(i, i + a.len() as int) =~= a) by {
        assert forall|j: int| 0 <= j < a.len() implies tokens.subrange(i, i + a.len() as int)[j]
            == a[j] by {
            assert(tokens.subrange(i, i + a.len() as int)[j] == tokens[i + j]);
            assert((a + b)[j] == tokens[i + j]);
        }
    }
    assert(tokens.subrange(i + a.len(), i + a.len() + b.len() as int) =~= b) by {
        assert forall|j: int|
            0 <= j < b.len() implies tokens.subrange(
            i + a.len(),
            i + a.len() + b.len() as int,
        )[j] == b[j] by {
            assert(tokens.subrange(i + a.len(), i + a.len() + b.len() as int)[j] == tokens[i
                + a.len() + j]);
            assert((a + b)[a.len() + j] == tokens[i + a.len() + j]);
        }
    }
}

/// A text whose first character cannot begin a number is no float
/// literal.
proof fn lemma_not_float_by_first(t: Seq<char>)
    requires
        t.len() > 0,
        !is_sign(t[0]),
        !is_digit(t[0]),
        t[0] != '.',
        !eq_ci(t[0], 'i'),
        !eq_ci(t[0], 'n'),
    ensures
        !is_float_literal(t),
{
    let body = strip_sign(t);
    assert(body == t);
    if is_float_literal(t) {
        assert(seq!['i', 'n', 'f'][0] == 'i');
        assert(seq!['i', 'n', 'f', 'i', 'n', 'i', 't', 'y'][0] == 'i');
        assert(seq!['n', 'a', 'n'][0] == 'n');
        if matches_ci(body, seq!['i', 'n', 'f']) {
            assert(eq_ci(body[0], 'i'));
        } else if matches_ci(body, seq!['i', 'n', 'f', 'i', 'n', 'i', 't', 'y']) {
            assert(eq_ci(body[0], 'i'));
        } else if matches_ci(body, seq!['n', 'a', 'n']) {
            assert(eq_ci(body[0], 'n'));
        } else {
            let e = exp_start_from(body, 0);
            lemma_exp_start_bounds(body, 0);
            let m = body.subrange(0, e);
            if e == 0 {
                assert(m.len() == 0);
                assert(dot_from(m, 0) == 0);
            } else {
                assert(m[0] == body[0]);
                let d = dot_from(m, 0);
                lemma_dot_from_bounds(m, 0);
                if d == m.len() {
                    assert(is_digit(m[0]));
                } else if d == 0 {
                    assert(m[0] == '.');
                } else {
                    assert(m.subrange(0, d)[0] == m[0]);
                    assert(is_digit(m.subrange(0, d)[0]));
                }
            }
        }
    }
}

/// `nil`, `true` and `false` are not float literals.
proof fn lemma_words_not_float()
    ensures
        !is_float_literal("nil"@),
        !is_float_literal("true"@),
        !is_float_literal("false"@),
{
    reveal_strlit("nil");
    reveal_strlit("true");
    reveal_strlit("false");
    assert(!matches_ci("nil"@, seq!['i', 'n', 'f'])) by {
        assert("nil"@[0] == 'n');
        assert(seq!['i', 'n', 'f'][0] == 'i');
        assert(!eq_ci('n', 'i'));
    }
    assert(!matches_ci("nil"@, seq!['i', 'n', 'f', 'i', 'n', 'i', 't', 'y'])) by {
        assert("nil"@.len() == 3);
    }
    assert(!matches_ci("nil"@, seq!['n', 'a', 'n'])) by {
        assert("nil"@[1] == 'i');
        assert(seq!['n', 'a', 'n'][1] == 'a');
        assert(!eq_ci('i', 'a'));
    }
    assert(!matches_ci("true"@, seq!['i', 'n', 'f'])) by {
        assert("true"@.len() == 4);
    }
    assert(!matches_ci("true"@, seq!['i', 'n', 'f', 'i', 'n', 'i', 't', 'y'])) by {
        assert("true"@.len() == 4);
    }
    assert(!matches_ci("true"@, seq!['n', 'a', 'n'])) by {
        assert("true"@.len() == 4);
    }
    assert(!matches_ci("false"@, seq!['i', 'n', 'f'])) by {
        assert("false"@.len() == 5);
    }
    assert(!matches_ci("false"@, seq!['i', 'n', 'f', 'i', 'n', 'i', 't', 'y'])) by {
        assert("false"@.len() == 5);
    }
    assert(!matches_ci("false"@, seq!['n', 'a', 'n'])) by {
        assert("false"@.len() == 5);
    }
    lemma_word_not_float("nil"@);
    lemma_word_not_float("true"@);
    lemma_word_not_float("false"@);
}

/// A word of plain letters other than the number keywords, with no
/// digits, dots or exponent digits, is no float literal.
proof fn lemma_word_not_float(w: Seq<char>)
    requires
        w.len() > 0,
        !is_sign(w[0]),
        !is_digit(w[0]),
        w[0] != '.',
        !(matches_ci(w, seq!['i', 'n', 'f']) || matches_ci(
            w,
            seq!['i', 'n', 'f', 'i', 'n', 'i', 't', 'y'],
        ) || matches_ci(w, seq!['n', 'a', 'n'])),
    ensures
        !is_float_literal(w),
{
    let body = strip_sign(w);
    assert(body == w);
    if is_float_literal(w) {
        let e = exp_start_from(body, 0);
        lemma_exp_start_bounds(body, 0);
        let m = body.subrange(0, e);
        if e == 0 {
            assert(m.len() == 0);
            assert(dot_from(m, 0) == 0);
        } else {
            assert(m[0] == body[0]);
            let d = dot_from(m, 0);
            lemma_dot_from_bounds(m, 0);
            if d == m.len() {
                assert(is_digit(m[0]));
            } else if d == 0 {
                assert(m[0] == '.');
            } else {
                assert(m.subrange(0, d)[0] == m[0]);
                assert(is_digit(m.subrange(0, d)[0]));
            }
        }
    }
}

/// How an atom's printed token reads back: as the atom itself, except
/// that `nil` and the booleans come back as symbols. The token opens no
/// other token kind.
proof fn lemma_parse_atom_token(v: AstView, w: Seq<char>)
    requires
        wf_value(v),
        !(v is List),
        !(v is Vector),
        !(v is HashMap),
        w == spec_print(v),
    ensures
        w.len() > 0,
        !is_one_char_token(w, '(') && !is_one_char_token(w, '[') && !is_one_char_token(w, '{')
            && !is_one_char_token(w, '\'') && !is_one_char_token(w, '`') && !is_one_char_token(
            w,
            '~',
        ) && !is_one_char_token(w, '@') && !is_one_char_token(w, '^') && !is_one_char_token(
            w,
            ')',
        ) && !is_one_char_token(w, ']') && !is_one_char_token(w, '}'),
        !is_splice_token(w),
        spec_read_atom(w) == Ok::<AstView, Error>(read_back(v)),
{
    match v {
        AstView::Nil => {
            proof_nil_word();
            lemma_words_not_float();
            assert(w[0] == 'n');
        },
        AstView::Boolean(b) => {
            proof_bool_words();
            lemma_words_not_float();
        },
        AstView::Number(t) => {
        },
        AstView::Symbol(t) => {
        },
        AstView::Keyword(t) => {
            assert(w == seq![':'] + t);
            assert(w[0] == ':');
            lemma_not_float_by_first(w);
            assert(w.subrange(1, w.len() as int) =~= t);
        },
        AstView::String(txt) => {
            let esc = spec_escape(txt);
            assert(w == seq!['"'] + esc + seq!['"']);
            assert(w[0] == '"');
            assert(w.len() >= 2);
            lemma_not_float_by_first(w);
            lemma_string_escape_round_trip(txt);
        },
        _ => {
        },
    }
}

/// The first printed token of a form never closes a container.
proof fn lemma_first_token(v: AstView)
    requires
        wf_value(v),
    ensures
        print_tokens(v).len() >= 1,
        !is_one_char_token(print_tokens(v)[0], ')'),
        !is_one_char_token(print_tokens(v)[0], ']'),
        !is_one_char_token(print_tokens(v)[0], '}'),
{
    match v {
        AstView::List(elems) => {
            assert(print_tokens(v)[0] == seq!['(']);
        },
        AstView::Vector(elems) => {
            assert(print_tokens(v)[0] == seq!['[']);
        },
        AstView::HashMap(entries) => {
            assert(print_tokens(v)[0] == seq!['{']);
        },
        _ => {
            lemma_parse_atom_token(v, spec_print(v));
            assert(print_tokens(v)[0] == spec_print(v));
        },
    }
}

/// Parsing a printed form from its first token gives the read-back form
/// and stops right after its tokens.
#[verifier::rlimit(100)]
#[verifier::spinoff_prover]
proof fn lemma_parse_print(v: AstView, tokens: Seq<Seq<char>>, i: int)
    requires
        wf_value(v),
        toks_at(tokens, i, print_tokens(v)),
    ensures
        spec_read_form(tokens, i) == Ok::<(AstView, int), Error>(
            (read_back(v), i + print_tokens(v).len()),
        ),
    decreases v,
{
    let pt = print_tokens(v);
    lemma_toks_at_index(tokens, i, pt);
    match v {
        AstView::List(elems) => {
            assert(pt =~~= seq![seq!['(']] + (print_tokens_seq(elems) + seq![seq![')']]));
            lemma_toks_at_split(tokens, i, seq![seq!['(']], print_tokens_seq(elems) + seq![
                seq![')'],
            ]);
            lemma_toks_at_split(tokens, i + 1, print_tokens_seq(elems), seq![seq![')']]);
            assert(tokens[i] == pt[0]);
            assert(pt[0] == seq!['(']);
            assert(is_one_char_token(tokens[i], '('));
            assert(spec_read_form(tokens, i) == spec_read_container(
                tokens,
                i + 1,
                Container::List,
            ));
            let m = i + 1 + print_tokens_seq(elems).len();
            lemma_toks_at_index(tokens, m, seq![seq![')']]);
            assert(tokens[m] == seq![seq![')']][0]);
            assert(tokens[m] == seq![')']);
            lemma_parse_print_elems(elems, tokens, i + 1, ')');
            assert(spec_read_container(tokens, i + 1, Container::List)
                == Ok::<(AstView, int), Error>((AstView::List(read_back_seq(elems)), m + 1)));
            assert(read_back(v) == AstView::List(read_back_seq(elems)));
            assert(i + pt.len() == m + 1);
            assert(spec_read_form(tokens, i) == Ok::<(AstView, int), Error>((AstView::List(
                read_back_seq(elems),
            ), m + 1)));
            assert(spec_read_form(tokens, i) == Ok::<(AstView, int), Error>(
                (read_back(v), i + pt.len()),
            ));
        },
        AstView::Vector(elems) => {
            assert(pt =~~= seq![seq!['[']] + (print_tokens_seq(elems) + seq![seq![']']]));
            lemma_toks_at_split(tokens, i, seq![seq!['[']], print_tokens_seq(elems) + seq![
                seq![']'],
            ]);
            lemma_toks_at_split(tokens, i + 1, print_tokens_seq(elems), seq![seq![']']]);
            assert(tokens[i] == pt[0]);
            assert(pt[0] == seq!['[']);
            assert(!is_one_char_token(tokens[i], '('));
            assert(is_one_char_token(tokens[i], '['));
            let m = i + 1 + print_tokens_seq(elems).len();
            lemma_toks_at_index(tokens, m, seq![seq![']']]);
            assert(tokens[m] == seq![seq![']']][0]);
            assert(tokens[m] == seq![']']);
            lemma_parse_print_elems(elems, tokens, i + 1, ']');
            assert(spec_read_container(tokens, i + 1, Container::Vector)
                == Ok::<(AstView, int), Error>((AstView::Vector(read_back_seq(elems)), m + 1)));
            assert(read_back(v) == AstView::Vector(read_back_seq(elems)));
            assert(i + pt.len() == m + 1);
            assert(spec_read_form(tokens, i) == Ok::<(AstView, int), Error>((AstView::Vector(
                read_back_seq(elems),
            ), m + 1)));
            assert(spec_read_form(tokens, i) == Ok::<(AstView, int), Error>((read_back(v), i + pt.len())));
        },
        AstView::HashMap(entries) => {
            assert(pt =~~= seq![seq!['{']] + (print_tokens_entries(entries) + seq![seq!['}']]));
            lemma_toks_at_split(tokens, i, seq![seq!['{']], print_tokens_entries(entries) + seq![
                seq!['}'],
            ]);
            lemma_toks_at_split(tokens, i + 1, print_tokens_entries(entries), seq![seq!['}']]);
            assert(tokens[i] == pt[0]);
            assert(pt[0] == seq!['{']);
            assert(!is_one_char_token(tokens[i], '('));
            assert(!is_one_char_token(tokens[i], '['));
            assert(is_one_char_token(tokens[i], '{'));
            let m = i + 1 + print_tokens_entries(entries).len();
            lemma_toks_at_index(tokens, m, seq![seq!['}']]);
            assert(tokens[m] == seq![seq!['}']][0]);
            assert(tokens[m] == seq!['}']);
            lemma_parse_print_map_entries(entries, tokens, i + 1);
            lemma_build_entry_forms(entries, Seq::empty());
            assert(Seq::<(KeyView, AstView)>::empty() + read_back_entries(entries)
                =~~= read_back_entries(entries));
            assert(spec_build_map(entry_forms(entries), Seq::empty())
                == Ok::<Seq<(KeyView, AstView)>, Error>(read_back_entries(entries)));
            assert(spec_read_container(tokens, i + 1, Container::HashMap)
                == Ok::<(AstView, int), Error>((AstView::HashMap(read_back_entries(entries)), m + 1)));
            assert(read_back(v) == AstView::HashMap(read_back_entries(entries)));
            assert(i + pt.len() == m + 1);
            assert(spec_read_form(tokens, i) == Ok::<(AstView, int), Error>((AstView::HashMap(
                read_back_entries(entries),
            ), m + 1)));
            assert(spec_read_form(tokens, i) == Ok::<(AstView, int), Error>(
                (read_back(v), i + pt.len()),
            ));
        },
        _ => {
            lemma_parse_atom_token(v, spec_print(v));
            assert(pt == seq![spec_print(v)]);
            assert(tokens[i] == pt[0]);
            assert(pt[0] == spec_print(v));
        },
    }
}

/// Parsing printed elements up to their closing delimiter.
proof fn lemma_parse_print_elems(elems: Seq<AstView>, tokens: Seq<Seq<char>>, i: int, closer: char)
    requires
        wf_seq(elems),
        closer == ')' || closer == ']' || closer == '}',
        toks_at(tokens, i, print_tokens_seq(elems)),
        i + print_tokens_seq(elems).len() < tokens.len(),
        tokens[i + print_tokens_seq(elems).len()] == seq![closer],
    ensures
        spec_read_elems(tokens, i, closer) == Ok::<(Seq<AstView>, int), Error>(
            (read_back_seq(elems), i + print_tokens_seq(elems).len() + 1),
        ),
    decreases elems,
{
    let pts = print_tokens_seq(elems);
    let j = i + pts.len();
    if elems.len() == 0 {
        assert(pts =~~= Seq::<Seq<char>>::empty());
        assert(is_one_char_token(tokens[i], closer));
        assert(read_back_seq(elems) =~~= Seq::<AstView>::empty());
    } else {
        let pt0 = print_tokens(elems[0]);
        let rest = elems.drop_first();
        assert(pts =~~= pt0 + print_tokens_seq(rest));
        lemma_toks_at_split(tokens, i, pt0, print_tokens_seq(rest));
        lemma_first_token(elems[0]);
        lemma_toks_at_index(tokens, i, pt0);
        assert(tokens[i] == pt0[0]);
        assert(!is_one_char_token(tokens[i], closer));
        lemma_parse_print(elems[0], tokens, i);
        let j0 = i + pt0.len();
        assert(i < j0 <= tokens.len());
        lemma_parse_print_elems(rest, tokens, j0, closer);
        assert(seq![read_back(elems[0])] + read_back_seq(rest) =~~= read_back_seq(elems));
    }
}

/// The flat forms the reader collects from a printed map body: widened
/// key, read-back value, in order.
pub open spec fn entry_forms(entries: Seq<(KeyView, AstView)>) -> Seq<AstView>
    decreases entries,
{
    if entries.len() == 0 {
        Seq::empty()
    } else {
        seq![key_to_ast_view(entries[0].0), read_back(entries[0].1)] + entry_forms(
            entries.drop_first(),
        )
    }
}

/// Parsing a printed map body up to its closing brace collects the
/// interleaved key and value forms.
proof fn lemma_parse_print_map_entries(
    entries: Seq<(KeyView, AstView)>,
    tokens: Seq<Seq<char>>,
    i: int,
)
    requires
        wf_entries(entries),
        toks_at(tokens, i, print_tokens_entries(entries)),
        i + print_tokens_entries(entries).len() < tokens.len(),
        tokens[i + print_tokens_entries(entries).len()] == seq!['}'],
    ensures
        spec_read_elems(tokens, i, '}') == Ok::<(Seq<AstView>, int), Error>(
            (entry_forms(entries), i + print_tokens_entries(entries).len() + 1),
        ),
    decreases entries,
{
    let pte = print_tokens_entries(entries);
    let j = i + pte.len();
    if entries.len() == 0 {
        assert(pte =~~= Seq::<Seq<char>>::empty());
        assert(is_one_char_token(tokens[i], '}'));
        assert(entry_forms(entries) =~~= Seq::<AstView>::empty());
    } else {
        let k = entries[0].0;
        let v0 = entries[0].1;
        let ka = key_to_ast_view(k);
        let pk = spec_print_key(k);
        let rest = entries.drop_first();
        assert(pte =~~= seq![pk] + (print_tokens(v0) + print_tokens_entries(rest)));
        lemma_toks_at_split(tokens, i, seq![pk], print_tokens(v0) + print_tokens_entries(rest));
        lemma_toks_at_split(tokens, i + 1, print_tokens(v0), print_tokens_entries(rest));
        lemma_toks_at_index(tokens, i, seq![pk]);
        assert(tokens[i] == seq![pk][0]);
        assert(tokens[i] == pk);
        // the key parses as its widened atom
        assert(wf_value(ka));
        lemma_print_key_as_ast(k);
        lemma_parse_atom_token(ka, pk);
        assert(read_back(ka) == ka);
        assert(!is_one_char_token(tokens[i], '}'));
        assert(spec_read_form(tokens, i) == Ok::<(AstView, int), Error>((ka, i + 1)));
        // the value
        lemma_first_token(v0);
        lemma_toks_at_index(tokens, i + 1, print_tokens(v0));
        assert(tokens[i + 1] == print_tokens(v0)[0]);
        assert(!is_one_char_token(tokens[i + 1], '}'));
        lemma_parse_print(v0, tokens, i + 1);
        let j0 = i + 1 + print_tokens(v0).len();
        lemma_parse_print_map_entries(rest, tokens, j0);
        assert(pte.len() == 1 + print_tokens(v0).len() + print_tokens_entries(rest).len());
        assert(spec_read_elems(tokens, j0, '}') == Ok::<(Seq<AstView>, int), Error>(
            (entry_forms(rest), j + 1),
        ));
        assert(spec_read_elems(tokens, i + 1, '}') == Ok::<(Seq<AstView>, int), Error>(
            (seq![read_back(v0)] + entry_forms(rest), j + 1),
        ));
        assert(spec_read_elems(tokens, i, '}') == Ok::<(Seq<AstView>, int), Error>(
            (seq![ka] + (seq![read_back(v0)] + entry_forms(rest)), j + 1),
        ));
        assert(seq![ka] + (seq![read_back(v0)] + entry_forms(rest)) =~~= entry_forms(entries));
    }
}

/// Pairing the collected forms of a printed map rebuilds its entries:
/// distinct keys are appended in order, never overwritten.
proof fn lemma_build_entry_forms(entries: Seq<(KeyView, AstView)>, acc: Seq<(KeyView, AstView)>)
    requires
        wf_entries(entries),
        forall|p: int, q: int|
            #![trigger acc[p], entries[q]]
            0 <= p < acc.len() && 0 <= q < entries.len() ==> acc[p].0 != entries[q].0,
    ensures
        spec_build_map(entry_forms(entries), acc) == Ok::<Seq<(KeyView, AstView)>, Error>(
            acc + read_back_entries(entries),
        ),
    decreases entries,
{
    let flat = entry_forms(entries);
    if entries.len() == 0 {
        assert(flat.len() == 0);
        assert(acc + read_back_entries(entries) =~~= acc);
    } else {
        let k = entries[0].0;
        let rbv = read_back(entries[0].1);
        let rest = entries.drop_first();
        assert(flat == seq![key_to_ast_view(k), rbv] + entry_forms(rest));
        assert(flat.len() == 2 + entry_forms(rest).len());
        assert(flat[0] == key_to_ast_view(k));
        assert(flat[1] == rbv);
        assert(key_of_ast_view(flat[0]) == Some(k));
        assert forall|p: int| 0 <= p < acc.len() implies (#[trigger] acc[p]).0 != k by {
            assert(acc[p].0 != entries[0].0);
        }
        lemma_map_insert_missing(acc, k, rbv);
        let acc2 = acc + seq![(k, rbv)];
        assert forall|p: int, q: int|
            #![trigger acc2[p], rest[q]]
            0 <= p < acc2.len() && 0 <= q < rest.len() implies acc2[p].0 != rest[q].0 by {
            assert(rest[q] == entries[q + 1]);
            if p < acc.len() {
                assert(acc2[p] == acc[p]);
                assert(acc[p].0 != entries[q + 1].0);
            } else {
                assert(acc2[p] == (k, rbv));
                assert(entries[q + 1].0 != entries[0].0);
            }
        }
        lemma_build_entry_forms(rest, acc2);
        assert(flat.subrange(2, flat.len() as int) =~~= entry_forms(rest));
        assert(acc2 + read_back_entries(rest) =~~= acc + read_back_entries(entries));
    }
}

/// A read-back form prints as the original did.
proof fn lemma_print_read_back(v: AstView)
    ensures
        spec_print(read_back(v)) == spec_print(v),
    decreases v,
{
    match v {
        AstView::Nil => {
            reveal_strlit("nil");
        },
        AstView::List(elems) => {
            lemma_print_read_back_seq(elems);
        },
        AstView::Vector(elems) => {
            lemma_print_read_back_seq(elems);
        },
        AstView::HashMap(entries) => {
            lemma_print_read_back_entries(entries);
        },
        _ => {
        },
    }
}

proof fn lemma_print_read_back_seq(elems: Seq<AstView>)
    ensures
        spec_print_seq(read_back_seq(elems)) == spec_print_seq(elems),
        read_back_seq(elems).len() == elems.len(),
    decreases elems,
{
    if elems.len() == 0 {
    } else {
        let rb = read_back_seq(elems);
        assert(rb[0] == read_back(elems[0]));
        lemma_print_read_back(elems[0]);
        lemma_print_read_back_seq(elems.drop_first());
        assert(rb.drop_first() =~~= read_back_seq(elems.drop_first()));
    }
}

proof fn lemma_print_read_back_entries(entries: Seq<(KeyView, AstView)>)
    ensures
        spec_print_entries(read_back_entries(entries)) == spec_print_entries(entries),
        read_back_entries(entries).len() == entries.len(),
    decreases entries,
{
    if entries.len() == 0 {
    } else {
        let rb = read_back_entries(entries);
        assert(rb[0] == (entries[0].0, read_back(entries[0].1)));
        lemma_print_read_back(entries[0].1);
        lemma_print_read_back_entries(entries.drop_first());
        assert(rb.drop_first() =~~= read_back_entries(entries.drop_first()));
    }
}

/// Printing is a fixed point under one round trip through the reader:
/// reading a well-formed value's canonical text succeeds, yields its
/// read-back form (the value itself, but for `nil` and the booleans,
/// which come back as the symbols they print as), and that form prints
/// to the same text.
pub proof fn lemma_print_read_round_trip(v: AstView)
    requires
        wf_value(v),
    ensures
        spec_read(spec_print(v)) == Ok::<AstView, Error>(read_back(v)),
        spec_print(read_back(v)) == spec_print(v),
{
    let s = spec_print(v);
    assert(s.subrange(0, s.len() as int) =~= s);
    assert(seq_at(s, 0, s));
    assert(at_boundary(s, s.len() as int));
    lemma_tokenize_print(v, s, 0);
    assert(spec_tokenize_from(s, s.len() as int) =~~= Seq::<Seq<char>>::empty());
    let tokens = spec_tokenize(s);
    assert(tokens =~~= print_tokens(v));
    lemma_first_token(v);
    assert(tokens.len() >= 1);
    assert(tokens.subrange(0, tokens.len() as int) =~~= tokens);
    assert(toks_at(tokens, 0, print_tokens(v)));
    lemma_parse_print(v, tokens, 0);
    lemma_print_read_back(v);
}

} // verus!
