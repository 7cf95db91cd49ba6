use crate::ast::{AST, AstView, KeyView, HashMapKey, Str, ast_view, asts_view, entries_view};
use crate::ast::{key_to_ast_view, key_view, lemma_asts_view_index, lemma_entries_view_index};
use vstd::prelude::*;
use vstd::string::StringExecFns;

verus! {

// ---------------------------------------------------------------------------
// The canonical text of a node
// ---------------------------------------------------------------------------
/// How one character of string text is escaped on output: quote,
/// backslash, newline and tab get a backslash form, everything else
/// passes through unescaped.
pub open spec fn escape_char(c: char) -> Seq<char> {
    if c == '"' {
        seq!['\\', '"']
    } else if c == '\\' {
        seq!['\\', '\\']
    } else if c == '\n' {
        seq!['\\', 'n']
    } else if c == '\t' {
        seq!['\\', 't']
    } else {
        seq![c]
    }
}

/// The escaped rendering of string text, character by character.
pub open spec fn spec_escape(t: Seq<char>) -> Seq<char>
    decreases t.len(),
{
    if t.len() == 0 {
        Seq::empty()
    } else {
        escape_char(t[0]) + spec_escape(t.drop_first())
    }
}

/// The canonical text of a hash-map key, as the key's node prints.
pub open spec fn spec_print_key(k: KeyView) -> Seq<char> {
    match k {
        KeyView::Keyword(t) => seq![':'] + t,
        KeyView::String(t) => seq!['"'] + spec_escape(t) + seq!['"'],
    }
}

/// The canonical text of a node: containers wrap their space-joined
/// children in their delimiter pair, atoms render their payload.
pub open spec fn spec_print(v: AstView) -> Seq<char>
    decreases v,
{
    match v {
        AstView::Nil => "nil"@,
        AstView::Boolean(b) => if b {
            "true"@
        } else {
            "false"@
        },
        AstView::Number(t) => t,
        AstView::Symbol(t) => t,
        AstView::Keyword(t) => seq![':'] + t,
        AstView::String(t) => seq!['"'] + spec_escape(t) + seq!['"'],
        AstView::List(elems) => seq!['('] + spec_print_seq(elems) + seq![')'],
        AstView::Vector(elems) => seq!['['] + spec_print_seq(elems) + seq![']'],
        AstView::HashMap(entries) => seq!['{'] + spec_print_entries(entries) + seq!['}'],
    }
}

/// The space-joined canonical texts of a sequence of nodes.
pub open spec fn spec_print_seq(elems: Seq<AstView>) -> Seq<char>
    decreases elems,
{
    if elems.len() == 0 {
        Seq::empty()
    } else if elems.len() == 1 {
        spec_print(elems[0])
    } else {
        spec_print(elems[0]) + seq![' '] + spec_print_seq(elems.drop_first())
    }
}

/// The space-joined `key value` texts of a sequence of map entries.
pub open spec fn spec_print_entries(entries: Seq<(KeyView, AstView)>) -> Seq<char>
    decreases entries,
{
    if entries.len() == 0 {
        Seq::empty()
    } else if entries.len() == 1 {
        spec_print_key(entries[0].0) + seq![' '] + spec_print(entries[0].1)
    } else {
        spec_print_key(entries[0].0) + seq![' '] + spec_print(entries[0].1) + seq![' ']
            + spec_print_entries(entries.drop_first())
    }
}

/// Printing a key's widened node gives the key's own text.
pub proof fn lemma_print_key_as_ast(k: KeyView)
    ensures
        spec_print(key_to_ast_view(k)) == spec_print_key(k),
{
}

proof fn lemma_escape_snoc(s: Seq<char>, c: char)
    ensures
        spec_escape(s.push(c)) == spec_escape(s) + escape_char(c),
    decreases s.len(),
{
    if s.len() == 0 {
        assert(s.push(c).drop_first() =~= Seq::<char>::empty());
        assert(escape_char(c) + spec_escape(Seq::<char>::empty()) =~= escape_char(c));
        assert(spec_escape(s) + escape_char(c) =~= escape_char(c));
    } else {
        assert(s.push(c).drop_first() =~= s.drop_first().push(c));
        lemma_escape_snoc(s.drop_first(), c);
        assert(s.push(c)[0] == s[0]);
        assert(escape_char(s[0]) + (spec_escape(s.drop_first()) + escape_char(c)) =~= (escape_char(
            s[0],
        ) + spec_escape(s.drop_first())) + escape_char(c));
    }
}

proof fn lemma_print_seq_snoc(s: Seq<AstView>, x: AstView)
    ensures
        spec_print_seq(s.push(x)) == if s.len() == 0 {
            spec_print(x)
        } else {
            spec_print_seq(s) + seq![' '] + spec_print(x)
        },
    decreases s.len(),
{
    if s.len() == 0 {
        assert(s.push(x)[0] == x);
    } else {
        assert(s.push(x).drop_first() =~= s.drop_first().push(x));
        lemma_print_seq_snoc(s.drop_first(), x);
        assert(s.push(x)[0] == s[0]);
        if s.len() == 1 {
            assert(spec_print_seq(s.push(x)) == spec_print(s[0]) + seq![' '] + spec_print(x));
            assert(spec_print_seq(s) == spec_print(s[0]));
        } else {
            assert(spec_print(s[0]) + seq![' '] + (spec_print_seq(s.drop_first()) + seq![' ']
                + spec_print(x)) =~= (spec_print(s[0]) + seq![' '] + spec_print_seq(
                s.drop_first(),
            )) + seq![' '] + spec_print(x));
        }
    }
}

proof fn lemma_print_entries_snoc(s: Seq<(KeyView, AstView)>, e: (KeyView, AstView))
    ensures
        spec_print_entries(s.push(e)) == if s.len() == 0 {
            spec_print_key(e.0) + seq![' '] + spec_print(e.1)
        } else {
            spec_print_entries(s) + seq![' '] + (spec_print_key(e.0) + seq![' '] + spec_print(e.1))
        },
    decreases s.len(),
{
    let etext = spec_print_key(e.0) + seq![' '] + spec_print(e.1);
    if s.len() == 0 {
        assert(s.push(e)[0] == e);
    } else {
        assert(s.push(e).drop_first() =~= s.drop_first().push(e));
        lemma_print_entries_snoc(s.drop_first(), e);
        assert(s.push(e)[0] == s[0]);
        let h = spec_print_key(s[0].0) + seq![' '] + spec_print(s[0].1);
        if s.len() == 1 {
            assert(spec_print_entries(s.push(e)) == h + seq![' '] + etext);
            assert(spec_print_entries(s) == h);
        } else {
            assert(h + seq![' '] + (spec_print_entries(s.drop_first()) + seq![' '] + etext) =~= (h
                + seq![' '] + spec_print_entries(s.drop_first())) + seq![' '] + etext);
        }
    }
}

// ---------------------------------------------------------------------------
// Executable printer
// ---------------------------------------------------------------------------
/// Appends the escaped rendering of string text onto `out`.
fn print_escaped(text: &String, out: &mut String)
    ensures
        final (out)@ == old(out)@ + spec_escape(text@),
{
    let ghost base = out@;
    let n = text.as_str().unicode_len();
    let mut i: usize = 0;
    proof {
        assert(base + spec_escape(text@.subrange(0, 0)) =~= base);
    }
    while i < n
        invariant
            i <= n,
            n == text@.len(),
            out@ == base + spec_escape(text@.subrange(0, i as int)),
        decreases n - i,
    {
        let c = text.as_str().get_char(i);
        if c == '"' {
            out.push('\\');
            out.push('"');
        } else if c == '\\' {
            out.push('\\');
            out.push('\\');
        } else if c == '\n' {
            out.push('\\');
            out.push('n');
        } else if c == '\t' {
            out.push('\\');
            out.push('t');
        } else {
            out.push(c);
        }
        i = i + 1;
        proof {
            let pre = text@.subrange(0, i - 1);
            assert(text@.subrange(0, i as int) =~= pre.push(text@[i - 1]));
            lemma_escape_snoc(pre, text@[i - 1]);
            assert(base + (spec_escape(pre) + escape_char(text@[i - 1])) =~= (base + spec_escape(
                pre,
            )) + escape_char(text@[i - 1]));
            assert(out@ == base + spec_escape(text@.subrange(0, i as int)));
        }
    }
    proof {
        assert(text@.subrange(0, n as int) =~= text@);
    }
}

/// Appends the canonical text of a hash-map key onto `out`.
fn print_key(key: &HashMapKey, out: &mut String)
    ensures
        final (out)@ == old(out)@ + spec_print_key(key@),
{
    match key {
        HashMapKey::Keyword(k) => {
            out.push(':');
            out.append(k.0.as_str());
            proof {
                assert(old(out)@.push(':') + k.0@ =~= old(out)@ + (seq![':'] + k.0@));
            }
        },
        HashMapKey::String(s) => {
            out.push('"');
            print_escaped(&s.0, out);
            out.push('"');
            proof {
                assert((old(out)@.push('"') + spec_escape(s.0@)).push('"') =~= old(out)@ + (seq![
                    '"',
                ] + spec_escape(s.0@) + seq!['"']));
            }
        },
    }
}

/// Appends the canonical text of a node onto `out`.
fn print_form(exp: &AST, out: &mut String)
    ensures
        final (out)@ == old(out)@ + spec_print(ast_view(*exp)),
    decreases *exp,
{
    match exp {
        AST::Nil(_) => {
            out.append("nil");
        },
        AST::Boolean(b) => {
            if b.0 {
                out.append("true");
            } else {
                out.append("false");
            }
        },
        AST::Number(n) => {
            out.append(n.0.as_str());
        },
        AST::Symbol(s) => {
            out.append(s.0.as_str());
        },
        AST::Keyword(k) => {
            out.push(':');
            out.append(k.0.as_str());
            proof {
                assert(old(out)@.push(':') + k.0@ =~= old(out)@ + (seq![':'] + k.0@));
            }
        },
        AST::String(s) => {
            out.push('"');
            print_escaped(&s.0, out);
            out.push('"');
            proof {
                assert((old(out)@.push('"') + spec_escape(s.0@)).push('"') =~= old(out)@ + (seq![
                    '"',
                ] + spec_escape(s.0@) + seq!['"']));
            }
        },
        AST::List(l) => {
            out.push('(');
            print_elems(&l.0, out);
            out.push(')');
            proof {
                assert((old(out)@.push('(') + spec_print_seq(asts_view(l.0@))).push(')')
                    =~= old(out)@ + (seq!['('] + spec_print_seq(asts_view(l.0@)) + seq![')']));
            }
        },
        AST::Vector(v) => {
            out.push('[');
            print_elems(&v.0, out);
            out.push(']');
            proof {
                assert((old(out)@.push('[') + spec_print_seq(asts_view(v.0@))).push(']')
                    =~= old(out)@ + (seq!['['] + spec_print_seq(asts_view(v.0@)) + seq![']']));
            }
        },
        AST::HashMap(m) => {
            out.push('{');
            print_entries(&m.0, out);
            out.push('}');
            proof {
                assert((old(out)@.push('{') + spec_print_entries(entries_view(m.0@))).push('}')
                    =~= old(out)@ + (seq!['{'] + spec_print_entries(entries_view(m.0@)) + seq![
                    '}',
                ]));
            }
        },
    }
}

/// Appends the space-joined texts of the elements onto `out`.
fn print_elems(elems: &Vec<AST>, out: &mut String)
    ensures
        final (out)@ == old(out)@ + spec_print_seq(asts_view(elems@)),
    decreases *elems,
{
    let ghost base = out@;
    let ghost ev = asts_view(elems@);
    let n = elems.len();
    let mut i: usize = 0;
    proof {
        lemma_asts_view_index(elems@);
        assert(asts_view(elems@.subrange(0, 0)) =~= Seq::<AstView>::empty());
        assert(base + spec_print_seq(ev.subrange(0, 0)) =~= base);
    }
    while i < n
        invariant
            i <= n,
            n == elems@.len(),
            ev == asts_view(elems@),
            ev.len() == n,
            forall|j: int| 0 <= j < n ==> ev[j] == ast_view(#[trigger] elems@[j]),
            out@ == base + spec_print_seq(ev.subrange(0, i as int)),
        decreases n - i,
    {
        if i > 0 {
            out.push(' ');
        }
        print_form(&elems[i], out);
        i = i + 1;
        proof {
            let pre = ev.subrange(0, i - 1);
            assert(ev.subrange(0, i as int) =~= pre.push(ev[i - 1]));
            lemma_print_seq_snoc(pre, ev[i - 1]);
            if i - 1 == 0 {
                assert(out@ == base + spec_print_seq(ev.subrange(0, i as int)));
            } else {
                assert((base + spec_print_seq(pre)).push(' ') + spec_print(ev[i - 1]) =~= base + (
                spec_print_seq(pre) + seq![' '] + spec_print(ev[i - 1])));
                assert(out@ == base + spec_print_seq(ev.subrange(0, i as int)));
            }
        }
    }
    proof {
        assert(ev.subrange(0, n as int) =~= ev);
    }
}

/// Appends the space-joined `key value` texts of the entries onto `out`.
fn print_entries(entries: &Vec<(HashMapKey, AST)>, out: &mut String)
    ensures
        final (out)@ == old(out)@ + spec_print_entries(entries_view(entries@)),
    decreases *entries,
{
    let ghost base = out@;
    let ghost ev = entries_view(entries@);
    let n = entries.len();
    let mut i: usize = 0;
    proof {
        lemma_entries_view_index(entries@);
        assert(base + spec_print_entries(ev.subrange(0, 0)) =~= base);
    }
    while i < n
        invariant
            i <= n,
            n == entries@.len(),
            ev == entries_view(entries@),
            ev.len() == n,
            forall|j: int|
                0 <= j < n ==> ev[j] == (
                key_view(#[trigger] entries@[j].0),
                ast_view(entries@[j].1),
                ),
            out@ == base + spec_print_entries(ev.subrange(0, i as int)),
        decreases n - i,
    {
        if i > 0 {
            out.push(' ');
        }
        print_key(&entries[i].0, out);
        out.push(' ');
        print_form(&entries[i].1, out);
        i = i + 1;
        proof {
            let pre = ev.subrange(0, i - 1);
            let e = ev[i - 1];
            assert(ev.subrange(0, i as int) =~= pre.push(e));
            lemma_print_entries_snoc(pre, e);
            let etext = spec_print_key(e.0) + seq![' '] + spec_print(e.1);
            if i - 1 == 0 {
                assert(((base + spec_print_entries(pre)) + spec_print_key(e.0)).push(' ')
                    + spec_print(e.1) =~= base + etext);
                assert(out@ == base + spec_print_entries(ev.subrange(0, i as int)));
            } else {
                assert((((base + spec_print_entries(pre)).push(' ') + spec_print_key(e.0)).push(
                    ' ',
                ) + spec_print(e.1)) =~= base + (spec_print_entries(pre) + seq![' '] + etext));
                assert(out@ == base + spec_print_entries(ev.subrange(0, i as int)));
            }
        }
    }
    proof {
        assert(ev.subrange(0, n as int) =~= ev);
    }
}

/// Serializes a node to its canonical text. Printing is total: it never
/// fails on any tree.
pub fn print(exp: AST) -> (r: String)
    ensures
        r@ == spec_print(exp@),
{
    let mut out = std::string::String::new();
    print_form(&exp, &mut out);
    proof {
        assert(Seq::<char>::empty() + spec_print(ast_view(exp)) =~= spec_print(ast_view(exp)));
    }
    out
}

/// Serializes the entries of a hash-map node: space-joined `key value`
/// pairs, without the surrounding braces.
pub fn print_hashmap(hashmap: crate::ast::HashMap) -> (r: String)
    ensures
        r@ == spec_print_entries(entries_view(hashmap.0@)),
{
    let mut out = std::string::String::new();
    print_entries(&hashmap.0, &mut out);
    proof {
        assert(Seq::<char>::empty() + spec_print_entries(entries_view(hashmap.0@))
            =~= spec_print_entries(entries_view(hashmap.0@)));
    }
    out
}

/// Escapes the text of a string node, without the surrounding quotes.
pub fn print_string(string: Str) -> (r: String)
    ensures
        r@ == spec_escape(string.0@),
{
    let mut out = std::string::String::new();
    print_escaped(&string.0, &mut out);
    proof {
        assert(Seq::<char>::empty() + spec_escape(string.0@) =~= spec_escape(string.0@));
    }
    out
}

} // verus!
