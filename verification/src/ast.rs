use crate::error::Error;
use vstd::prelude::*;

verus! {

/// A node of the abstract syntax tree: a tagged union with one case per
/// kind of form, each wrapping its payload newtype. Every node is built
/// once by the reader (or by hand) and owned by its parent container;
/// ownership is a strict tree.
#[derive(Debug, PartialEq)]
pub enum AST {
    Nil(Nil),
    Keyword(Keyword),
    Symbol(Symbol),
    String(Str),
    Boolean(Boolean),
    Number(Number),
    List(List),
    Vector(Vector),
    HashMap(HashMap),
}

/// The literal absence of a value.
#[derive(Debug, PartialEq, Eq)]
pub struct Nil;

/// An identifier written after `:`, stored without the colon.
#[derive(Debug, PartialEq, Eq, Hash)]
pub struct Keyword(pub String);

/// An unquoted identifier, stored verbatim.
#[derive(Debug, PartialEq, Eq, Hash)]
pub struct Symbol(pub String);

/// Text from a double-quoted literal, already escape-decoded.
#[derive(Debug, PartialEq, Eq, Hash)]
pub struct Str(pub String);

/// A boolean payload.
#[derive(Debug, PartialEq, Eq)]
pub struct Boolean(pub bool);

/// A numeric atom. The payload is the literal text of the number exactly
/// as it appeared in the source, kept only after it has matched the
/// standard floating-point literal grammar; the printer renders it
/// verbatim.
#[derive(Debug, PartialEq, Eq, Hash)]
pub struct Number(pub String);

/// An ordered `( … )` form.
#[derive(Debug, PartialEq)]
pub struct List(pub Vec<AST>);

/// An ordered `[ … ]` form.
#[derive(Debug, PartialEq)]
pub struct Vector(pub Vec<AST>);

/// A `{ … }` form: key/value entries in insertion order, later entries
/// for a key silently overwriting earlier ones, so the keys are distinct.
#[derive(Debug, PartialEq)]
pub struct HashMap(pub Vec<(HashMapKey, AST)>);

/// The restricted sub-union of nodes allowed as a hash-map key.
#[derive(Debug, PartialEq, Eq, Hash)]
pub enum HashMapKey {
    Keyword(Keyword),
    String(Str),
}

/// The three container kinds a balanced delimiter pair can open.
#[derive(Clone, Copy, Debug, PartialEq, Eq, Structural)]
pub enum Container {
    List,
    Vector,
    HashMap,
}

/// The mathematical shape of an AST node: payload text as sequences of
/// characters, containers as sequences of child shapes.
pub enum AstView {
    Nil,
    Keyword(Seq<char>),
    Symbol(Seq<char>),
    String(Seq<char>),
    Boolean(bool),
    Number(Seq<char>),
    List(Seq<AstView>),
    Vector(Seq<AstView>),
    HashMap(Seq<(KeyView, AstView)>),
}

/// The mathematical shape of a hash-map key.
pub enum KeyView {
    Keyword(Seq<char>),
    String(Seq<char>),
}

pub open spec fn key_view(k: HashMapKey) -> KeyView {
    match k {
        HashMapKey::Keyword(kw) => KeyView::Keyword(kw.0@),
        HashMapKey::String(s) => KeyView::String(s.0@),
    }
}

pub open spec fn ast_view(a: AST) -> AstView
    decreases a,
{
    match a {
        AST::Nil(_) => AstView::Nil,
        AST::Keyword(k) => AstView::Keyword(k.0@),
        AST::Symbol(s) => AstView::Symbol(s.0@),
        AST::String(s) => AstView::String(s.0@),
        AST::Boolean(b) => AstView::Boolean(b.0),
        AST::Number(n) => AstView::Number(n.0@),
        AST::List(l) => AstView::List(asts_view(l.0@)),
        AST::Vector(v) => AstView::Vector(asts_view(v.0@)),
        AST::HashMap(m) => AstView::HashMap(entries_view(m.0@)),
    }
}

pub open spec fn asts_view(s: Seq<AST>) -> Seq<AstView>
    decreases s,
{
    if s.len() == 0 {
        Seq::empty()
    } else {
        seq![ast_view(s[0])] + asts_view(s.drop_first())
    }
}

pub open spec fn entries_view(s: Seq<(HashMapKey, AST)>) -> Seq<(KeyView, AstView)>
    decreases s,
{
    if s.len() == 0 {
        Seq::empty()
    } else {
        seq![(key_view(s[0].0), ast_view(s[0].1))] + entries_view(s.drop_first())
    }
}

impl View for AST {
    type V = AstView;

    open spec fn view(&self) -> AstView {
        ast_view(*self)
    }
}

impl View for HashMapKey {
    type V = KeyView;

    open spec fn view(&self) -> KeyView {
        key_view(*self)
    }
}

/// `asts_view` is the element-wise view of the sequence.
pub proof fn lemma_asts_view_index(s: Seq<AST>)
    ensures
        asts_view(s).len() == s.len(),
        forall|i: int| 0 <= i < s.len() ==> #[trigger] asts_view(s)[i] == ast_view(s[i]),
    decreases s.len(),
{
    if s.len() > 0 {
        lemma_asts_view_index(s.drop_first());
        assert forall|i: int| 0 <= i < s.len() implies #[trigger] asts_view(s)[i] == ast_view(
            s[i],
        ) by {
            if i > 0 {
                assert(s.drop_first()[i - 1] == s[i]);
                assert(asts_view(s)[i] == asts_view(s.drop_first())[i - 1]);
            }
        }
    }
}

/// `entries_view` is the entry-wise view of the sequence.
pub proof fn lemma_entries_view_index(s: Seq<(HashMapKey, AST)>)
    ensures
        entries_view(s).len() == s.len(),
        forall|i: int|
            0 <= i < s.len() ==> #[trigger] entries_view(s)[i] == (
            key_view(s[i].0),
            ast_view(s[i].1),
            ),
    decreases s.len(),
{
    if s.len() > 0 {
        lemma_entries_view_index(s.drop_first());
        assert forall|i: int| 0 <= i < s.len() implies #[trigger] entries_view(s)[i] == (
            key_view(s[i].0),
            ast_view(s[i].1),
        ) by {
            if i > 0 {
                assert(s.drop_first()[i - 1] == s[i]);
                assert(entries_view(s)[i] == entries_view(s.drop_first())[i - 1]);
            }
        }
    }
}

/// The total, lossless rendering of a key back into a general node.
pub open spec fn key_to_ast_view(k: KeyView) -> AstView {
    match k {
        KeyView::Keyword(t) => AstView::Keyword(t),
        KeyView::String(t) => AstView::String(t),
    }
}

/// The fallible narrowing of a node shape into a key shape: only
/// keywords and strings qualify.
pub open spec fn key_of_ast_view(v: AstView) -> Option<KeyView> {
    match v {
        AstView::Keyword(t) => Some(KeyView::Keyword(t)),
        AstView::String(t) => Some(KeyView::String(t)),
        _ => None,
    }
}

impl HashMapKey {
    /// Narrows a general node to a hash-map key; any node other than a
    /// keyword or a string is rejected.
    pub fn of_ast(ast: AST) -> (r: Result<HashMapKey, Error>)
        ensures
            match key_of_ast_view(ast@) {
                Some(k) => r matches Ok(key) && key@ == k,
                None => r == Err::<HashMapKey, Error>(Error::UnsupportedHashMapKeyType),
            },
    {
        match ast {
            AST::Keyword(inner) => Ok(HashMapKey::Keyword(inner)),
            AST::String(inner) => Ok(HashMapKey::String(inner)),
            _ => Err(Error::UnsupportedHashMapKeyType),
        }
    }

    /// Widens a hash-map key back into a general node, losslessly.
    pub fn into_ast(self) -> (r: AST)
        ensures
            r@ == key_to_ast_view(self@),
    {
        match self {
            HashMapKey::Keyword(inner) => AST::Keyword(inner),
            HashMapKey::String(inner) => AST::String(inner),
        }
    }
}

impl AST {
    pub fn nil() -> (r: Self)
        ensures
            r@ == AstView::Nil,
    {
        AST::Nil(Nil)
    }

    pub fn keyword(value: String) -> (r: Self)
        ensures
            r@ == AstView::Keyword(value@),
    {
        AST::Keyword(Keyword(value))
    }

    pub fn symbol(value: String) -> (r: Self)
        ensures
            r@ == AstView::Symbol(value@),
    {
        AST::Symbol(Symbol(value))
    }

    pub fn string(value: String) -> (r: Self)
        ensures
            r@ == AstView::String(value@),
    {
        AST::String(Str(value))
    }

    pub fn boolean(value: bool) -> (r: Self)
        ensures
            r@ == AstView::Boolean(value),
    {
        AST::Boolean(Boolean(value))
    }

    pub fn number(value: String) -> (r: Self)
        ensures
            r@ == AstView::Number(value@),
    {
        AST::Number(Number(value))
    }

    pub fn list(value: Vec<AST>) -> (r: Self)
        ensures
            r@ == AstView::List(asts_view(value@)),
    {
        AST::List(List(value))
    }

    pub fn vector(value: Vec<AST>) -> (r: Self)
        ensures
            r@ == AstView::Vector(asts_view(value@)),
    {
        AST::Vector(Vector(value))
    }

    pub fn hashmap(value: Vec<(HashMapKey, AST)>) -> (r: Self)
        ensures
            r@ == AstView::HashMap(entries_view(value@)),
    {
        AST::HashMap(HashMap(value))
    }
}

} // verus!
