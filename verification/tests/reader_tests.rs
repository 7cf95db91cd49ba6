use mal::ast::{AST, HashMap, HashMapKey, Keyword, Str};
use mal::error::Error;
use mal::printer::{print, print_hashmap, print_string};
use mal::reader::{read, tokenize};
use mal::repl::rep;

fn toks(input: &str) -> Vec<String> {
    tokenize(input)
}

#[test]
fn empty_string() {
    assert_eq!(toks(""), Vec::<String>::new());
}

#[test]
fn special_single_characters() {
    let expected = vec!["[", "]", "{", "}", "(", ")", "'", "`", "~", "^", "@"];
    assert_eq!(toks("[]{}()'`~^@"), expected);
    assert_eq!(toks("[ ] { } ( ) ' ` ~ ^ @"), expected);
    assert_eq!(toks("   [   ]   {   }   (     )       ' `       ~ ^     @   "), expected);
}

#[test]
fn special_two_char() {
    assert_eq!(toks("~@"), vec!["~@"]);
    assert_eq!(toks("~ @"), vec!["~", "@"]);
    assert_eq!(toks("  ~      @   "), vec!["~", "@"]);
}

#[test]
fn empty_strings() {
    assert_eq!(toks(r#""""#), vec![r#""""#]);
    assert_eq!(toks(r#" "" "" "#), vec![r#""""#, r#""""#]);
}

#[test]
fn basic_strings() {
    assert_eq!(toks(r#" "abc" "#), vec![r#""abc""#]);
    assert_eq!(toks(r#" "abc" "123" "($)" "#), vec![r#""abc""#, r#""123""#, r#""($)""#]);
    assert_eq!(toks(r#" "'''" "#), vec![r#""'''""#]);
}

#[test]
fn strings_with_escaped_quotes() {
    assert_eq!(toks(r#" "\"" "#), vec![r#""\"""#]);
    assert_eq!(
        toks(r#" "\"" "\"\"" "\"\"\"" "#),
        vec![r#""\"""#, r#""\"\"""#, r#""\"\"\"""#]
    );
}

#[test]
fn strings_with_escaped_characters() {
    assert_eq!(toks(r#""\"""#), vec![r#""\"""#]);
    assert_eq!(toks(r#""\n""#), vec![r#""\n""#]);
    assert_eq!(toks(r#""\\""#), vec![r#""\\""#]);
    assert_eq!(
        toks(r#" "\"" "\n\\" "\\\n\"" "#),
        vec![r#""\"""#, r#""\n\\""#, r#""\\\n\"""#]
    );
}

#[test]
fn comments_are_discarded() {
    // A semicolon discards the rest of the input entirely.
    assert_eq!(toks(" ; abc 123"), Vec::<String>::new());
    assert_eq!(toks("nil ; trailing words"), vec!["nil"]);
}

#[test]
fn misc_tokens() {
    assert_eq!(toks("nil"), vec!["nil"]);
    assert_eq!(toks("true false"), vec!["true", "false"]);
    assert_eq!(toks("ident ifier"), vec!["ident", "ifier"]);
    assert_eq!(toks("123 -543.21"), vec!["123", "-543.21"]);
    assert_eq!(toks("   true   nil false  123 "), vec!["true", "nil", "false", "123"]);
    assert_eq!(toks(" truenil false123   "), vec!["truenil", "false123"]);
}

#[test]
fn commas_as_whitespace() {
    assert_eq!(toks("nil,,,"), toks("nil"));
    assert_eq!(toks(",,true,,false,,"), vec!["true", "false"]);
}

#[test]
fn read_empty_input() {
    assert!(matches!(read(""), Err(Error::EmptyInput)));
    assert!(matches!(read(" ; comment only"), Err(Error::EmptyInput)));
}

#[test]
fn read_unbalanced_collection() {
    assert!(matches!(read("(1 2"), Err(Error::UnbalancedCollection)));
    assert!(matches!(read("[1 2"), Err(Error::UnbalancedCollection)));
    assert!(matches!(read("{:a 1"), Err(Error::UnbalancedCollection)));
}

#[test]
fn read_missing_hashmap_value() {
    assert!(matches!(read("{:a 1 :b}"), Err(Error::MissingHashMapValue)));
}

#[test]
fn read_unsupported_hashmap_key() {
    assert!(matches!(read("{(1) 2}"), Err(Error::UnsupportedHashMapKeyType)));
    assert!(matches!(read("{1 2}"), Err(Error::UnsupportedHashMapKeyType)));
}

#[test]
fn read_unbalanced_string() {
    assert!(matches!(read("\"abc"), Err(Error::UnbalancedString)));
    assert!(matches!(read("\"abc\\\""), Err(Error::UnbalancedString)));
}

#[test]
fn read_quote_expands() {
    let ast = read("'x").unwrap();
    let expected = AST::list(vec![
        AST::symbol("quote".to_string()),
        AST::symbol("x".to_string()),
    ]);
    assert_eq!(ast, expected);
    assert_eq!(print(ast), "(quote x)");
}

#[test]
fn read_other_macros_expand() {
    assert_eq!(print(read("`x").unwrap()), "(quasiquote x)");
    assert_eq!(print(read("~x").unwrap()), "(unquote x)");
    assert_eq!(print(read("~@x").unwrap()), "(splice-unquote x)");
    assert_eq!(print(read("@x").unwrap()), "(deref x)");
}

#[test]
fn read_with_meta_swaps_forms() {
    let ast = read("^{:a 1} [1 2]").unwrap();
    let expected = AST::list(vec![
        AST::symbol("with-meta".to_string()),
        AST::vector(vec![AST::number("1".to_string()), AST::number("2".to_string())]),
        AST::hashmap(vec![(
            HashMapKey::Keyword(Keyword("a".to_string())),
            AST::number("1".to_string()),
        )]),
    ]);
    assert_eq!(ast, expected);
    assert_eq!(print(ast), "(with-meta [1 2] {:a 1})");
}

#[test]
fn read_literals_stay_symbols() {
    assert_eq!(read("nil").unwrap(), AST::symbol("nil".to_string()));
    assert_eq!(read("true").unwrap(), AST::symbol("true".to_string()));
    assert_eq!(read("false").unwrap(), AST::symbol("false".to_string()));
}

#[test]
fn read_numbers() {
    assert_eq!(read("123").unwrap(), AST::number("123".to_string()));
    assert_eq!(read("-543.21").unwrap(), AST::number("-543.21".to_string()));
    assert_eq!(read("1e5").unwrap(), AST::number("1e5".to_string()));
    assert_eq!(read(".5").unwrap(), AST::number(".5".to_string()));
    // Not numbers: they stay symbols.
    assert_eq!(read("1a").unwrap(), AST::symbol("1a".to_string()));
    assert_eq!(read("--1").unwrap(), AST::symbol("--1".to_string()));
    assert_eq!(read("1.2.3").unwrap(), AST::symbol("1.2.3".to_string()));
}

#[test]
fn number_grammar_agrees_with_float_parsing() {
    // The reader accepts a token as a number exactly when the standard
    // library parses it as a 64-bit float.
    let cases = [
        "1", "-543.21", "1e5", ".5", "5.", "inf", "-inf", "Infinity", "NaN", "nan",
        "1E-7", "+.5e+2", "0.1e1", "3.", "-.5", "+1", "nil", "true", "a1", "1a",
        "--1", "1.2.3", "1e", "e5", "+", ".", "..", "1e+", "infx", "in", "+e1",
    ];
    for token in cases {
        let is_number = matches!(read(token), Ok(AST::Number(_)));
        assert_eq!(is_number, token.parse::<f64>().is_ok(), "token {token:?}");
    }
}

#[test]
fn read_keywords_and_strings() {
    assert_eq!(read(":abc").unwrap(), AST::keyword("abc".to_string()));
    assert_eq!(read("\"abc\"").unwrap(), AST::string("abc".to_string()));
    assert_eq!(read("\"a\\nb\"").unwrap(), AST::string("a\nb".to_string()));
    assert_eq!(read("\"q\\zq\"").unwrap(), AST::string("qzq".to_string()));
}

#[test]
fn string_escape_round_trip() {
    assert_eq!(print(read("\"a\\nb\"").unwrap()), "\"a\\nb\"");
    assert_eq!(print(read("\"q\\\"w\\\\e\\tr\"").unwrap()), "\"q\\\"w\\\\e\\tr\"");
}

#[test]
fn print_atoms() {
    assert_eq!(print(AST::nil()), "nil");
    assert_eq!(print(AST::boolean(true)), "true");
    assert_eq!(print(AST::boolean(false)), "false");
    assert_eq!(print(AST::symbol("abc".to_string())), "abc");
    assert_eq!(print(AST::keyword("abc".to_string())), ":abc");
    assert_eq!(print(AST::string("a\"b\\c\nd\te".to_string())), "\"a\\\"b\\\\c\\nd\\te\"");
    assert_eq!(print(AST::number("42.5".to_string())), "42.5");
}

#[test]
fn print_containers() {
    assert_eq!(print(AST::list(vec![])), "()");
    assert_eq!(print(AST::vector(vec![])), "[]");
    assert_eq!(print(AST::hashmap(vec![])), "{}");
    let inner = AST::list(vec![AST::symbol("a".to_string()), AST::number("1".to_string())]);
    let outer = AST::vector(vec![inner, AST::keyword("k".to_string())]);
    assert_eq!(print(outer), "[(a 1) :k]");
}

#[test]
fn print_read_print_fixed_point() {
    // One round trip through the reader leaves printed text unchanged.
    let samples = [
        "(quote x)",
        "[1 2 [3 4] ()]",
        "{:a 1 :b {:c \"x\"} \"k\" [1]}",
        "(a :b \"c d\" 1.5 [nil true])",
        "\"a\\nb\\\\c\\\"d\"",
    ];
    for text in samples {
        let once = print(read(text).unwrap());
        let twice = print(read(&once).unwrap());
        assert_eq!(twice, once, "input {text:?}");
    }
}

#[test]
fn duplicate_map_keys_overwrite() {
    assert_eq!(print(read("{:a 1 :a 2}").unwrap()), "{:a 2}");
    assert_eq!(print(read("{:a 1 :b 2 :a 3}").unwrap()), "{:a 3 :b 2}");
}

#[test]
fn trailing_tokens_are_ignored() {
    assert_eq!(read("1 2 3").unwrap(), AST::number("1".to_string()));
    assert_eq!(print(read("(1) (2)").unwrap()), "(1)");
}

#[test]
fn hashmap_key_conversions() {
    let key = HashMapKey::of_ast(AST::keyword("a".to_string())).unwrap();
    assert_eq!(key, HashMapKey::Keyword(Keyword("a".to_string())));
    assert_eq!(key.into_ast(), AST::keyword("a".to_string()));
    let key = HashMapKey::of_ast(AST::string("s".to_string())).unwrap();
    assert_eq!(key, HashMapKey::String(Str("s".to_string())));
    assert!(matches!(
        HashMapKey::of_ast(AST::number("1".to_string())),
        Err(Error::UnsupportedHashMapKeyType)
    ));
}

#[test]
fn error_messages() {
    assert_eq!(Error::EmptyInput.message(), "Error: empty input");
    assert_eq!(Error::InvalidEscape.message(), "Error: invalid escape");
    assert_eq!(Error::MissingAtom.message(), "Error: missing atom");
    assert_eq!(Error::MissingHashMapValue.message(), "Error: missing hash-map value");
    assert_eq!(Error::UnbalancedCollection.message(), "Error: unbalanced collection");
    assert_eq!(Error::UnbalancedString.message(), "Error: unbalanced string");
    assert_eq!(
        Error::UnsupportedHashMapKeyType.message(),
        "Error: unsupported hash-map key type"
    );
}

#[test]
fn rep_reads_and_prints() {
    assert_eq!(rep("  ( a,  b ) ").unwrap(), "(a b)");
    assert_eq!(rep("'x").unwrap(), "(quote x)");
    assert!(matches!(rep(""), Err(Error::EmptyInput)));
    assert!(matches!(rep("(a"), Err(Error::UnbalancedCollection)));
}

#[test]
fn eval_is_identity() {
    let ast = mal::repl::eval(AST::symbol("x".to_string()), "").unwrap();
    assert_eq!(ast, AST::symbol("x".to_string()));
}

#[test]
fn print_string_and_print_hashmap() {
    assert_eq!(print_string(Str("a\"b".to_string())), "a\\\"b");
    let map = HashMap(vec![
        (HashMapKey::Keyword(Keyword("a".to_string())), AST::number("1".to_string())),
        (HashMapKey::String(Str("k".to_string())), AST::nil()),
    ]);
    assert_eq!(print_hashmap(map), ":a 1 \"k\" nil");
}

#[test]
fn symbols_kept_verbatim() {
    assert_eq!(read("a~b").unwrap(), AST::symbol("a~b".to_string()));
    assert_eq!(print(read("a~b").unwrap()), "a~b");
    assert_eq!(read(")").unwrap(), AST::symbol(")".to_string()));
}
