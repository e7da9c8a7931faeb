use sexpr::Parser;
use sexpr::ParseError;
use sexpr::SexprTree;
use sexpr::SexprTree::Sub;
use sexpr::SexprTree::Sym;

const TEST_1: &str = "(+ (* 2 3) (- 5 4))";

#[test]
fn tree_test() -> Result<(), ParseError> {
    let tree = Parser::build_parse_tree(TEST_1)?;
    match &tree {
        Sym(_) => assert!(false),
        Sub(v) => {
            assert!(v[0].is("+"));
            assert_eq!(v[1].head().unwrap().as_str(), "*");
            assert_eq!(v[2].head().unwrap().as_str(), "-");
        }
    }
    assert_eq!(
        format!("{:?}", tree),
        r#"Sub([Sym("+"), Sub([Sym("*"), Sym("2"), Sym("3")]), Sub([Sym("-"), Sym("5"), Sym("4")])])"#
    );
    assert_eq!(tree.head().unwrap().as_str(), "+");
    assert_eq!(tree.flatten(), vec!["+", "*", "2", "3", "-", "5", "4"]);
    Ok(())
}

fn sym(s: &str) -> SexprTree {
    Sym(String::from(s))
}

#[test]
fn concrete_structure() {
    let tree = Parser::build_parse_tree(TEST_1).unwrap();
    let expected = Sub(vec![
        sym("+"),
        Sub(vec![sym("*"), sym("2"), sym("3")]),
        Sub(vec![sym("-"), sym("5"), sym("4")]),
    ]);
    assert_eq!(tree, expected);
}

#[test]
fn empty_input_parses_to_empty_group() {
    assert_eq!(Parser::build_parse_tree("").unwrap(), Sub(vec![]));
    assert_eq!(Parser::build_parse_tree("   ").unwrap(), Sub(vec![]));
}

#[test]
fn case_insensitive_symbols() {
    assert_eq!(
        Parser::build_parse_tree("ABC").unwrap(),
        Parser::build_parse_tree("abc").unwrap()
    );
    assert_eq!(Parser::build_parse_tree("ABC").unwrap(), sym("abc"));
}

#[test]
fn whitespace_between_tokens_is_ignored() {
    let a = Parser::build_parse_tree("(+ 1 2)").unwrap();
    let b = Parser::build_parse_tree("  ( +\t1\n  2 )  ").unwrap();
    assert_eq!(a, b);
}

#[test]
fn unbalanced_input_fails_out_of_range() {
    let err = Parser::build_parse_tree("(+ 1 2").unwrap_err();
    match err {
        ParseError::OutOfRange { index, available } => {
            assert_eq!(index, 4);
            assert_eq!(available, 4);
        }
        other => panic!("wrong error kind: {:?}", other),
    }
}

#[test]
fn flatten_skips_delimiters() {
    let tree = Parser::build_parse_tree("(a (b (c)) d)").unwrap();
    assert_eq!(tree.flatten(), vec!["a", "b", "c", "d"]);
}

#[test]
fn head_of_empty_group_is_none() {
    let tree = Parser::build_parse_tree("()").unwrap();
    assert_eq!(tree.head(), None);
    let nested = Parser::build_parse_tree("(() x)").unwrap();
    assert_eq!(nested.head(), None);
}

#[test]
fn is_matches_symbols_only() {
    assert!(sym("plus").is("plus"));
    assert!(!sym("plus").is("minus"));
    assert!(!Sub(vec![sym("plus")]).is("plus"));
}

#[test]
fn round_trip_of_canonical_text() {
    let text = "(+ (* 2 3) (- 5 4))";
    let tree = Parser::build_parse_tree(text).unwrap();
    // re-serialize by joining "(", children by spaces, ")" and parse again
    let printed = print_tree(&tree);
    assert_eq!(printed, text);
    assert_eq!(Parser::build_parse_tree(&printed).unwrap(), tree);
}

fn print_tree(t: &SexprTree) -> String {
    match t {
        Sym(s) => s.clone(),
        Sub(v) => {
            let mut out = String::from("(");
            for (i, child) in v.iter().enumerate() {
                if i > 0 {
                    out.push(' ');
                }
                out.push_str(&print_tree(child));
            }
            out.push(')');
            out
        }
    }
}
