use sexpr::Tokenizer;

#[test]
fn tokenize_concrete_input() {
    let mut t = Tokenizer::new("()");
    let tokens = t.tokenize("(+ (* 2 3) (- 5 4))");
    assert_eq!(
        tokens,
        vec!["(", "+", "(", "*", "2", "3", ")", "(", "-", "5", "4", ")", ")"]
    );
}

#[test]
fn tokenize_lowercases_symbols_but_not_delimiters() {
    let mut t = Tokenizer::new("()");
    assert_eq!(t.tokenize("(FOO Bar)"), vec!["(", "foo", "bar", ")"]);
}

#[test]
fn tokenize_empty_and_whitespace() {
    let mut t = Tokenizer::new("()");
    assert_eq!(t.tokenize(""), Vec::<String>::new());
    assert_eq!(t.tokenize(" \t\n "), Vec::<String>::new());
}

#[test]
fn tokenize_custom_symbol_set() {
    let mut t = Tokenizer::new("[]");
    assert_eq!(t.tokenize("a[B]c"), vec!["a", "[", "b", "]", "c"]);
    // parentheses are ordinary symbol characters under this set
    assert_eq!(t.tokenize("(x)"), vec!["(x)"]);
}

#[test]
fn tokenize_splits_delimiters_without_whitespace() {
    let mut t = Tokenizer::new("()");
    assert_eq!(t.tokenize("((a))"), vec!["(", "(", "a", ")", ")"]);
}

#[test]
fn whitespace_set_matches_std() {
    for u in 0..=0x10FFFFu32 {
        if let Some(c) = char::from_u32(u) {
            assert_eq!(sexpr::text::is_whitespace_char(c), c.is_whitespace());
        }
    }
}

#[test]
fn non_ascii_whitespace_separates_tokens() {
    let mut t = Tokenizer::new("()");
    assert_eq!(t.tokenize("a\u{A0}b\u{2003}c"), vec!["a", "b", "c"]);
}
