use sexpr::Parser;
use sexpr::ParseError;

const TEST_1: &str = "(+ (* 2 3) (- 5 4))";

#[test]
fn token_test() {
    let tokens_1: Vec<&str> = vec![
        "(", "+", "(", "*", "2", "3", ")", "(", "-", "5", "4", ")", ")",
    ];

    snag_test(&tokens_1);
    check_test(&tokens_1);
    lookahead_test(&tokens_1);
}

fn snag_test(tokens: &Vec<&str>) {
    let mut p = Parser::new(TEST_1);
    for token in tokens.iter() {
        assert_eq!(*token, p.snag().unwrap().as_str());
    }
    assert!(p.finished());
}

fn check_test(tokens: &Vec<&str>) {
    let mut p2 = Parser::new(TEST_1);
    for token in tokens.iter() {
        p2.check(*token).unwrap();
    }
    assert!(p2.finished());
}

fn lookahead_test(tokens: &Vec<&str>) {
    let mut p = Parser::new(TEST_1);
    for i in 0..tokens.len() - 1 {
        assert_eq!(tokens[i], p.token().unwrap());
        assert_eq!(tokens[i + 1], p.lookahead(1).unwrap());
        p.advance();
    }
    p.check(")").unwrap()
}

#[test]
fn snag_symbols_test() {
    let mut p = Parser::new(TEST_1);
    p.check("(").unwrap();
    p.check("+").unwrap();
    assert_eq!(p.snag_symbols().unwrap(), vec!["*", "2", "3"]);
    assert_eq!(p.snag_symbols().unwrap(), vec!["-", "5", "4"]);
    assert!(p.at_close().unwrap());
    p.check(")").unwrap();
    assert!(p.finished());
}

#[test]
fn snag_group_flat() {
    let mut p = Parser::new("(* 2 3)");
    assert_eq!(p.snag_symbols().unwrap(), vec!["*", "2", "3"]);
    assert!(p.finished());
}

#[test]
fn snag_symbols_opaque_nested() {
    // the flat extraction never recurses: nested delimiters and their
    // contents are collected as opaque symbols up to the first close
    let mut p = Parser::new("(a (b) c)");
    assert_eq!(p.snag_symbols().unwrap(), vec!["a", "(", "b"]);
    assert_eq!(p.token().unwrap(), "c");
    // and on the nested example, starting past the head symbol
    let mut q = Parser::new("(+ (* 2 3))");
    q.check("(").unwrap();
    q.check("+").unwrap();
    assert_eq!(q.snag_symbols().unwrap(), vec!["*", "2", "3"]);
    assert!(q.at_close().unwrap());
    q.check(")").unwrap();
    assert!(q.finished());
}

#[test]
fn check_mismatch_reports_expected_and_actual() {
    let mut p = Parser::new(TEST_1);
    p.check("(").unwrap();
    let err = p.check(")").unwrap_err();
    match err {
        ParseError::UnexpectedToken { expected, actual, position } => {
            assert_eq!(expected, ")");
            assert_eq!(actual, "+");
            assert_eq!(position, 1);
        }
        other => panic!("wrong error kind: {:?}", other),
    }
}

#[test]
fn lookahead_out_of_range_reports_index_and_count() {
    let p = Parser::new("a b");
    let err = p.lookahead(5).unwrap_err();
    match err {
        ParseError::OutOfRange { index, available } => {
            assert_eq!(index, 5);
            assert_eq!(available, 2);
        }
        other => panic!("wrong error kind: {:?}", other),
    }
}

#[test]
fn advance_by_runs_past_the_end() {
    let mut p = Parser::new("a b");
    p.advance_by(5);
    assert!(!p.finished());
    assert!(p.token().is_err());
    assert!(p.at_close().is_err());
    assert!(p.snag().is_err());
}

#[test]
fn errorize_wraps_an_error() {
    let r: Result<i32, ParseError> = sexpr::errorize(ParseError::OutOfRange {
        index: 5,
        available: 2,
    });
    match r.unwrap_err() {
        ParseError::OutOfRange { index, available } => {
            assert_eq!(index, 5);
            assert_eq!(available, 2);
        }
        other => panic!("wrong error kind: {:?}", other),
    }
}
