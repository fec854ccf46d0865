use regexp::engine::{eval, supports_backtracking};
use regexp::matcher::Matcher;
use regexp::parser::parse;
use regexp::scanner::{tokenize, Scanner, SyntaxError, SyntaxErrorKind, Token, TokenType};
use regexp::syntax::{Expr, Quantifier};

fn err(kind: SyntaxErrorKind, position: usize) -> SyntaxError {
    SyntaxError { kind, position }
}

#[test]
fn unbalanced_open_parenthesis() {
    assert_eq!(parse("(a").unwrap_err(), err(SyntaxErrorKind::UnbalancedOpen, 0));
    assert_eq!(parse("x((a)").unwrap_err(), err(SyntaxErrorKind::UnbalancedOpen, 1));
}

#[test]
fn unbalanced_close_parenthesis() {
    assert_eq!(parse("a)").unwrap_err(), err(SyntaxErrorKind::UnbalancedClose, 1));
}

#[test]
fn dangling_escape() {
    assert_eq!(parse("a\\").unwrap_err(), err(SyntaxErrorKind::DanglingEscape, 1));
}

#[test]
fn quantifier_with_nothing_before() {
    assert_eq!(parse("*a").unwrap_err(), err(SyntaxErrorKind::NothingToRepeat, 0));
    assert_eq!(parse("a**").unwrap_err(), err(SyntaxErrorKind::NothingToRepeat, 2));
    assert_eq!(parse("(|*)").unwrap_err(), err(SyntaxErrorKind::NothingToRepeat, 2));
}

#[test]
fn construction_reports_the_message() {
    let msg = Matcher::new("(a", "").err().unwrap();
    assert_eq!(msg, "unbalanced (: it is never closed\n(a\n^");
    let msg = Matcher::new("ab)", "").err().unwrap();
    assert_eq!(msg, "unbalanced ): it closes nothing\nab)\n  ^");
    let e = err(SyntaxErrorKind::NothingToRepeat, 1);
    assert_eq!(e.message("a++"), "nothing to repeat before the quantifier\na++\n ^");
}

#[test]
fn scanner_yields_tokens_with_offsets() {
    let mut s = Scanner::new("a\\*b");
    assert_eq!(s.get_source_string(), "a\\*b");
    let c = |value| TokenType::Character { value };
    assert_eq!(s.next(), Ok(Some(Token { token_type: c('a'), position: 0 })));
    assert_eq!(s.next(), Ok(Some(Token { token_type: c('*'), position: 1 })));
    assert_eq!(s.next(), Ok(Some(Token { token_type: c('b'), position: 3 })));
    assert_eq!(s.next(), Ok(None));
    let ts = tokenize("\\a(.)|+?").unwrap();
    let kinds: Vec<TokenType> = ts.iter().map(|t| t.token_type).collect();
    assert_eq!(
        kinds,
        vec![
            c('\\'),
            c('a'),
            TokenType::LeftParen,
            TokenType::Dot,
            TokenType::RightParen,
            TokenType::Pipe,
            TokenType::Plus,
            TokenType::Mark,
        ]
    );
    let mut open = Scanner::new("(");
    assert_eq!(open.next(), Ok(Some(Token { token_type: TokenType::LeftParen, position: 0 })));
    assert_eq!(open.next(), Err(err(SyntaxErrorKind::UnbalancedOpen, 0)));
}

#[test]
fn tree_shapes() {
    assert!(matches!(parse("").unwrap(), Expr::Empty));
    assert!(matches!(
        parse("a?").unwrap(),
        Expr::Character { value: Some('a'), quantifier: Quantifier::ZeroOrOne }
    ));
    match parse("ab|(c)*").unwrap() {
        Expr::Alternation { children } => {
            assert_eq!(children.len(), 2);
            assert!(matches!(&children[0], Expr::Concatenation { children } if children.len() == 2));
            assert!(matches!(&children[1], Expr::Group { quantifier: Quantifier::ZeroOrMore, .. }));
        }
        other => panic!("unexpected tree {:?}", other),
    }
    match parse("(|)").unwrap() {
        Expr::Group { child, quantifier: Quantifier::Single } => {
            assert!(matches!(*child, Expr::Alternation { ref children } if children.len() == 2));
        }
        other => panic!("unexpected tree {:?}", other),
    }
}

#[test]
fn interpreter_respects_the_bound() {
    let tree = parse("a*").unwrap();
    let target: Vec<char> = "aaa".chars().collect();
    assert_eq!(eval(&tree, &target, 0, 3), Some(3));
    assert_eq!(eval(&tree, &target, 0, 2), Some(2));
    assert_eq!(eval(&tree, &target, 1, 1), Some(1));
    assert!(supports_backtracking(&tree));
    assert!(!supports_backtracking(&parse("ab|c").unwrap()));
    assert!(supports_backtracking(&parse("a(b|c?)").unwrap()));
    let plus = parse("a+").unwrap();
    assert_eq!(eval(&plus, &target, 0, 0), None);
}
