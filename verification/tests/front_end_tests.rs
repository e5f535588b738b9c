use lambda_engine::ast::{AST, EvalError, Term};
use lambda_engine::generator::VarGen;
use lambda_engine::lexer::{tokenize, Token};
use lambda_engine::parser::{parse, ParsingError};
use lambda_engine::reduction::EvalOrder;
use lambda_engine::varset::VarSet;

fn v(name: &str) -> AST {
    AST::var(name.to_string())
}

fn ab(param: AST, body: AST) -> AST {
    AST::abstr(param, body).unwrap()
}

fn var_term(name: &str) -> Term {
    Term::Var(name.to_string())
}

#[test]
fn tokenizer_splits_lexemes() {
    let tokens = tokenize("($x, y -> x y) a").unwrap();
    assert_eq!(tokens.len(), 10);
    assert!(matches!(tokens[0], Token::LParen));
    assert!(matches!(tokens[1], Token::Lambda));
    assert!(matches!(&tokens[2], Token::Var(s) if s == "x"));
    assert!(matches!(tokens[3], Token::Comma));
    assert!(matches!(&tokens[4], Token::Var(s) if s == "y"));
    assert!(matches!(tokens[5], Token::Arrow));
    assert!(matches!(&tokens[6], Token::Var(s) if s == "x"));
    assert!(matches!(&tokens[7], Token::Var(s) if s == "y"));
    assert!(matches!(tokens[8], Token::RParen));
    assert!(matches!(&tokens[9], Token::Var(s) if s == "a"));
}

#[test]
fn tokenizer_keeps_identifiers_whole() {
    // "ab" is one identifier; "a b" is two
    let one = tokenize("ab").unwrap();
    assert_eq!(one.len(), 1);
    assert!(matches!(&one[0], Token::Var(s) if s == "ab"));
    let two = tokenize("a b").unwrap();
    assert_eq!(two.len(), 2);
}

#[test]
fn parser_builds_left_nested_applications() {
    let tokens = tokenize("a b c").unwrap();
    let t = parse(&tokens).unwrap();
    let expected = AST::apply(AST::apply(v("a"), v("b")), v("c"));
    assert!(t.equals(&expected));
}

#[test]
fn parser_desugars_parameter_lists() {
    let t = AST::eval("$x, y -> x y").unwrap();
    let expected = ab(v("x"), ab(v("y"), AST::apply(v("x"), v("y"))));
    assert!(t.equals(&expected));
}

#[test]
fn parser_respects_grouping() {
    let t = AST::eval("a (b c)").unwrap();
    let expected = AST::apply(v("a"), AST::apply(v("b"), v("c")));
    assert!(t.equals(&expected));
    let u = AST::eval("a b c").unwrap();
    assert!(!u.equals(&expected));
}

#[test]
fn eval_then_reduce() {
    let t = AST::eval("($x, y -> x y) ($c, d -> c d) a").unwrap();
    assert!(t.is_reducible);
    let r = t.reduce(Some(&EvalOrder::Normal));
    // ($x,y -> x y) ($c,d -> c d) a  ->  ($c,d -> c d) a  ->  $d -> a d
    let expected = ab(v("d"), AST::apply(v("a"), v("d")));
    assert!(r.equals(&expected));
}

#[test]
fn eval_reports_parsing_errors() {
    assert!(matches!(AST::eval(")"), Err(EvalError::ParsingError(_))));
    assert!(matches!(AST::eval("$x x"), Err(EvalError::ParsingError(_))));
    assert!(matches!(AST::eval("$ -> x"), Err(EvalError::ParsingError(_))));
    assert!(matches!(AST::eval("()"), Err(EvalError::ParsingError(_))));
}

#[test]
fn parser_reports_each_error_kind() {
    // a stray closing parenthesis
    let t = tokenize(")").unwrap();
    assert!(matches!(parse(&t), Err(ParsingError::MismatchedParens(_))));
    // empty parentheses
    let t = tokenize("()").unwrap();
    assert!(matches!(parse(&t), Err(ParsingError::MismatchedParens(_))));
    // two parameters with no separator
    let t = tokenize("$x x").unwrap();
    assert!(matches!(parse(&t), Err(ParsingError::InvalidSyntax(_))));
    // input ends inside a parameter list
    let t = tokenize("$").unwrap();
    assert!(matches!(parse(&t), Err(ParsingError::InvalidLambda(_))));
}

#[test]
fn generator_walks_the_candidate_names_in_order() {
    let mut gen = VarGen::new();
    let mut seen: Vec<String> = Vec::new();
    for _ in 0..28 {
        seen.push(gen.next());
    }
    assert_eq!(seen[0], "a");
    assert_eq!(seen[1], "b");
    assert_eq!(seen[25], "z");
    assert_eq!(seen[26], "aa");
    assert_eq!(seen[27], "ab");
}

#[test]
fn generator_next_char_steps_the_alphabet() {
    assert_eq!(VarGen::next_char('a'), 'b');
    assert_eq!(VarGen::next_char('y'), 'z');
}

#[test]
fn fresh_is_absent_from_the_exclusion_set() {
    let mut set = VarSet::new();
    let mut names: Vec<String> = Vec::new();
    for i in 0..40 {
        let name = format!("v{}", i);
        names.push(name.clone());
        set = set.with(Term::Var(name));
    }
    let fresh = AST::fresh(set.clone());
    assert!(!set.contains(&fresh.term));
}

#[test]
fn fresh_moves_to_longer_names_when_letters_run_out() {
    // exclude every single-letter candidate
    let mut set = VarSet::new();
    for c in b'a'..=b'z' {
        set = set.with(Term::Var((c as char).to_string()));
    }
    let fresh = AST::fresh(set.clone());
    assert!(!set.contains(&fresh.term));
    match &fresh.term {
        Term::Var(s) => assert_eq!(s, "aa"),
        _ => panic!("fresh must return a variable"),
    }
}

#[test]
fn fresh_skips_taken_candidates() {
    let set = VarSet::new().with(var_term("a")).with(var_term("b"));
    let fresh = AST::fresh(set);
    match &fresh.term {
        Term::Var(s) => assert_eq!(s, "c"),
        _ => panic!("fresh must return a variable"),
    }
}
