use lambda_engine::ast::{AST, Term};
use lambda_engine::renaming::RenamingError;
use lambda_engine::substitution::SubstitutionError;

fn v(name: &str) -> AST {
    AST::var(name.to_string())
}

fn ab(param: AST, body: AST) -> AST {
    AST::abstr(param, body).unwrap()
}

fn var_term(name: &str) -> Term {
    Term::Var(name.to_string())
}

#[test]
fn substituting_a_variable_by_itself_changes_nothing() {
    let samples = [
        v("x"),
        ab(v("y"), AST::apply(v("x"), v("y"))),
        AST::apply(ab(v("x"), v("x")), v("x")),
        ab(v("x"), v("x")),
    ];
    for t in samples {
        let copy = t.clone();
        let result = t.substitute(var_term("x"), v("x")).unwrap();
        assert!(result.equals(&copy));
    }
}

#[test]
fn substituting_an_absent_variable_changes_nothing() {
    let t = ab(v("y"), AST::apply(v("z"), v("y")));
    let copy = t.clone();
    let replacement = AST::apply(v("a"), v("b"));
    let result = t.substitute(var_term("x"), replacement).unwrap();
    assert!(result.equals(&copy));
}

#[test]
fn substitution_replaces_free_occurrences() {
    // (x x)[x := \z -> z]  is  ((\z -> z) (\z -> z))
    let t = AST::apply(v("x"), v("x"));
    let id = ab(v("z"), v("z"));
    let result = t.substitute(var_term("x"), id.clone()).unwrap();
    let expected = AST::apply(id.clone(), id);
    assert!(result.equals(&expected));
}

#[test]
fn substitution_respects_shadowing() {
    // (\x -> x)[x := y] leaves the abstraction alone: the x inside is bound
    let t = ab(v("x"), v("x"));
    let copy = t.clone();
    let result = t.substitute(var_term("x"), v("y")).unwrap();
    assert!(result.equals(&copy));
}

#[test]
fn substitution_avoids_capture() {
    // t = \y -> (x y), r = y: substituting x by y must NOT produce
    // \y -> (y y); the binder is renamed so the free y stays free.
    let t = ab(v("y"), AST::apply(v("x"), v("y")));
    let result = t.substitute(var_term("x"), v("y")).unwrap();

    let wrong = ab(v("y"), AST::apply(v("y"), v("y")));
    assert!(!result.equals(&wrong));

    // the result is alpha-equivalent to \w -> (y w) for a fresh name w
    let expected = ab(v("w"), AST::apply(v("y"), v("w")));
    assert!(result.equals(&expected));

    // and y is still free in the result
    assert!(result.free_vars.contains(&var_term("y")));
}

#[test]
fn substitution_handles_target_bound_elsewhere() {
    // t = (\x -> x) x with x both free and binding; [x := y] rewrites only
    // the free occurrence.
    let t = AST::apply(ab(v("x"), v("x")), v("x"));
    let result = t.substitute(var_term("x"), v("y")).unwrap();
    let expected = AST::apply(ab(v("x"), v("x")), v("y"));
    assert!(result.equals(&expected));
}

#[test]
fn substitution_refuses_a_non_variable_target() {
    let t = v("x");
    let target = Term::Apply(Box::new(v("a")), Box::new(v("b")));
    let result = t.substitute(target, v("y"));
    assert!(matches!(result, Err(SubstitutionError::NotAVariable(_))));
}

#[test]
fn check_substitution_distinguishes_the_cases() {
    let t = AST::apply(v("x"), v("y"));
    let r = v("z");
    // target absent: done, the term itself
    let done = t.check_substitution(&var_term("q"), &r).unwrap();
    assert!(done.is_some());
    assert!(done.unwrap().equals(&AST::apply(v("x"), v("y"))));
    // target present: more work to do
    let open = t.check_substitution(&var_term("x"), &r).unwrap();
    assert!(open.is_none());
    // target not a variable: refused
    let bad = Term::Apply(Box::new(v("a")), Box::new(v("b")));
    assert!(matches!(t.check_substitution(&bad, &r), Err(SubstitutionError::NotAVariable(_))));
}

#[test]
fn rename_changes_free_occurrences() {
    let t = AST::apply(v("x"), ab(v("z"), v("x")));
    let result = t.rename(var_term("x"), var_term("w")).unwrap();
    let expected = AST::apply(v("w"), ab(v("z"), v("w")));
    assert!(result.equals(&expected));
}

#[test]
fn rename_reports_a_conflicting_binder() {
    // renaming x to y under \y would capture it
    let t = ab(v("y"), AST::apply(v("x"), v("y")));
    let result = t.rename(var_term("x"), var_term("y"));
    assert!(matches!(result, Err(RenamingError::Conflict(_))));
}

#[test]
fn rename_refuses_non_variables() {
    let t = v("x");
    let bad = Term::Apply(Box::new(v("a")), Box::new(v("b")));
    let result = t.rename(bad, var_term("y"));
    assert!(matches!(result, Err(RenamingError::RenamingError(_))));
}
