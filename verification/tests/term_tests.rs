use lambda_engine::ast::{AST, ConstructionError, Term};
use lambda_engine::varset::VarSet;

fn v(name: &str) -> AST {
    AST::var(name.to_string())
}

fn ab(param: AST, body: AST) -> AST {
    AST::abstr(param, body).unwrap()
}

fn var_term(name: &str) -> Term {
    Term::Var(name.to_string())
}

#[test]
fn variable_has_itself_free() {
    let t = v("x");
    assert!(t.free_vars.contains(&var_term("x")));
    assert!(!t.free_vars.contains(&var_term("y")));
    assert!(t.binding_vars.is_empty());
    assert!(!t.is_reducible);
}

#[test]
fn abstraction_removes_parameter_from_free_variables() {
    // \x -> x y : free = {y}, binders = {x}
    let t = ab(v("x"), AST::apply(v("x"), v("y")));
    assert!(!t.free_vars.contains(&var_term("x")));
    assert!(t.free_vars.contains(&var_term("y")));
    assert!(t.binding_vars.contains(&var_term("x")));
    assert!(!t.binding_vars.contains(&var_term("y")));
    assert!(!t.is_reducible);
}

#[test]
fn abstraction_refuses_a_non_variable_parameter() {
    let bad_param = AST::apply(v("a"), v("b"));
    let result = AST::abstr(bad_param, v("x"));
    assert!(matches!(result, Err(ConstructionError::NotAVariable(_))));
}

#[test]
fn application_unites_free_variables() {
    let t = AST::apply(v("a"), v("b"));
    assert!(t.free_vars.contains(&var_term("a")));
    assert!(t.free_vars.contains(&var_term("b")));
    assert!(!t.is_reducible);
}

#[test]
fn redex_is_reducible() {
    let t = AST::apply(ab(v("x"), v("x")), v("y"));
    assert!(t.is_reducible);
    let under = ab(v("z"), t);
    assert!(under.is_reducible);
}

#[test]
fn free_variables_match_a_manual_recount() {
    // ((\x -> x y) x) z : free = {x, y, z}, binders = {x}
    let t = AST::apply(
        AST::apply(ab(v("x"), AST::apply(v("x"), v("y"))), v("x")),
        v("z"),
    );
    for name in ["x", "y", "z"] {
        assert!(t.free_vars.contains(&var_term(name)));
    }
    assert!(t.binding_vars.contains(&var_term("x")));
    assert!(!t.binding_vars.contains(&var_term("y")));
    let bound = t.bound_vars();
    assert!(bound.contains(&var_term("x")));
    assert!(!bound.contains(&var_term("y")));
    let all = t.all_vars();
    for name in ["x", "y", "z"] {
        assert!(all.contains(&var_term(name)));
    }
}

#[test]
fn varset_union_holds_both_sides() {
    let a = VarSet::new().with(var_term("a")).with(var_term("b"));
    let b = VarSet::new().with(var_term("b")).with(var_term("c"));
    let u = a.union(b);
    assert!(u.contains(&var_term("a")));
    assert!(u.contains(&var_term("b")));
    assert!(u.contains(&var_term("c")));
    assert!(!u.contains(&var_term("d")));
}

#[test]
fn varset_intersection_holds_common_names() {
    let a = VarSet::new().with(var_term("a")).with(var_term("b"));
    let b = VarSet::new().with(var_term("b")).with(var_term("c"));
    let i = a.intersection(b);
    assert!(!i.contains(&var_term("a")));
    assert!(i.contains(&var_term("b")));
    assert!(!i.contains(&var_term("c")));
}

#[test]
fn varset_difference_is_order_sensitive() {
    let a = VarSet::new().with(var_term("a")).with(var_term("b"));
    let b = VarSet::new().with(var_term("b")).with(var_term("c"));
    let d1 = a.clone().difference(b.clone());
    assert!(d1.contains(&var_term("a")));
    assert!(!d1.contains(&var_term("b")));
    assert!(!d1.contains(&var_term("c")));
    let d2 = b.difference(a);
    assert!(d2.contains(&var_term("c")));
    assert!(!d2.contains(&var_term("a")));
}

#[test]
fn varset_symmetric_difference_is_commutative() {
    let a = VarSet::new().with(var_term("a")).with(var_term("b"));
    let b = VarSet::new().with(var_term("b")).with(var_term("c"));
    let s1 = a.clone().symmetric_difference(b.clone());
    let s2 = b.symmetric_difference(a);
    for name in ["a", "c"] {
        assert!(s1.contains(&var_term(name)));
        assert!(s2.contains(&var_term(name)));
    }
    assert!(!s1.contains(&var_term("b")));
    assert!(!s2.contains(&var_term("b")));
}

#[test]
fn varset_without_removes_one_name() {
    let a = VarSet::new().with(var_term("a")).with(var_term("b"));
    let r = a.without(var_term("a"));
    assert!(!r.contains(&var_term("a")));
    assert!(r.contains(&var_term("b")));
}

#[test]
fn varset_empty_and_nonempty() {
    assert!(VarSet::new().is_empty());
    assert!(!VarSet::new().with(var_term("a")).is_empty());
}

#[test]
fn varset_zip_pairs_names_positionally() {
    let a = VarSet::new().with(var_term("a")).with(var_term("b"));
    let b = VarSet::new().with(var_term("p"));
    let pairs = a.zip(&b);
    assert_eq!(pairs.len(), 1);
    assert!(matches!(&pairs[0].0, Term::Var(s) if s == "a"));
    assert!(matches!(&pairs[0].1, Term::Var(s) if s == "p"));
}

#[test]
fn varset_fresh_set_is_disjoint_and_equal_sized() {
    let a = VarSet::new().with(var_term("a")).with(var_term("b")).with(var_term("c"));
    let f = a.fresh_set();
    assert!(!f.is_empty());
    for name in ["a", "b", "c"] {
        assert!(!f.contains(&var_term(name)));
    }
}
