use lambda_engine::alpha::AlphaConvError;
use lambda_engine::ast::{AST, Term};
use lambda_engine::varmap::VarMap;
use lambda_engine::varset::VarSet;

fn v(name: &str) -> AST {
    AST::var(name.to_string())
}

fn ab(param: AST, body: AST) -> AST {
    AST::abstr(param, body).unwrap()
}

fn identity(name: &str) -> AST {
    ab(v(name), v(name))
}

#[test]
fn equals_is_reflexive() {
    let samples = [
        v("x"),
        identity("x"),
        AST::apply(ab(v("x"), AST::apply(v("x"), v("y"))), v("z")),
        ab(v("x"), ab(v("y"), AST::apply(v("x"), v("y")))),
        // a name both free and bound in the same term
        AST::apply(identity("x"), v("x")),
        // shadowing: \x -> \x -> x
        ab(v("x"), ab(v("x"), v("x"))),
    ];
    for t in samples {
        assert!(t.equals(&t));
    }
}

#[test]
fn equals_accepts_renamed_binders() {
    assert!(identity("x").equals(&identity("y")));
    let a = ab(v("x"), ab(v("y"), AST::apply(v("x"), v("y"))));
    let b = ab(v("u"), ab(v("w"), AST::apply(v("u"), v("w"))));
    assert!(a.equals(&b));
}

#[test]
fn equals_rejects_different_free_variables() {
    assert!(!v("x").equals(&v("y")));
    let a = ab(v("x"), AST::apply(v("x"), v("y")));
    let b = ab(v("x"), AST::apply(v("x"), v("z")));
    assert!(!a.equals(&b));
}

#[test]
fn equals_rejects_swapped_binder_structure() {
    // \x -> \y -> x  is not  \x -> \y -> y
    let a = ab(v("x"), ab(v("y"), v("x")));
    let b = ab(v("x"), ab(v("y"), v("y")));
    assert!(!a.equals(&b));
}

#[test]
fn equals_is_symmetric() {
    let pairs = [
        (identity("x"), identity("y")),
        (v("x"), v("y")),
        (AST::apply(v("x"), v("y")), AST::apply(v("x"), v("y"))),
        (
            ab(v("x"), ab(v("y"), v("x"))),
            ab(v("x"), ab(v("y"), v("y"))),
        ),
    ];
    for (a, b) in pairs {
        assert_eq!(a.equals(&b), b.equals(&a));
    }
}

#[test]
fn equals_is_transitive_on_equal_terms() {
    let a = identity("x");
    let b = identity("y");
    let c = identity("z");
    assert!(a.equals(&b));
    assert!(b.equals(&c));
    assert!(a.equals(&c));
}

#[test]
fn alpha_convert_returns_this_side_structure() {
    let a = identity("x");
    let b = identity("y");
    let converted = a.alpha_convert(b).unwrap();
    // the conversion rebuilds the left-hand term
    assert!(converted.equals(&a));
}

#[test]
fn alpha_convert_reports_shape_mismatch() {
    let a = AST::apply(v("x"), v("x"));
    // same free variables, different shape
    let b = ab(v("q"), AST::apply(v("x"), v("x")));
    assert!(matches!(a.alpha_convert(b), Err(AlphaConvError::StructureError(_))));
}

#[test]
fn alpha_convert_reports_variable_mismatch() {
    let a = v("x");
    let b = v("y");
    assert!(matches!(a.alpha_convert(b), Err(AlphaConvError::VariablesError(_))));
}

#[test]
fn alpha_variant_is_alpha_equivalent() {
    let t = ab(v("x"), AST::apply(v("x"), v("y")));
    let variant = t.alpha_variant();
    assert!(t.equals(&variant));
    // the binder was actually renamed away from x
    assert!(!variant.binding_vars.contains(&Term::Var("x".to_string())));
}

#[test]
fn alpha_variant_keeps_a_free_name_that_is_also_a_binder() {
    // in (\x -> x) x the name x is free and a binder at once: the variant
    // renames only the binder, so the free x must survive
    let t = AST::apply(ab(v("x"), v("x")), v("x"));
    let variant = t.alpha_variant();
    assert!(variant.free_vars.contains(&Term::Var("x".to_string())));
    assert!(!variant.binding_vars.contains(&Term::Var("x".to_string())));
    assert!(t.equals(&variant));
}

#[test]
fn alpha_variant_renames_nested_binders_apart() {
    let t = ab(v("x"), ab(v("x"), AST::apply(v("x"), v("y"))));
    let variant = t.alpha_variant();
    assert!(t.equals(&variant));
    assert!(variant.free_vars.contains(&Term::Var("y".to_string())));
    assert!(!variant.binding_vars.contains(&Term::Var("x".to_string())));
}

#[test]
fn remap_exchanges_names_both_ways() {
    let first = VarSet::new().with(Term::Var("a".to_string()));
    let second = VarSet::new().with(Term::Var("x".to_string()));
    let map = VarMap::from_sets(first, second);
    // the mapping is bidirectional: x -> a and a -> x
    assert!(matches!(map.get(Term::Var("x".to_string())), Term::Var(s) if s == "a"));
    assert!(matches!(map.get(Term::Var("a".to_string())), Term::Var(s) if s == "x"));
    assert!(matches!(map.get(Term::Var("q".to_string())), Term::Var(s) if s == "q"));
    let t = ab(v("x"), v("x"));
    let remapped = t.clone().remap(map);
    assert!(remapped.binding_vars.contains(&Term::Var("a".to_string())));
    assert!(remapped.equals(&t));
}
