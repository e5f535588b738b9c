use lambda_engine::ast::AST;
use lambda_engine::reduction::EvalOrder;
use lambda_engine::termmap::TermMap;

fn v(name: &str) -> AST {
    AST::var(name.to_string())
}

fn ab(param: AST, body: AST) -> AST {
    AST::abstr(param, body).unwrap()
}

fn identity(name: &str) -> AST {
    ab(v(name), v(name))
}

/// The self-application combinator applied to itself: no normal form.
fn omega() -> AST {
    let self_apply = ab(v("x"), AST::apply(v("x"), v("x")));
    AST::apply(self_apply.clone(), self_apply)
}

const ORDERS: [EvalOrder; 3] = [EvalOrder::Normal, EvalOrder::Applicative, EvalOrder::Lazy];

#[test]
fn beta_reduction_of_identity_application() {
    // ((\x -> x) y) reduces to y under every order
    for order in &ORDERS {
        let t = AST::apply(identity("x"), v("y"));
        let r = t.reduce(Some(order));
        assert!(r.equals(&v("y")));
    }
}

#[test]
fn default_order_is_normal() {
    let t = AST::apply(identity("x"), v("y"));
    let r = t.reduce(None);
    assert!(r.equals(&v("y")));
}

#[test]
fn orders_agree_on_terminating_terms() {
    // ((\x -> \y -> x) a) b reduces to a under every order
    let mut results: Vec<AST> = Vec::new();
    for order in &ORDERS {
        let selector = ab(v("x"), ab(v("y"), v("x")));
        let t = AST::apply(AST::apply(selector, v("a")), v("b"));
        let r = t.reduce(Some(order));
        assert!(r.equals(&v("a")));
        results.push(r);
    }
    assert!(results[0].equals(&results[1]));
    assert!(results[1].equals(&results[2]));
    assert!(results[0].equals(&results[2]));
}

#[test]
fn reduction_is_alpha_invariant_on_equal_inputs() {
    for order in &ORDERS {
        // two alpha-equivalent redexes
        let a = AST::apply(ab(v("x"), AST::apply(v("x"), v("z"))), identity("u"));
        let b = AST::apply(ab(v("w"), AST::apply(v("w"), v("z"))), identity("t"));
        assert!(a.equals(&b));
        let ra = a.reduce(Some(order));
        let rb = b.reduce(Some(order));
        assert!(ra.equals(&rb));
    }
}

#[test]
fn nested_redexes_reach_normal_form() {
    // (\f -> f (f y)) (\x -> x) reduces to y
    for order in &ORDERS {
        let t = AST::apply(
            ab(v("f"), AST::apply(v("f"), AST::apply(v("f"), v("y")))),
            identity("x"),
        );
        let r = t.reduce(Some(order));
        assert!(r.equals(&v("y")));
    }
}

#[test]
fn normal_order_discards_an_unused_diverging_argument() {
    // (\x -> y) omega terminates under normal order
    let t = AST::apply(ab(v("x"), v("y")), omega());
    let (r, done) = t.reduce_within(Some(&EvalOrder::Normal), 1000);
    assert!(done);
    assert!(r.equals(&v("y")));
}

#[test]
fn self_application_does_not_terminate_within_a_step_budget() {
    // omega never reaches a normal form: the loop must still be running when
    // the external step budget is exhausted
    for order in [EvalOrder::Normal, EvalOrder::Applicative] {
        let (r, done) = omega().reduce_within(Some(&order), 1000);
        assert!(!done);
        assert!(r.is_reducible);
    }
}

#[test]
fn lazy_order_detects_the_self_application_fixed_point() {
    // under the lazy order the memo notices that reducing omega reproduces a
    // term already seen, and reduction stops on that signal with the redex
    // still present
    let (r, done) = omega().reduce_within(Some(&EvalOrder::Lazy), 1000);
    assert!(done);
    assert!(r.is_reducible);
    assert!(r.equals(&omega()));
}

#[test]
fn applicative_order_diverges_where_normal_order_does_not() {
    // (\x -> y) omega: applicative order reduces the argument first and
    // never finishes within the budget
    let t = AST::apply(ab(v("x"), v("y")), omega());
    let (r, done) = t.reduce_within(Some(&EvalOrder::Applicative), 1000);
    assert!(!done);
    assert!(r.is_reducible);
}

#[test]
fn termmap_lookup_is_up_to_alpha_equivalence() {
    let map = TermMap::new();
    assert!(!map.contains(&identity("x")));
    let map = map.with(identity("x"), v("q"));
    // a structurally identical key is found
    assert!(map.contains(&identity("x")));
    // an alpha-equivalent key is found too
    assert!(map.contains(&identity("y")));
    let got = map.get(identity("y"));
    assert!(got.equals(&v("q")));
    // an absent key comes back unchanged
    let missing = map.get(v("z"));
    assert!(missing.equals(&v("z")));
}

#[test]
fn reducing_a_normal_form_changes_nothing() {
    for order in &ORDERS {
        let t = ab(v("x"), AST::apply(v("x"), v("y")));
        let r = t.clone().reduce(Some(order));
        assert!(r.equals(&t));
        assert!(!r.is_reducible);
    }
}

#[test]
fn termmap_with_replaces_an_equivalent_binding() {
    let map = TermMap::new().with(identity("x"), v("old"));
    let map = map.with(identity("y"), v("new"));
    let got = map.get(identity("z"));
    assert!(got.equals(&v("new")));
}

#[test]
fn termmap_find_distinguishes_hit_and_miss() {
    let map = TermMap::new().with(identity("x"), v("q"));
    // an alpha-equivalent key hits and yields the stored value
    let hit = map.find(&identity("y"));
    assert!(hit.is_some());
    assert!(hit.unwrap().equals(&v("q")));
    // an absent key yields nothing
    assert!(map.find(&v("z")).is_none());
}

#[test]
fn termmap_record_appends_without_replacing() {
    let map = TermMap::new().record(identity("x"), v("old"));
    let map = map.record(identity("y"), v("new"));
    // the earlier entry is still the first hit
    let got = map.get(identity("z"));
    assert!(got.equals(&v("old")));
}

#[test]
fn termmap_extension_carries_both_sides() {
    let left = TermMap::new().with(v("a"), v("b"));
    let right = TermMap::new().with(identity("x"), v("c"));
    let both = left.extended_with(right);
    assert!(both.contains(&v("a")));
    assert!(both.contains(&identity("z")));
    assert!(both.get(v("a")).equals(&v("b")));
    assert!(both.get(identity("w")).equals(&v("c")));
}
