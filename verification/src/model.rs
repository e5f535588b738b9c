use vstd::prelude::*;

verus! {

/// The mathematical form of a lambda term: a variable name is a sequence of
/// characters, an abstraction carries the bound name directly, and an
/// application holds its function and argument.
pub ghost enum Lam {
    Var(Seq<char>),
    Abs(Seq<char>, Box<Lam>),
    App(Box<Lam>, Box<Lam>),
}

/// The set of variable names occurring free in `t`: a name is free when it is
/// not shadowed by an enclosing abstraction of the same name.
pub open spec fn free_of(t: Lam) -> Set<Seq<char>>
    decreases t,
{
    match t {
        Lam::Var(s) => set![s],
        Lam::Abs(p, b) => free_of(*b).remove(p),
        Lam::App(f, a) => free_of(*f).union(free_of(*a)),
    }
}

/// The set of names used as the parameter of some abstraction anywhere in `t`.
pub open spec fn binders_of(t: Lam) -> Set<Seq<char>>
    decreases t,
{
    match t {
        Lam::Var(_) => Set::empty(),
        Lam::Abs(p, b) => binders_of(*b).insert(p),
        Lam::App(f, a) => binders_of(*f).union(binders_of(*a)),
    }
}

/// Every name appearing in `t`, free or as a binder.
pub open spec fn vars_of(t: Lam) -> Set<Seq<char>> {
    free_of(t).union(binders_of(t))
}

/// Whether `t` contains a candidate redex: an application whose function
/// position is an abstraction, or a subterm that does.
pub open spec fn reducible_of(t: Lam) -> bool
    decreases t,
{
    match t {
        Lam::Var(_) => false,
        Lam::Abs(_, b) => reducible_of(*b),
        Lam::App(f, a) => *f is Abs || reducible_of(*f) || reducible_of(*a),
    }
}

/// The number of nodes of `t`; renaming a variable never changes it.
pub open spec fn size_of(t: Lam) -> nat
    decreases t,
{
    match t {
        Lam::Var(_) => 1,
        Lam::Abs(_, b) => 1 + size_of(*b),
        Lam::App(f, a) => 1 + size_of(*f) + size_of(*a),
    }
}

/// The name-free shape of a term: every identifier erased. Alpha-equivalent
/// terms have equal skeletons, and renaming a variable never changes one.
pub open spec fn skeleton_of(t: Lam) -> Lam
    decreases t,
{
    match t {
        Lam::Var(_) => Lam::Var(Seq::empty()),
        Lam::Abs(_, b) => Lam::Abs(Seq::empty(), Box::new(skeleton_of(*b))),
        Lam::App(f, a) => Lam::App(Box::new(skeleton_of(*f)), Box::new(skeleton_of(*a))),
    }
}

/// A marker that names a candidate witness triple for the renamed-binder
/// case of `is_subst`; it carries no condition of its own and only gives the
/// existential below a stable shape.
pub open spec fn subst_witness(fr: Seq<char>, b1: Lam, b2: Lam) -> bool {
    true
}

/// Capture-avoiding substitution as a relation: `out` is a correct result of
/// replacing every free occurrence of `x` in `t` by `r`. Where a binder must
/// be renamed, any fresh name absent from the names of the body, the binder
/// and the replacement's free variables is allowed: `b1` is the body with the
/// binder renamed, `b2` the result of the substitution proper in it.
pub open spec fn is_subst(t: Lam, x: Seq<char>, r: Lam, out: Lam) -> bool
    decreases size_of(t),
{
    if !free_of(t).contains(x) {
        out == t
    } else {
        match t {
            Lam::Var(_) => out == r,
            Lam::App(f, a) => {
                &&& out matches Lam::App(f2, a2)
                &&& is_subst(*f, x, r, *f2)
                &&& is_subst(*a, x, r, *a2)
            },
            Lam::Abs(p, b) => {
                if free_of(r).contains(p) {
                    exists|fr: Seq<char>, b1: Lam, b2: Lam|
                        {
                            &&& #[trigger] subst_witness(fr, b1, b2)
                            &&& !vars_of(*b).contains(fr)
                            &&& fr != p
                            &&& !free_of(r).contains(fr)
                            &&& size_of(b1) == size_of(*b)
                            &&& is_subst(*b, p, Lam::Var(fr), b1)
                            &&& is_subst(b1, x, r, b2)
                            &&& out == Lam::Abs(fr, Box::new(b2))
                        }
                } else {
                    &&& out matches Lam::Abs(p2, b2)
                    &&& p2 == p
                    &&& is_subst(*b, x, r, *b2)
                }
            },
        }
    }
}

/// Introduction form of the renaming case of `is_subst`: a binder renamed to
/// a fresh name, followed by the substitution proper in the renamed body, is
/// a correct capture-avoiding substitution on the abstraction.
pub proof fn lemma_is_subst_rename(
    p: Seq<char>,
    b: Lam,
    x: Seq<char>,
    r: Lam,
    fr: Seq<char>,
    b1: Lam,
    b2: Lam,
)
    requires
        free_of(Lam::Abs(p, Box::new(b))).contains(x),
        free_of(r).contains(p),
        !vars_of(b).contains(fr),
        fr != p,
        !free_of(r).contains(fr),
        size_of(b1) == size_of(b),
        is_subst(b, p, Lam::Var(fr), b1),
        is_subst(b1, x, r, b2),
    ensures
        is_subst(Lam::Abs(p, Box::new(b)), x, r, Lam::Abs(fr, Box::new(b2))),
{
    let t = Lam::Abs(p, Box::new(b));
    let out = Lam::Abs(fr, Box::new(b2));
    assert(subst_witness(fr, b1, b2) && out == Lam::Abs(fr, Box::new(b2)));
    assert(is_subst(t, x, r, out));
}

/// A marker that names a candidate renamed body for the binder case of
/// `alpha_eq`; it carries no condition of its own and only gives the
/// existential below a stable shape.
pub open spec fn alpha_witness(rb: Lam) -> bool {
    true
}

/// Alpha-equivalence of two terms: they have the same free variables and the
/// same structure once the right-hand binders are renamed, binder by binder,
/// onto the left-hand ones by capture-avoiding substitution. Two variables
/// are equivalent exactly when they are the same name; two applications when
/// their parts are; two abstractions when the right body, with its binder
/// renamed to the left one, is equivalent to the left body.
pub open spec fn alpha_eq(a: Lam, b: Lam) -> bool
    decreases size_of(b),
{
    &&& free_of(a) == free_of(b)
    &&& match (a, b) {
        (Lam::Var(x), Lam::Var(y)) => x == y,
        (Lam::App(f1, a1), Lam::App(f2, a2)) => alpha_eq(*f1, *f2) && alpha_eq(*a1, *a2),
        (Lam::Abs(p, b1), Lam::Abs(q, b2)) => exists|rb: Lam|
            {
                &&& #[trigger] alpha_witness(rb)
                &&& size_of(rb) == size_of(*b2)
                &&& is_subst(*b2, q, Lam::Var(p), rb)
                &&& alpha_eq(*b1, rb)
            },
        _ => false,
    }
}

/// Alpha-equivalence is reflexive: every term is equivalent to itself, with
/// the identity renaming witnessing each binder.
pub proof fn lemma_alpha_eq_reflexive(t: Lam)
    ensures
        alpha_eq(t, t),
    decreases size_of(t),
{
    match t {
        Lam::Var(_) => {},
        Lam::App(f, a) => {
            lemma_alpha_eq_reflexive(*f);
            lemma_alpha_eq_reflexive(*a);
        },
        Lam::Abs(p, b) => {
            lemma_substitution_identity(*b, p);
            lemma_alpha_eq_reflexive(*b);
            assert(alpha_witness(*b) && size_of(*b) == size_of(*b) && is_subst(
                *b,
                p,
                Lam::Var(p),
                *b,
            ) && alpha_eq(*b, *b));
        },
    }
}

/// Substituting a variable by itself changes nothing: `t` is a correct
/// result of replacing `x` by the variable `x` in `t`, for every term.
pub proof fn lemma_substitution_identity(t: Lam, x: Seq<char>)
    ensures
        is_subst(t, x, Lam::Var(x), t),
    decreases size_of(t),
{
    if free_of(t).contains(x) {
        match t {
            Lam::Var(s) => {
                assert(s == x);
            },
            Lam::App(f, a) => {
                lemma_substitution_identity(*f, x);
                lemma_substitution_identity(*a, x);
            },
            Lam::Abs(p, b) => {
                assert(free_of(t) == free_of(*b).remove(p));
                assert(p != x);
                assert(free_of(Lam::Var(x)) =~= set![x]);
                assert(!free_of(Lam::Var(x)).contains(p));
                lemma_substitution_identity(*b, x);
            },
        }
    }
}

/// Substituting for a variable that does not occur free changes nothing:
/// `t` is a correct result of the substitution, whatever the replacement.
pub proof fn lemma_substitution_absent(t: Lam, x: Seq<char>, r: Lam)
    requires
        !free_of(t).contains(x),
    ensures
        is_subst(t, x, r, t),
{
}

} // verus!
