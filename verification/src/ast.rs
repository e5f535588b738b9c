use vstd::prelude::*;
use crate::generator::{VarGen, var_name, lemma_candidates_bound};
use crate::model::{Lam, free_of, binders_of, reducible_of, vars_of};
use crate::varset::VarSet;

verus! {

/// Why building a term was refused: the parameter position of an
/// abstraction can only hold a variable.
#[derive(Debug)]
pub enum ConstructionError {
    NotAVariable(String),
}

/// Why evaluating source text failed: the text could not be tokenized, or
/// the token stream could not be parsed.
#[derive(Debug)]
pub enum EvalError {
    TokenizationError(String),
    ParsingError(String),
}

/// The three shapes of a lambda term: a variable, an abstraction of a
/// parameter over a body, and an application of a function to an argument.
#[derive(Debug)]
pub enum Term {
    Var(String),
    Abstr(Box<AST>, Box<AST>),
    Apply(Box<AST>, Box<AST>),
}

/// A lambda term together with data derived once at construction and never
/// recomputed: its free variables, the identifiers used as binders anywhere
/// inside it, and whether it still holds a candidate redex.
#[derive(Debug)]
pub struct AST {
    pub term: Term,
    pub free_vars: VarSet,
    pub binding_vars: VarSet,
    pub is_reducible: bool,
}

/// The identifier of a variable term; meaningful only for the `Var` shape.
pub open spec fn name_of(t: Term) -> Seq<char> {
    match t {
        Term::Var(s) => s@,
        _ => Seq::empty(),
    }
}

/// The mathematical term a `Term` stands for, with every cached attribute
/// stripped away.
pub open spec fn lam_of(t: Term) -> Lam
    decreases t,
{
    match t {
        Term::Var(s) => Lam::Var(s@),
        Term::Abstr(p, b) => Lam::Abs(name_of(p.term), Box::new(lam_of(b.term))),
        Term::Apply(f, a) => Lam::App(Box::new(lam_of(f.term)), Box::new(lam_of(a.term))),
    }
}

/// Structural well-formedness: every abstraction parameter is a variable
/// term, and every nested node carries correct cached attributes.
pub open spec fn term_wf(t: Term) -> bool
    decreases t,
{
    match t {
        Term::Var(_) => true,
        Term::Abstr(p, b) => p.term is Var && p.wf() && b.wf(),
        Term::Apply(f, a) => f.wf() && a.wf(),
    }
}

impl View for AST {
    type V = Lam;

    open spec fn view(&self) -> Lam {
        lam_of(self.term)
    }
}

impl AST {
    /// The cached attributes agree with a full structural recount, here and
    /// in every subterm, and every abstraction parameter is a variable.
    pub open spec fn wf(self) -> bool
        decreases self,
    {
        &&& term_wf(self.term)
        &&& self.free_vars.wf()
        &&& self.binding_vars.wf()
        &&& self.free_vars@ == free_of(self@)
        &&& self.binding_vars@ == binders_of(self@)
        &&& self.is_reducible == reducible_of(self@)
    }
}

/// The free-variable invariant: on a well-formed term the cached
/// free-variable, binder and reducibility attributes agree exactly with a
/// full structural recount, here written as the recursive functions over the
/// term's mathematical form.
pub proof fn lemma_cached_attributes(t: AST)
    requires
        t.wf(),
    ensures
        t.free_vars@ == free_of(t@),
        t.binding_vars@ == binders_of(t@),
        t.is_reducible == reducible_of(t@),
{
}

fn clone_term(t: &Term) -> (r: Term)
    ensures
        lam_of(r) == lam_of(*t),
        r is Var <==> *t is Var,
        *t matches Term::Var(s) ==> r == *t,
        term_wf(*t) ==> term_wf(r),
    decreases *t,
{
    match t {
        Term::Var(s) => Term::Var(s.clone()),
        Term::Abstr(p, b) => Term::Abstr(Box::new(clone_ast(p)), Box::new(clone_ast(b))),
        Term::Apply(f, a) => Term::Apply(Box::new(clone_ast(f)), Box::new(clone_ast(a))),
    }
}

fn clone_ast(a: &AST) -> (r: AST)
    ensures
        r@ == a@,
        r.term is Var <==> a.term is Var,
        r.free_vars.names() == a.free_vars.names(),
        r.binding_vars.names() == a.binding_vars.names(),
        r.is_reducible == a.is_reducible,
        a.wf() ==> r.wf(),
    decreases *a,
{
    AST {
        term: clone_term(&a.term),
        free_vars: a.free_vars.clone(),
        binding_vars: a.binding_vars.clone(),
        is_reducible: a.is_reducible,
    }
}

impl Clone for Term {
    /// The clone stands for the same mathematical term.
    fn clone(&self) -> (r: Self)
        ensures
            lam_of(r) == lam_of(*self),
            r is Var <==> *self is Var,
            *self matches Term::Var(s) ==> r == *self,
            term_wf(*self) ==> term_wf(r),
    {
        clone_term(self)
    }
}

impl Clone for AST {
    /// The clone stands for the same mathematical term, carries equal cached
    /// attributes, and stays well-formed.
    fn clone(&self) -> (r: Self)
        ensures
            r@ == self@,
            r.term is Var <==> self.term is Var,
            r.free_vars.names() == self.free_vars.names(),
            r.binding_vars.names() == self.binding_vars.names(),
            r.is_reducible == self.is_reducible,
            self.wf() ==> r.wf(),
    {
        clone_ast(self)
    }
}

impl AST {
    /// Build a variable term; it is its own single free variable, binds
    /// nothing and holds no redex.
    pub fn var(s: String) -> (r: AST)
        ensures
            r.wf(),
            r@ == Lam::Var(s@),
            r.term is Var,
    {
        let free_vars = VarSet::new().with(Term::Var(s.clone()));
        let binding_vars = VarSet::new();
        let term = Term::Var(s);
        let r = AST { term, free_vars, binding_vars, is_reducible: false };
        proof {
            assert(free_of(r@) =~= Set::<Seq<char>>::empty().insert(s@));
            assert(binders_of(r@) =~= Set::<Seq<char>>::empty());
        }
        r
    }

    /// Build an abstraction from a parameter already known to be a variable
    /// term. Its free variables are the body's less the parameter; its
    /// binders are the parameter plus the body's.
    pub(crate) fn abstr_var(param: AST, body: AST) -> (r: AST)
        requires
            param.wf(),
            body.wf(),
            param.term is Var,
        ensures
            r.wf(),
            r@ == Lam::Abs(name_of(param.term), Box::new(body@)),
            r.is_reducible == reducible_of(body@),
    {
        let free_vars = body.free_vars.clone().without(param.term.clone());
        let binding_vars = VarSet::new().with(param.term.clone()).union(
            body.binding_vars.clone(),
        );
        let is_reducible = body.is_reducible;
        let ghost pv = param@;
        let ghost bv = body@;
        let r = AST {
            term: Term::Abstr(Box::new(param), Box::new(body)),
            free_vars,
            binding_vars,
            is_reducible,
        };
        proof {
            assert(r@ == Lam::Abs(name_of(r.term->Abstr_0.term), Box::new(bv)));
            assert(free_of(r@) =~= free_of(bv).remove(name_of(r.term->Abstr_0.term)));
            assert(binders_of(r@) =~= Set::<Seq<char>>::empty().insert(
                name_of(r.term->Abstr_0.term),
            ).union(binders_of(bv)));
        }
        r
    }

    /// Build an abstraction. The parameter must itself be a variable term;
    /// any other shape is refused with a typed construction error, never a
    /// crash.
    pub fn abstr(param: AST, body: AST) -> (r: Result<AST, ConstructionError>)
        requires
            param.wf(),
            body.wf(),
        ensures
            r is Ok <==> param.term is Var,
            r matches Ok(t) ==> t.wf() && t@ == Lam::Abs(name_of(param.term), Box::new(body@))
                && t.is_reducible == reducible_of(body@),
            r matches Err(e) ==> e is NotAVariable,
    {
        match &param.term {
            Term::Var(_) => Ok(AST::abstr_var(param, body)),
            _ => Err(
                ConstructionError::NotAVariable(
                    "an abstraction parameter must be a variable".to_owned(),
                ),
            ),
        }
    }

    /// Build an application; its free variables and binders are the unions of
    /// the parts', and it is reducible when the function position is an
    /// abstraction or either part is reducible.
    pub fn apply(f: AST, arg: AST) -> (r: AST)
        requires
            f.wf(),
            arg.wf(),
        ensures
            r.wf(),
            r@ == Lam::App(Box::new(f@), Box::new(arg@)),
    {
        let free_vars = f.free_vars.clone().union(arg.free_vars.clone());
        let binding_vars = f.binding_vars.clone().union(arg.binding_vars.clone());
        let is_reducible = match &f.term {
            Term::Abstr(_, _) => true,
            _ => f.is_reducible || arg.is_reducible,
        };
        let ghost fv = f@;
        let ghost av = arg@;
        let r = AST { term: Term::Apply(Box::new(f), Box::new(arg)), free_vars, binding_vars, is_reducible };
        proof {
            assert(r@ == Lam::App(Box::new(fv), Box::new(av)));
            assert(fv is Abs <==> lam_of(r.term->Apply_0.term) is Abs);
        }
        r
    }

    /// A variable term whose identifier is guaranteed absent from `varset`:
    /// the first candidate of the deterministic name enumeration that the
    /// set does not hold.
    pub fn fresh(varset: VarSet) -> (r: AST)
        requires
            varset.wf(),
        ensures
            r.wf(),
            r.term is Var,
            r@ == Lam::Var(name_of(r.term)),
            !varset@.contains(name_of(r.term)),
            exists|k: nat|
                name_of(r.term) == var_name(k) && (forall|m: nat|
                    m < k ==> varset@.contains(#[trigger] var_name(m))),
    {
        proof {
            varset.lemma_card();
        }
        let mut candidates = VarGen::new();
        let mut name = candidates.next();
        let mut taken = varset.contains_name(&name);
        while taken
            invariant
                varset.wf(),
                varset@.finite(),
                candidates.wf(),
                candidates.position() >= 1,
                name@ == var_name((candidates.position() - 1) as nat),
                taken == varset@.contains(name@),
                forall|m: nat|
                    m < candidates.position() - 1 ==> varset@.contains(#[trigger] var_name(m)),
                candidates.position() <= varset@.len() + 1,
            decreases varset@.len() + 1 - candidates.position(),
        {
            proof {
                assert(varset@.contains(var_name((candidates.position() - 1) as nat)));
                assert(forall|m: nat|
                    m < candidates.position() ==> varset@.contains(#[trigger] var_name(m)));
                lemma_candidates_bound(varset@, candidates.position());
            }
            name = candidates.next();
            taken = varset.contains_name(&name);
        }
        AST::var(name)
    }

    /// Evaluate source text into a term: tokenize it, parse the tokens, and
    /// hand back exactly the term the token stream parses to; either
    /// front-end failure is wrapped and returned unrecovered.
    pub fn eval(input: &str) -> (r: Result<AST, EvalError>)
        ensures
            r matches Ok(t) ==> t.wf() && crate::parser::spec_parse(
                crate::lexer::tokens_for(
                    crate::lexer::regex_matches(crate::lexer::token_pattern_view(), input@),
                ),
            ) == Some(t@),
            (r matches Err(e) && e is TokenizationError) <==> !crate::lexer::regex_compiles(
                crate::lexer::token_pattern_view(),
            ),
            (r matches Err(e) && e is ParsingError) <==> (crate::lexer::regex_compiles(
                crate::lexer::token_pattern_view(),
            ) && crate::parser::spec_parse(
                crate::lexer::tokens_for(
                    crate::lexer::regex_matches(crate::lexer::token_pattern_view(), input@),
                ),
            ) is None),
    {
        let tokens = match crate::lexer::tokenize(input) {
            Ok(t) => t,
            Err(e) => {
                return Err(EvalError::TokenizationError(crate::lexer::regex_error_text(&e)));
            },
        };
        proof {
            assert(crate::parser::token_views(tokens@) == crate::lexer::tokens_for(
                crate::lexer::regex_matches(crate::lexer::token_pattern_view(), input@),
            ));
        }
        match crate::parser::parse(&tokens) {
            Ok(ast) => Ok(ast),
            Err(e) => {
                let message = match e {
                    crate::parser::ParsingError::MismatchedParens(m) => m,
                    crate::parser::ParsingError::InvalidSyntax(m) => m,
                    crate::parser::ParsingError::InvalidLambda(m) => m,
                };
                Err(EvalError::ParsingError(message))
            },
        }
    }

    /// Every name occurring in the term, free or as a binder.
    pub fn all_vars(&self) -> (r: VarSet)
        requires
            self.wf(),
        ensures
            r.wf(),
            r@ == vars_of(self@),
    {
        self.free_vars.clone().union(self.binding_vars.clone())
    }

    /// The names that occur both free and as a binder somewhere in the term:
    /// exactly the ones a substitution must watch for capture.
    pub fn bound_vars(&self) -> (r: VarSet)
        requires
            self.wf(),
        ensures
            r.wf(),
            r@ == free_of(self@).intersect(binders_of(self@)),
    {
        self.free_vars.clone().intersection(self.binding_vars.clone())
    }
}

} // verus!
