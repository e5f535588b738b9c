use vstd::prelude::*;
use crate::ast::{AST, Term, name_of};
use crate::model::{Lam, alpha_eq, alpha_witness, free_of, is_subst, size_of, skeleton_of};

verus! {

/// Why an alpha conversion failed: a substitution step was refused, the two
/// terms have different shapes, or their variables cannot be matched up.
/// The substitution case is never produced here — renaming a binder to a
/// well-formed variable cannot fail — and remains only to name that former
/// failure mode.
#[derive(Debug)]
pub enum AlphaConvError {
    SubstitutionError(String),
    StructureError(String),
    VariablesError(String),
}

/// Two terms have the same root shape: both variables, both abstractions,
/// or both applications.
pub open spec fn same_shape(a: Lam, b: Lam) -> bool {
    &&& a is Var <==> b is Var
    &&& a is Abs <==> b is Abs
    &&& a is App <==> b is App
}

impl AST {
    /// Try to convert `other` into an alpha variant of `self`: the two terms
    /// are alpha-equivalent exactly when this succeeds, and the value
    /// returned is then structurally identical to `self`, rebuilt binder by
    /// binder from `other` by renaming.
    ///
    /// Free variables are rigid: if the two free-variable sets differ the
    /// terms cannot be equivalent and conversion fails at once.
    pub fn alpha_convert(&self, other: AST) -> (r: Result<AST, AlphaConvError>)
        requires
            self.wf(),
            other.wf(),
        ensures
            r matches Ok(c) ==> c.wf() && c@ == self@ && free_of(self@) == free_of(other@),
            r is Ok ==> alpha_eq(self@, other@),
            r is Ok ==> skeleton_of(self@) == skeleton_of(other@),
            self@ == other@ ==> (r matches Ok(c) && c@ == self@),
            free_of(self@) != free_of(other@) ==> (r matches Err(e) && e is VariablesError),
            (free_of(self@) == free_of(other@) && !same_shape(self@, other@)) ==> (r matches Err(e)
                && e is StructureError),
            (self@ is Var && other@ is Var) ==> (r is Ok <==> self@ == other@),
        decreases size_of(other@),
    {
        let ghost og = other;
        // Fast path: differing free variables are conclusive.
        let mismatch = self.free_vars.clone().symmetric_difference(other.free_vars.clone());
        if !mismatch.is_empty() {
            proof {
                assert(free_of(self@) != free_of(other@)) by {
                    if free_of(self@) == free_of(other@) {
                        assert(free_of(self@).difference(free_of(other@)).union(
                            free_of(other@).difference(free_of(self@)),
                        ) =~= Set::<Seq<char>>::empty());
                    }
                }
            }
            return Err(
                AlphaConvError::VariablesError("the free variables of the terms differ".to_owned()),
            );
        }
        proof {
            assert(free_of(self@) =~= free_of(other@)) by {
                assert forall|n: Seq<char>|
                    free_of(self@).contains(n) <==> free_of(other@).contains(n) by {
                    if free_of(self@).contains(n) != free_of(other@).contains(n) {
                        assert(free_of(self@).difference(free_of(other@)).union(
                            free_of(other@).difference(free_of(self@)),
                        ).contains(n));
                    }
                }
            }
        }
        match (&self.term, other.term) {
            (Term::Var(s), Term::Var(d)) => {
                if *s == d {
                    proof {
                        assert(alpha_eq(self@, og@));
                    }
                    Ok(AST::var(d))
                } else {
                    Err(
                        AlphaConvError::VariablesError(
                            "free variables at a leaf do not match".to_owned(),
                        ),
                    )
                }
            },
            (Term::Abstr(param, body), Term::Abstr(other_param, other_body)) => {
                proof {
                    assert(param.wf() && body.wf() && param.term is Var);
                    assert(other_param.wf() && other_body.wf() && other_param.term is Var);
                    assert(self@ == Lam::Abs(name_of(param.term), Box::new(body@)));
                    assert(og@ == Lam::Abs(name_of(other_param.term), Box::new(other_body@)));
                }
                // Rename the other binder to this one throughout the other
                // body, then compare the bodies.
                let replacement = (**param).clone();
                proof {
                    assert(replacement@ == Lam::Var(name_of(param.term)));
                }
                let renamed = match (*other_body).substitute(other_param.term.clone(), replacement) {
                    Ok(v) => v,
                    Err(_) => {
                        return unreached();
                    },
                };
                let ghost rnv = renamed@;
                match (&**body).alpha_convert(renamed) {
                    Err(e) => Err(e),
                    Ok(converted) => {
                        let c = AST::abstr_var((**param).clone(), converted);
                        proof {
                            assert(c@ == self@);
                            assert(alpha_eq(self@, og@)) by {
                                assert(alpha_witness(rnv) && size_of(rnv) == size_of(other_body@)
                                    && is_subst(
                                    other_body@,
                                    name_of(other_param.term),
                                    Lam::Var(name_of(param.term)),
                                    rnv,
                                ) && alpha_eq(body@, rnv));
                            }
                        }
                        Ok(c)
                    },
                }
            },
            (Term::Apply(f, a), Term::Apply(other_f, other_a)) => {
                proof {
                    assert(f.wf() && a.wf() && other_f.wf() && other_a.wf());
                    assert(self@ == Lam::App(Box::new(f@), Box::new(a@)));
                    assert(og@ == Lam::App(Box::new(other_f@), Box::new(other_a@)));
                }
                let lhs = match (&**f).alpha_convert(*other_f) {
                    Ok(v) => v,
                    Err(e) => {
                        return Err(e);
                    },
                };
                let rhs = match (&**a).alpha_convert(*other_a) {
                    Ok(v) => v,
                    Err(e) => {
                        return Err(e);
                    },
                };
                let c = AST::apply(lhs, rhs);
                proof {
                    assert(c@ == self@);
                    assert(free_of(self@) == free_of(og@));
                    assert(alpha_eq(self@, og@));
                }
                Ok(c)
            },
            _ => {
                proof {
                    assert(self.term is Var <==> self@ is Var);
                    assert(self.term is Abstr <==> self@ is Abs);
                    assert(self.term is Apply <==> self@ is App);
                    assert(og.term is Var <==> og@ is Var);
                    assert(og.term is Abstr <==> og@ is Abs);
                    assert(og.term is Apply <==> og@ is App);
                    assert(self@ != og@);
                }
                Err(AlphaConvError::StructureError("the shapes of the terms differ".to_owned()))
            },
        }
    }

    /// Alpha-equivalence, the equality relation on terms: two terms are equal
    /// exactly when each can be converted into the other by renaming bound
    /// variables. The relation is reflexive — structurally identical terms
    /// always compare equal — and equal terms have equal free variables.
    pub fn equals(&self, other: &AST) -> (r: bool)
        requires
            self.wf(),
            other.wf(),
        ensures
            self@ == other@ ==> r,
            r ==> alpha_eq(self@, other@),
            r ==> free_of(self@) == free_of(other@),
            r ==> skeleton_of(self@) == skeleton_of(other@),
            (free_of(self@) == free_of(other@) && !same_shape(self@, other@)) ==> !r,
            (self@ is Var && other@ is Var) ==> (r <==> self@ == other@),
    {
        let forward = self.alpha_convert(other.clone());
        let backward = other.alpha_convert(self.clone());
        match (forward, backward) {
            (Ok(_), Ok(_)) => true,
            _ => false,
        }
    }
}

} // verus!
