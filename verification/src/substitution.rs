use vstd::prelude::*;
use crate::ast::{AST, Term, name_of};
use crate::model::{Lam, free_of, is_subst, size_of, skeleton_of, vars_of};

verus! {

/// How a substitution can be refused: the target of the replacement is not a
/// variable, or a capture conflict could not be resolved (the fresh-rename
/// path makes the latter unreachable; the variant names the failure mode the
/// design guards against).
#[derive(Debug)]
pub enum SubstitutionError {
    NotAVariable(String),
    BindingConflict(String),
}

impl AST {
    /// The validation run before any substitution work: refuse a non-variable
    /// target, and return the term unchanged — sharing its structure — when
    /// the target does not occur free in it.
    pub fn check_substitution(&self, var: &Term, term: &AST) -> (r: Result<
        Option<AST>,
        SubstitutionError,
    >)
        requires
            self.wf(),
        ensures
            r is Err <==> !(*var is Var),
            r matches Err(e) ==> e is NotAVariable,
            r matches Ok(Some(t)) ==> t.wf() && t@ == self@,
            (r matches Ok(Some(t))) <==> (*var is Var && !free_of(self@).contains(name_of(*var))),
            (r matches Ok(None)) <==> (*var is Var && free_of(self@).contains(name_of(*var))),
    {
        match var {
            Term::Var(_) => {
                if !self.free_vars.contains(var) {
                    Ok(Some(self.clone()))
                } else {
                    Ok(None)
                }
            },
            _ => Err(
                SubstitutionError::NotAVariable("substitution target must be a variable".to_owned()),
            ),
        }
    }

    /// Replace every free occurrence of the variable `var` in this term by
    /// `term`, renaming binders to fresh names wherever a free variable of
    /// `term` would otherwise be captured.
    pub fn substitute(self, var: Term, term: AST) -> (res: Result<AST, SubstitutionError>)
        requires
            self.wf(),
            term.wf(),
        ensures
            !(var is Var) ==> (res matches Err(e) && e is NotAVariable),
            var is Var ==> (res matches Ok(out) && {
                &&& out.wf()
                &&& is_subst(self@, name_of(var), term@, out@)
                &&& free_of(out@) == (if free_of(self@).contains(name_of(var)) {
                    free_of(self@).remove(name_of(var)).union(free_of(term@))
                } else {
                    free_of(self@)
                })
                &&& !free_of(self@).contains(name_of(var)) ==> out@ == self@
                &&& term@ == Lam::Var(name_of(var)) ==> out@ == self@
                &&& term@ is Var ==> size_of(out@) == size_of(self@)
                &&& term@ is Var ==> skeleton_of(out@) == skeleton_of(self@)
            }),
        decreases size_of(self@),
    {
        let ghost sv = self@;
        let ghost x = name_of(var);
        match self.check_substitution(&var, &term) {
            Err(e) => {
                return Err(e);
            },
            Ok(Some(unchanged)) => {
                return Ok(unchanged);
            },
            Ok(None) => {},
        }
        // From here on `var` is a variable occurring free in `self`.
        match self.term {
            Term::Var(_) => {
                proof {
                    assert(sv matches Lam::Var(n) && n == x);
                    assert(free_of(sv) =~= set![x]);
                    assert(free_of(sv).remove(x).union(free_of(term@)) =~= free_of(term@));
                }
                Ok(term)
            },
            Term::Apply(f, a) => {
                let ghost fv = f@;
                let ghost av = a@;
                let lhs = match (*f).substitute(var.clone(), term.clone()) {
                    Ok(v) => v,
                    Err(_) => {
                        return unreached();
                    },
                };
                let rhs = match (*a).substitute(var, term) {
                    Ok(v) => v,
                    Err(_) => {
                        return unreached();
                    },
                };
                let out = AST::apply(lhs, rhs);
                proof {
                    assert(sv == Lam::App(Box::new(fv), Box::new(av)));
                    assert(free_of(sv) == free_of(fv).union(free_of(av)));
                    assert(free_of(out@) =~= free_of(sv).remove(x).union(free_of(term@)));
                }
                Ok(out)
            },
            Term::Abstr(param, body) => {
                let ghost p = name_of(param.term);
                let ghost bv = body@;
                proof {
                    assert(param.wf() && body.wf() && param.term is Var);
                    assert(sv == Lam::Abs(p, Box::new(bv)));
                    assert(free_of(sv) == free_of(bv).remove(p));
                    assert(x != p);
                    assert(free_of(bv).contains(x));
                }
                if term.free_vars.contains(&param.term) {
                    // The binder would capture a free variable of the
                    // replacement: rename it to a fresh identifier first.
                    let pool = body.all_vars().union(param.free_vars.clone()).union(
                        term.free_vars.clone(),
                    );
                    let fresh_var = AST::fresh(pool);
                    let ghost fr = name_of(fresh_var.term);
                    proof {
                        assert(!vars_of(bv).contains(fr));
                        assert(fr != p);
                        assert(!free_of(term@).contains(fr));
                        assert(x != fr);
                    }
                    let renamed_body = match (*body).substitute(
                        param.term.clone(),
                        fresh_var.clone(),
                    ) {
                        Ok(v) => v,
                        Err(_) => {
                            return unreached();
                        },
                    };
                    let ghost rnv = renamed_body@;
                    let new_body = match renamed_body.substitute(var, term) {
                        Ok(v) => v,
                        Err(_) => {
                            return unreached();
                        },
                    };
                    let ghost nbv = new_body@;
                    let out = AST::abstr_var(fresh_var, new_body);
                    proof {
                        assert(out@ == Lam::Abs(fr, Box::new(nbv)));
                        crate::model::lemma_is_subst_rename(p, bv, x, term@, fr, rnv, nbv);
                        assert(is_subst(sv, x, term@, out@));
                        // the free variables of the result
                        if free_of(bv).contains(p) {
                            assert(free_of(rnv) =~= free_of(bv).remove(p).insert(fr)) by {
                                assert(free_of(Lam::Var(fr)) =~= set![fr]);
                                assert(free_of(rnv) == free_of(bv).remove(p).union(
                                    free_of(Lam::Var(fr)),
                                ));
                            }
                            assert(free_of(rnv).contains(x));
                            assert(free_of(nbv) == free_of(rnv).remove(x).union(free_of(term@)));
                            assert(free_of(out@) =~= free_of(sv).remove(x).union(free_of(term@)));
                        } else {
                            assert(rnv == bv);
                            assert(free_of(nbv) == free_of(bv).remove(x).union(free_of(term@)));
                            assert(free_of(sv) =~= free_of(bv));
                            assert(free_of(out@) =~= free_of(sv).remove(x).union(free_of(term@)));
                        }
                        // the replacement cannot be the substituted variable
                        // itself here: its free variable equals the binder,
                        // yet the target is free under that binder
                        assert(term@ == Lam::Var(x) ==> false) by {
                            if term@ == Lam::Var(x) {
                                assert(free_of(term@) =~= set![x]);
                                assert(p == x);
                            }
                        }
                    }
                    Ok(out)
                } else {
                    let new_body = match (*body).substitute(var, term) {
                        Ok(v) => v,
                        Err(_) => {
                            return unreached();
                        },
                    };
                    let ghost nbv = new_body@;
                    let out = AST::abstr_var(*param, new_body);
                    proof {
                        assert(out@ == Lam::Abs(p, Box::new(nbv)));
                        assert(!free_of(term@).contains(p));
                        assert(free_of(nbv) == free_of(bv).remove(x).union(free_of(term@)));
                        assert(free_of(out@) =~= free_of(sv).remove(x).union(free_of(term@)));
                        if term@ == Lam::Var(x) {
                            assert(nbv == bv);
                            assert(out@ == sv);
                        }
                    }
                    Ok(out)
                }
            },
        }
    }
}

} // verus!
