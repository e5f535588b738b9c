use vstd::prelude::*;
use crate::ast::{AST, Term, name_of};
use crate::model::{Lam, size_of};
use crate::model::{alpha_eq, alpha_witness, binders_of, free_of, is_subst, vars_of};
use crate::varmap::{VarMap, map_name};
use crate::varset::VarSet;

verus! {

/// The term with every variable name — free, bound and binding alike —
/// replaced by what the map sends it to.
pub open spec fn remap_of(t: Lam, entries: Seq<(Seq<char>, Seq<char>)>) -> Lam
    decreases t,
{
    match t {
        Lam::Var(s) => Lam::Var(map_name(entries, s)),
        Lam::Abs(p, b) => Lam::Abs(map_name(entries, p), Box::new(remap_of(*b, entries))),
        Lam::App(f, a) => Lam::App(
            Box::new(remap_of(*f, entries)),
            Box::new(remap_of(*a, entries)),
        ),
    }
}

impl AST {
    /// Replace every variable name in the term by what the map sends it to.
    pub fn remap(self, var_map: VarMap) -> (r: AST)
        requires
            self.wf(),
        ensures
            r.wf(),
            r@ == remap_of(self@, var_map.entries()),
        decreases size_of(self@),
    {
        let ghost sv = self@;
        match self.term {
            Term::Var(_) => {
                let mapped = var_map.get(self.term);
                match mapped {
                    Term::Var(s) => {
                        let r = AST::var(s);
                        proof {
                            assert(r@ == Lam::Var(map_name(var_map.entries(), name_of(self.term))));
                        }
                        r
                    },
                    _ => unreached(),
                }
            },
            Term::Abstr(param, body) => {
                proof {
                    assert(param.wf() && body.wf() && param.term is Var);
                    assert(sv == Lam::Abs(name_of(param.term), Box::new(body@)));
                    assert(param@ == Lam::Var(name_of(param.term)));
                    assert(size_of(param@) == 1 && size_of(sv) == 1 + size_of(body@));
                }
                let new_param = (*param).remap(var_map.clone());
                proof {
                    assert(new_param@ == Lam::Var(map_name(var_map.entries(), name_of(param.term))));
                    assert(new_param.term is Var <==> new_param@ is Var);
                }
                let new_body = (*body).remap(var_map);
                let r = AST::abstr_var(new_param, new_body);
                proof {
                    assert(r@ == remap_of(sv, var_map.entries()));
                }
                r
            },
            Term::Apply(f, arg) => {
                proof {
                    assert(f.wf() && arg.wf());
                    assert(sv == Lam::App(Box::new(f@), Box::new(arg@)));
                }
                let new_f = (*f).remap(var_map.clone());
                let new_arg = (*arg).remap(var_map);
                let r = AST::apply(new_f, new_arg);
                proof {
                    assert(r@ == remap_of(sv, var_map.entries()));
                }
                r
            },
        }
    }

    /// Rebuild the term with every binder on the way renamed to a fresh
    /// identifier absent from `pool` and from the subterm it binds over; the
    /// free variables are untouched.
    fn freshen(self, pool: VarSet) -> (r: AST)
        requires
            self.wf(),
            pool.wf(),
        ensures
            r.wf(),
            free_of(r@) == free_of(self@),
            binders_of(r@).disjoint(pool@),
            alpha_eq(r@, self@),
        decreases size_of(self@),
    {
        let ghost sv = self@;
        match self.term {
            Term::Var(s) => {
                let r = AST::var(s);
                proof {
                    assert(binders_of(r@) =~= Set::<Seq<char>>::empty());
                    assert(binders_of(r@).disjoint(pool@));
                    assert(alpha_eq(r@, sv));
                }
                r
            },
            Term::Apply(f, a) => {
                proof {
                    assert(f.wf() && a.wf());
                    assert(sv == Lam::App(Box::new(f@), Box::new(a@)));
                }
                let nf = (*f).freshen(pool.clone());
                let na = (*a).freshen(pool);
                let r = AST::apply(nf, na);
                proof {
                    assert(free_of(r@) =~= free_of(sv));
                    assert(binders_of(r@).disjoint(pool@)) by {
                        assert(binders_of(r@) == binders_of(nf@).union(binders_of(na@)));
                    }
                    assert(alpha_eq(r@, sv));
                }
                r
            },
            Term::Abstr(param, body) => {
                let ghost p = name_of(param.term);
                let ghost bv = body@;
                proof {
                    assert(param.wf() && body.wf() && param.term is Var);
                    assert(sv == Lam::Abs(p, Box::new(bv)));
                    assert(free_of(sv) == free_of(bv).remove(p));
                }
                let exclusion = pool.clone().union(body.all_vars()).union(
                    param.free_vars.clone(),
                );
                let fresh_var = AST::fresh(exclusion);
                let ghost fr = name_of(fresh_var.term);
                proof {
                    assert(!pool@.contains(fr));
                    assert(!vars_of(bv).contains(fr));
                    assert(fr != p);
                }
                let pool_term = fresh_var.term.clone();
                let renamed = match (*body).substitute(param.term.clone(), fresh_var.clone()) {
                    Ok(v) => v,
                    Err(_) => {
                        return unreached();
                    },
                };
                let ghost rnv = renamed@;
                proof {
                    if free_of(bv).contains(p) {
                        assert(free_of(rnv) =~= free_of(bv).remove(p).insert(fr)) by {
                            assert(free_of(Lam::Var(fr)) =~= set![fr]);
                            assert(free_of(rnv) == free_of(bv).remove(p).union(
                                free_of(Lam::Var(fr)),
                            ));
                        }
                    }
                }
                let inner_pool = pool.with(pool_term);
                let new_body = renamed.freshen(inner_pool);
                let r = AST::abstr_var(fresh_var, new_body);
                proof {
                    assert(r@ == Lam::Abs(fr, Box::new(new_body@)));
                    assert(free_of(r@) == free_of(rnv).remove(fr));
                    assert(free_of(r@) =~= free_of(sv));
                    assert(binders_of(r@) == binders_of(new_body@).insert(fr));
                    assert(binders_of(r@).disjoint(pool@)) by {
                        assert(binders_of(new_body@).disjoint(pool@.insert(fr)));
                    }
                    assert(alpha_eq(r@, sv)) by {
                        assert(alpha_witness(rnv) && size_of(rnv) == size_of(bv) && is_subst(
                            bv,
                            p,
                            Lam::Var(fr),
                            rnv,
                        ) && alpha_eq(new_body@, rnv));
                    }
                }
                r
            },
        }
    }

    /// An alpha variant of the term: every binder inside it consistently
    /// renamed to a fresh identifier absent from all of the term's names,
    /// free occurrences left exactly as they are. The result has the same
    /// free variables and none of its binders collides with any name of the
    /// input.
    pub fn alpha_variant(&self) -> (r: AST)
        requires
            self.wf(),
        ensures
            r.wf(),
            alpha_eq(r@, self@),
            free_of(r@) == free_of(self@),
            binders_of(r@).disjoint(vars_of(self@)),
    {
        self.clone().freshen(self.all_vars())
    }
}

} // verus!
