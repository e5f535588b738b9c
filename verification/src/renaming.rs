use vstd::prelude::*;
use crate::ast::{AST, Term, name_of};
use crate::model::{Lam, free_of, size_of};

verus! {

/// Why a renaming failed: the arguments are not variables, or the new name
/// collides with a binder or a free variable on the way.
#[derive(Debug)]
pub enum RenamingError {
    RenamingError(String),
    Conflict(String),
}

/// Renaming without freshening, as a partial function: every free occurrence
/// of `x` in `t` becomes `y`, and the renaming is refused — `None` — when,
/// on a path where `x` occurs free, `y` is a binder or already free in a
/// body, which would change what the term means. A term without a free `x`
/// is deliberately returned unchanged with no conflict check at all: where
/// nothing is renamed, no collision can change the term's meaning.
pub open spec fn try_rename(t: Lam, x: Seq<char>, y: Seq<char>) -> Option<Lam>
    decreases t,
{
    if !free_of(t).contains(x) {
        Some(t)
    } else {
        match t {
            Lam::Var(_) => Some(Lam::Var(y)),
            Lam::App(f, a) => match (try_rename(*f, x, y), try_rename(*a, x, y)) {
                (Some(nf), Some(na)) => Some(Lam::App(Box::new(nf), Box::new(na))),
                _ => None,
            },
            Lam::Abs(p, b) => {
                if p == y || free_of(*b).contains(y) {
                    None
                } else {
                    match try_rename(*b, x, y) {
                        Some(nb) => Some(Lam::Abs(p, Box::new(nb))),
                        None => None,
                    }
                }
            },
        }
    }
}

impl AST {
    /// Rename every free occurrence of `old_var` to `new_var`, refusing —
    /// rather than freshening — when the new name would be captured by a
    /// binder or collide with a free variable of a body it enters.
    pub fn rename(self, old_var: Term, new_var: Term) -> (res: Result<AST, RenamingError>)
        requires
            self.wf(),
        ensures
            (old_var is Var && new_var is Var) ==> (match try_rename(
                self@,
                name_of(old_var),
                name_of(new_var),
            ) {
                Some(out) => res matches Ok(r) && r.wf() && r@ == out,
                None => res matches Err(e) && e is Conflict,
            }),
            !(old_var is Var && new_var is Var) ==> (res matches Err(e) && e is RenamingError),
        decreases size_of(self@),
    {
        let ghost sv = self@;
        let ghost x = name_of(old_var);
        let ghost y = name_of(new_var);
        match (&old_var, &new_var) {
            (Term::Var(_), Term::Var(_)) => {},
            _ => {
                return Err(
                    RenamingError::RenamingError("both ends of a renaming must be variables".to_owned()),
                );
            },
        }
        if !self.free_vars.contains(&old_var) {
            return Ok(self);
        }
        match self.term {
            Term::Var(_) => {
                match new_var {
                    Term::Var(s) => Ok(AST::var(s)),
                    _ => unreached(),
                }
            },
            Term::Apply(f, a) => {
                proof {
                    assert(f.wf() && a.wf());
                    assert(sv == Lam::App(Box::new(f@), Box::new(a@)));
                }
                let new_f = match (*f).rename(old_var.clone(), new_var.clone()) {
                    Ok(v) => v,
                    Err(e) => {
                        return Err(e);
                    },
                };
                let new_a = match (*a).rename(old_var, new_var) {
                    Ok(v) => v,
                    Err(e) => {
                        return Err(e);
                    },
                };
                Ok(AST::apply(new_f, new_a))
            },
            Term::Abstr(param, body) => {
                proof {
                    assert(param.wf() && body.wf() && param.term is Var);
                    assert(sv == Lam::Abs(name_of(param.term), Box::new(body@)));
                }
                let binder_collides = match (&param.term, &new_var) {
                    (Term::Var(p), Term::Var(n)) => *p == *n,
                    _ => unreached(),
                };
                if binder_collides {
                    return Err(
                        RenamingError::Conflict("the new name is bound at an abstraction".to_owned()),
                    );
                }
                if body.free_vars.contains(&new_var) {
                    return Err(
                        RenamingError::Conflict("the new name is free in an abstraction body".to_owned()),
                    );
                }
                let new_body = match (*body).rename(old_var, new_var) {
                    Ok(v) => v,
                    Err(e) => {
                        return Err(e);
                    },
                };
                Ok(AST::abstr_var(*param, new_body))
            },
        }
    }
}

} // verus!
