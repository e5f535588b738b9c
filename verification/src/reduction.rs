use vstd::prelude::*;
use crate::ast::{AST, Term, name_of};
use crate::model::{Lam, alpha_eq, free_of, is_subst, reducible_of, size_of};
use crate::termmap::TermMap;

verus! {

/// The evaluation-order policies a reduction can follow: normal order
/// reduces the leftmost-outermost redex first, applicative order reduces a
/// redex's argument to normal form before substituting it, and lazy order
/// behaves like normal order while consulting and extending a memo table of
/// already-reduced terms.
#[derive(Debug)]
pub enum EvalOrder {
    Normal,
    Applicative,
    Lazy,
}

/// One pass of beta reduction as a relation: an irreducible term stays as it
/// is; a pass on an abstraction descends into the body; an application whose
/// function position is an abstraction is a redex and is contracted by
/// capture-avoiding substitution — unless arguments come first and the
/// argument still holds a redex, in which case only the argument advances;
/// any other application descends into both sides.
pub open spec fn is_pass(t: Lam, r: Lam, argument_first: bool) -> bool
    decreases size_of(t),
{
    if !reducible_of(t) {
        r == t
    } else {
        match t {
            Lam::Var(_) => r == t,
            Lam::Abs(p, b) => {
                &&& r matches Lam::Abs(p2, b2)
                &&& p2 == p
                &&& is_pass(*b, *b2, argument_first)
            },
            Lam::App(f, a) => {
                match *f {
                    Lam::Abs(p, b) => {
                        if argument_first && reducible_of(*a) {
                            &&& r matches Lam::App(f2, a2)
                            &&& *f2 == Lam::Abs(p, b)
                            &&& is_pass(*a, *a2, argument_first)
                        } else {
                            is_subst(*b, p, *a, r)
                        }
                    },
                    _ => {
                        &&& r matches Lam::App(f2, a2)
                        &&& is_pass(*f, *f2, argument_first)
                        &&& is_pass(*a, *a2, argument_first)
                    },
                }
            },
        }
    }
}

/// A marker naming an intermediate term of a reduction chain; it carries no
/// condition and only gives the existential below a stable shape.
pub open spec fn pass_witness(m: Lam) -> bool {
    true
}

/// `r` is reached from `t` by exactly `n` passes of beta reduction.
pub open spec fn passes_to(t: Lam, r: Lam, argument_first: bool, n: nat) -> bool
    decreases n,
{
    if n == 0 {
        r == t
    } else {
        exists|m: Lam|
            #[trigger] pass_witness(m) && is_pass(t, m, argument_first) && passes_to(
                m,
                r,
                argument_first,
                (n - 1) as nat,
            )
    }
}

/// A reduction chain extends by one pass at its end.
pub proof fn lemma_passes_snoc(t: Lam, m: Lam, r: Lam, argument_first: bool, n: nat)
    requires
        passes_to(t, m, argument_first, n),
        is_pass(m, r, argument_first),
    ensures
        passes_to(t, r, argument_first, n + 1),
    decreases n,
{
    if n == 0 {
        assert(m == t);
        assert(pass_witness(r) && is_pass(t, r, argument_first) && passes_to(
            r,
            r,
            argument_first,
            0nat,
        ));
        assert(passes_to(t, r, argument_first, 1nat));
    } else {
        let mid = choose|mid: Lam|
            #[trigger] pass_witness(mid) && is_pass(t, mid, argument_first) && passes_to(
                mid,
                m,
                argument_first,
                (n - 1) as nat,
            );
        lemma_passes_snoc(mid, m, r, argument_first, (n - 1) as nat);
        assert(pass_witness(mid) && is_pass(t, mid, argument_first) && passes_to(
            mid,
            r,
            argument_first,
            n,
        ));
        assert(passes_to(t, r, argument_first, n + 1));
    }
}

/// A normal form is a fixed point of reduction: a chain of any length from
/// an irreducible term never leaves it, so reducing a reduction's finished
/// result changes nothing.
pub proof fn lemma_passes_fixed_point(t: Lam, r: Lam, argument_first: bool, n: nat)
    requires
        !reducible_of(t),
        passes_to(t, r, argument_first, n),
    ensures
        r == t,
    decreases n,
{
    if n > 0 {
        let mid = choose|mid: Lam|
            #[trigger] pass_witness(mid) && is_pass(t, mid, argument_first) && passes_to(
                mid,
                r,
                argument_first,
                (n - 1) as nat,
            );
        assert(mid == t);
        lemma_passes_fixed_point(t, r, argument_first, (n - 1) as nat);
    }
}

/// Whether an optional evaluation order reduces a redex's argument first:
/// only the applicative order does; the default order is normal.
pub open spec fn argument_first_order(order: Option<&EvalOrder>) -> bool {
    match order {
        Some(o) => *o is Applicative,
        None => false,
    }
}

/// Every value in the memo is a reduction result of its key, so its free
/// variables are among the key's.
pub open spec fn memo_inv(m: TermMap) -> bool {
    forall|i: int|
        0 <= i < m.pairs().len() ==> free_of((#[trigger] m.pairs()[i]).1@).subset_of(
            free_of(m.pairs()[i].0@),
        )
}

/// A memoized resolution: some stored pair's key is alpha-equivalent to the
/// term, and the result is exactly that pair's recorded value.
pub open spec fn lazy_hit(pairs: Seq<(AST, AST)>, t: Lam, r: Lam) -> bool {
    exists|i: int|
        0 <= i < pairs.len() && alpha_eq((#[trigger] pairs[i]).0@, t) && r == pairs[i].1@
}

/// One pass of lazy beta reduction over a memo: a reducible term may resolve
/// to the recorded result of an alpha-equivalent key among `pairs`, and
/// otherwise the pass works as in normal order — irreducible terms stay,
/// abstraction passes descend into the body, a redex is contracted by
/// capture-avoiding substitution, and other applications descend both sides.
pub open spec fn is_lazy_pass(t: Lam, r: Lam, pairs: Seq<(AST, AST)>) -> bool
    decreases size_of(t),
{
    if !reducible_of(t) {
        r == t
    } else {
        ||| lazy_hit(pairs, t, r)
        ||| match t {
            Lam::Var(_) => false,
            Lam::Abs(p, b) => {
                &&& r matches Lam::Abs(p2, b2)
                &&& p2 == p
                &&& is_lazy_pass(*b, *b2, pairs)
            },
            Lam::App(f, a) => {
                match *f {
                    Lam::Abs(p, b) => is_subst(*b, p, *a, r),
                    _ => {
                        &&& r matches Lam::App(f2, a2)
                        &&& is_lazy_pass(*f, *f2, pairs)
                        &&& is_lazy_pass(*a, *a2, pairs)
                    },
                }
            },
        }
    }
}

/// A lazy pass over a memo stays a pass over any extension of that memo.
pub proof fn lemma_lazy_pass_grows(t: Lam, r: Lam, pairs: Seq<(AST, AST)>, more: Seq<(AST, AST)>)
    requires
        is_lazy_pass(t, r, pairs),
        pairs.is_prefix_of(more),
    ensures
        is_lazy_pass(t, r, more),
    decreases size_of(t),
{
    if reducible_of(t) {
        if lazy_hit(pairs, t, r) {
            let i = choose|i: int|
                0 <= i < pairs.len() && alpha_eq((#[trigger] pairs[i]).0@, t) && r == pairs[i].1@;
            assert(more[i] == pairs[i]);
            assert(lazy_hit(more, t, r));
        } else {
            match t {
                Lam::Var(_) => {},
                Lam::Abs(p, b) => {
                    match r {
                        Lam::Abs(p2, b2) => {
                            lemma_lazy_pass_grows(*b, *b2, pairs, more);
                        },
                        _ => {},
                    }
                },
                Lam::App(f, a) => {
                    match *f {
                        Lam::Abs(p, b) => {},
                        _ => {
                            match r {
                                Lam::App(f2, a2) => {
                                    lemma_lazy_pass_grows(*f, *f2, pairs, more);
                                    lemma_lazy_pass_grows(*a, *a2, pairs, more);
                                },
                                _ => {},
                            }
                        },
                    }
                },
            }
        }
    }
}

/// `r` is reached from `t` by exactly `n` lazy passes over the memo `pairs`.
pub open spec fn lazy_passes_to(t: Lam, r: Lam, pairs: Seq<(AST, AST)>, n: nat) -> bool
    decreases n,
{
    if n == 0 {
        r == t
    } else {
        exists|m: Lam|
            #[trigger] pass_witness(m) && is_lazy_pass(t, m, pairs) && lazy_passes_to(
                m,
                r,
                pairs,
                (n - 1) as nat,
            )
    }
}

/// A lazy chain extends by one pass at its end.
pub proof fn lemma_lazy_passes_snoc(t: Lam, m: Lam, r: Lam, pairs: Seq<(AST, AST)>, n: nat)
    requires
        lazy_passes_to(t, m, pairs, n),
        is_lazy_pass(m, r, pairs),
    ensures
        lazy_passes_to(t, r, pairs, n + 1),
    decreases n,
{
    if n == 0 {
        assert(m == t);
        assert(pass_witness(r) && is_lazy_pass(t, r, pairs) && lazy_passes_to(r, r, pairs, 0nat));
        assert(lazy_passes_to(t, r, pairs, 1nat));
    } else {
        let mid = choose|mid: Lam|
            #[trigger] pass_witness(mid) && is_lazy_pass(t, mid, pairs) && lazy_passes_to(
                mid,
                m,
                pairs,
                (n - 1) as nat,
            );
        lemma_lazy_passes_snoc(mid, m, r, pairs, (n - 1) as nat);
        assert(pass_witness(mid) && is_lazy_pass(t, mid, pairs) && lazy_passes_to(mid, r, pairs, n));
        assert(lazy_passes_to(t, r, pairs, n + 1));
    }
}

/// A lazy chain over a memo stays a chain over any extension of that memo.
pub proof fn lemma_lazy_passes_grows(
    t: Lam,
    r: Lam,
    pairs: Seq<(AST, AST)>,
    more: Seq<(AST, AST)>,
    n: nat,
)
    requires
        lazy_passes_to(t, r, pairs, n),
        pairs.is_prefix_of(more),
    ensures
        lazy_passes_to(t, r, more, n),
    decreases n,
{
    if n > 0 {
        let mid = choose|mid: Lam|
            #[trigger] pass_witness(mid) && is_lazy_pass(t, mid, pairs) && lazy_passes_to(
                mid,
                r,
                pairs,
                (n - 1) as nat,
            );
        lemma_lazy_pass_grows(t, mid, pairs, more);
        lemma_lazy_passes_grows(mid, r, pairs, more, (n - 1) as nat);
        assert(pass_witness(mid) && is_lazy_pass(t, mid, more) && lazy_passes_to(
            mid,
            r,
            more,
            (n - 1) as nat,
        ));
    }
}

impl AST {
    /// Contract a redex: substitute the argument for the parameter
    /// throughout the abstraction body. The parameter is a variable by
    /// construction, so the substitution cannot fail.
    fn reduce_redex(param: AST, body: AST, arg: AST) -> (r: AST)
        requires
            param.wf(),
            body.wf(),
            arg.wf(),
            param.term is Var,
        ensures
            r.wf(),
            is_subst(body@, name_of(param.term), arg@, r@),
            free_of(r@).subset_of(free_of(body@).remove(name_of(param.term)).union(free_of(arg@))),
    {
        let r = match body.substitute(param.term.clone(), arg) {
            Ok(v) => v,
            Err(_) => {
                return unreached();
            },
        };
        proof {
            assert(free_of(r@).subset_of(
                free_of(body@).remove(name_of(param.term)).union(free_of(arg@)),
            ));
        }
        r
    }

    /// One pass of beta reduction under the normal or applicative order,
    /// exactly as the `is_pass` relation describes it: a term with no redex
    /// is returned unchanged and shares its structure; a redex whose
    /// argument the policy allows is contracted; elsewhere the pass descends
    /// into the subterms. Reduction never introduces a free variable.
    fn beta_step(self, order: &EvalOrder) -> (r: AST)
        requires
            self.wf(),
            !(*order is Lazy),
        ensures
            r.wf(),
            free_of(r@).subset_of(free_of(self@)),
            is_pass(self@, r@, *order is Applicative),
            !reducible_of(self@) ==> r == self,
        decreases size_of(self@),
    {
        let ghost sv = self@;
        let ghost af = *order is Applicative;
        if !self.is_reducible {
            return self;
        }
        match self.term {
            Term::Var(s) => {
                proof {
                    assert(reducible_of(sv));
                    assert(false);
                }
                AST::var(s)
            },
            Term::Abstr(param, body) => {
                proof {
                    assert(param.wf() && body.wf() && param.term is Var);
                    assert(sv == Lam::Abs(name_of(param.term), Box::new(body@)));
                }
                let ghost bv = body@;
                let new_body = (*body).beta_step(order);
                let r = AST::abstr_var(*param, new_body);
                proof {
                    assert(free_of(r@) =~= free_of(new_body@).remove(name_of(r.term->Abstr_0.term)));
                    assert(free_of(r@).subset_of(free_of(sv)));
                    assert(is_pass(sv, r@, af));
                }
                r
            },
            Term::Apply(f, arg) => {
                proof {
                    assert(f.wf() && arg.wf());
                    assert(sv == Lam::App(Box::new(f@), Box::new(arg@)));
                }
                let is_redex = matches!(&f.term, Term::Abstr(_, _));
                if is_redex {
                    match f.term {
                        Term::Abstr(param, body) => {
                            proof {
                                assert(param.wf() && body.wf() && param.term is Var);
                            }
                            let argument_first = matches!(order, EvalOrder::Applicative);
                            if argument_first && arg.is_reducible {
                                // applicative order first brings the
                                // argument itself to normal form
                                let ghost pn = name_of(param.term);
                                let ghost bv = body@;
                                let ghost av = arg@;
                                let stepped = (*arg).beta_step(order);
                                let r = AST::apply(AST::abstr_var(*param, *body), stepped);
                                proof {
                                    assert(free_of(r@).subset_of(free_of(sv)));
                                    assert(sv matches Lam::App(fl, al) && *fl == Lam::Abs(
                                        pn,
                                        Box::new(bv),
                                    ) && *al == av);
                                    assert(r@ matches Lam::App(f2, a2) && *f2 == Lam::Abs(
                                        pn,
                                        Box::new(bv),
                                    ) && is_pass(av, *a2, af));
                                    assert(is_pass(sv, r@, af));
                                }
                                r
                            } else {
                                let ghost pn = name_of(param.term);
                                let ghost bv = body@;
                                let ghost av = arg@;
                                proof {
                                    assert(sv matches Lam::App(fl, al) && *fl == Lam::Abs(
                                        pn,
                                        Box::new(bv),
                                    ) && *al == av);
                                }
                                let r = AST::reduce_redex(*param, *body, *arg);
                                proof {
                                    assert(free_of(sv) == free_of(bv).remove(pn).union(
                                        free_of(av),
                                    ));
                                    assert(free_of(r@).subset_of(free_of(sv)));
                                    assert(is_pass(sv, r@, af)) by {
                                        assert(reducible_of(sv));
                                        assert(!(af && reducible_of(av)));
                                        assert(is_subst(bv, pn, av, r@));
                                    }
                                }
                                r
                            }
                        },
                        _ => unreached(),
                    }
                } else {
                    proof {
                        assert(f.term is Abstr <==> f@ is Abs);
                    }
                    let f_reduced = (*f).beta_step(order);
                    let arg_reduced = (*arg).beta_step(order);
                    let r = AST::apply(f_reduced, arg_reduced);
                    proof {
                        assert(free_of(r@).subset_of(free_of(sv)));
                        assert(is_pass(sv, r@, af));
                    }
                    r
                }
            },
        }
    }

    /// One pass of beta reduction under the lazy order, exactly as the
    /// `is_lazy_pass` relation over the resulting memo describes it: a term
    /// the memo already holds resolves to its recorded result instead of
    /// being recomputed; a contracted redex is recorded; elsewhere the pass
    /// works as in normal order, threading the memo through. The memo only
    /// ever grows, by appending.
    fn lazy_beta_step(self, memo: TermMap) -> (r: (AST, TermMap))
        requires
            self.wf(),
            memo.wf(),
            memo_inv(memo),
        ensures
            r.0.wf(),
            free_of(r.0@).subset_of(free_of(self@)),
            r.1.wf(),
            memo_inv(r.1),
            memo.pairs().is_prefix_of(r.1.pairs()),
            is_lazy_pass(self@, r.0@, r.1.pairs()),
            !reducible_of(self@) ==> r.0 == self && r.1 == memo,
        decreases size_of(self@),
    {
        let ghost sv = self@;
        if !self.is_reducible {
            proof {
                assert(memo.pairs().is_prefix_of(memo.pairs()));
            }
            return (self, memo);
        }
        match memo.find(&self) {
            Some(found) => {
                proof {
                    let i = choose|i: int|
                        0 <= i < memo.pairs().len() && found@ == (#[trigger] memo.pairs()[i]).1@
                            && alpha_eq(memo.pairs()[i].0@, sv);
                    assert(free_of(memo.pairs()[i].0@) == free_of(sv));
                    assert(free_of(found@).subset_of(free_of(memo.pairs()[i].0@)));
                    assert(lazy_hit(memo.pairs(), sv, found@));
                    assert(memo.pairs().is_prefix_of(memo.pairs()));
                }
                return (found, memo);
            },
            None => {},
        }
        match self.term {
            Term::Var(s) => {
                proof {
                    assert(reducible_of(sv));
                    assert(false);
                }
                (AST::var(s), memo)
            },
            Term::Abstr(param, body) => {
                proof {
                    assert(param.wf() && body.wf() && param.term is Var);
                    assert(sv == Lam::Abs(name_of(param.term), Box::new(body@)));
                }
                let (new_body, new_memo) = (*body).lazy_beta_step(memo);
                let r = AST::abstr_var(*param, new_body);
                proof {
                    assert(free_of(r@) =~= free_of(new_body@).remove(name_of(r.term->Abstr_0.term)));
                    assert(free_of(r@).subset_of(free_of(sv)));
                    assert(is_lazy_pass(sv, r@, new_memo.pairs()));
                }
                (r, new_memo)
            },
            Term::Apply(f, arg) => {
                proof {
                    assert(f.wf() && arg.wf());
                    assert(sv == Lam::App(Box::new(f@), Box::new(arg@)));
                }
                let is_redex = matches!(&f.term, Term::Abstr(_, _));
                if is_redex {
                    match f.term {
                        Term::Abstr(param, body) => {
                            proof {
                                assert(param.wf() && body.wf() && param.term is Var);
                            }
                            // rebuild the whole redex as the memo key
                            let key = AST::apply(
                                AST::abstr_var((*param).clone(), (*body).clone()),
                                (*arg).clone(),
                            );
                            proof {
                                assert(key@ == sv);
                            }
                            let ghost pn = name_of(param.term);
                            let ghost bv = body@;
                            let ghost av = arg@;
                            let (contracted, new_memo) = key.lazy_reduce_redex(
                                memo,
                                *param,
                                *body,
                                *arg,
                            );
                            proof {
                                assert(is_subst(bv, pn, av, contracted@));
                                assert(is_lazy_pass(sv, contracted@, new_memo.pairs()));
                            }
                            (contracted, new_memo)
                        },
                        _ => unreached(),
                    }
                } else {
                    proof {
                        assert(f.term is Abstr <==> f@ is Abs);
                    }
                    let ghost fv = f@;
                    let ghost av = arg@;
                    let (f_reduced, memo_after_f) = (*f).lazy_beta_step(memo);
                    let (arg_reduced, final_memo) = (*arg).lazy_beta_step(memo_after_f);
                    let r = AST::apply(f_reduced, arg_reduced);
                    proof {
                        assert(free_of(r@).subset_of(free_of(sv)));
                        assert(memo_after_f.pairs().is_prefix_of(final_memo.pairs()));
                        assert(memo.pairs().is_prefix_of(final_memo.pairs())) by {
                            assert(memo.pairs() =~= final_memo.pairs().subrange(
                                0,
                                memo.pairs().len() as int,
                            ));
                        }
                        lemma_lazy_pass_grows(
                            fv,
                            f_reduced@,
                            memo_after_f.pairs(),
                            final_memo.pairs(),
                        );
                        assert(is_lazy_pass(sv, r@, final_memo.pairs()));
                    }
                    (r, final_memo)
                }
            },
        }
    }

    /// Contract a redex under the lazy order and record the pre-reduction
    /// term and its contractum in the memo, appended after every existing
    /// entry.
    fn lazy_reduce_redex(self, memo: TermMap, param: AST, body: AST, arg: AST) -> (r: (
        AST,
        TermMap,
    ))
        requires
            self.wf(),
            memo.wf(),
            memo_inv(memo),
            param.wf(),
            body.wf(),
            arg.wf(),
            param.term is Var,
            self@ == Lam::App(
                Box::new(Lam::Abs(name_of(param.term), Box::new(body@))),
                Box::new(arg@),
            ),
        ensures
            r.0.wf(),
            free_of(r.0@).subset_of(free_of(self@)),
            r.1.wf(),
            memo_inv(r.1),
            is_subst(body@, name_of(param.term), arg@, r.0@),
            memo.pairs().is_prefix_of(r.1.pairs()),
            r.1.pairs().len() == memo.pairs().len() + 1,
            r.1.pairs().last().0 == self && r.1.pairs().last().1@ == r.0@,
    {
        let ghost sv = self@;
        let ghost pn = name_of(param.term);
        let ghost bv = body@;
        let ghost av = arg@;
        let substituted = AST::reduce_redex(param, body, arg);
        proof {
            assert(free_of(Lam::Abs(pn, Box::new(bv))) == free_of(bv).remove(pn));
            assert(free_of(sv) == free_of(Lam::Abs(pn, Box::new(bv))).union(free_of(av)));
            assert(free_of(sv) == free_of(bv).remove(pn).union(free_of(av)));
            assert(free_of(substituted@).subset_of(free_of(sv)));
        }
        let result = substituted.clone();
        let new_memo = memo.record(self, substituted);
        proof {
            assert(new_memo.pairs().last() == (new_memo.pairs()[new_memo.pairs().len() - 1]));
            assert forall|i: int|
                0 <= i < new_memo.pairs().len() implies free_of(
                (#[trigger] new_memo.pairs()[i]).1@,
            ).subset_of(free_of(new_memo.pairs()[i].0@)) by {
                if i < memo.pairs().len() {
                    assert(new_memo.pairs()[i] == memo.pairs()[i]);
                }
            }
            assert(memo.pairs().is_prefix_of(new_memo.pairs())) by {
                assert(memo.pairs() =~= new_memo.pairs().subrange(0, memo.pairs().len() as int));
            }
        }
        (result, new_memo)
    }

    /// The reduction loop for the normal and applicative orders: apply one
    /// pass after another until the term holds no redex or the step ceiling
    /// is reached. The flag says whether a normal form was reached; the
    /// ghost count is the length of the pass chain walked.
    fn beta_reduce(self, order: &EvalOrder, max_steps: u64) -> (r: (AST, bool, Ghost<nat>))
        requires
            self.wf(),
            !(*order is Lazy),
        ensures
            r.0.wf(),
            free_of(r.0@).subset_of(free_of(self@)),
            r.1 <==> !reducible_of(r.0@),
            r.2@ <= max_steps,
            passes_to(self@, r.0@, *order is Applicative, r.2@),
            !r.1 ==> r.2@ == max_steps,
    {
        let ghost sv = self@;
        let ghost af = *order is Applicative;
        let mut current = self;
        let mut steps: u64 = 0;
        while current.is_reducible && steps < max_steps
            invariant
                current.wf(),
                free_of(current@).subset_of(free_of(sv)),
                !(*order is Lazy),
                af == *order is Applicative,
                steps <= max_steps,
                passes_to(sv, current@, af, steps as nat),
            decreases max_steps - steps,
        {
            let ghost before = current@;
            current = current.beta_step(order);
            proof {
                lemma_passes_snoc(sv, before, current@, af, steps as nat);
            }
            steps = steps + 1;
        }
        let done = !current.is_reducible;
        proof {
            assert(sv == self@ && af == *order is Applicative);
            assert(passes_to(self@, current@, *order is Applicative, steps as nat));
        }
        (current, done, Ghost(steps as nat))
    }

    /// The reduction loop for the lazy order: apply one memoized pass after
    /// another, recording each completed step in the memo, until the term
    /// holds no redex, the memo already holds the result — the fixed-point
    /// signal — or the step ceiling is reached. The result is reached from
    /// the input by a chain of lazy passes over the final memo; the flag
    /// says whether the loop stopped on its own rather than on the ceiling,
    /// and the ghost count is the length of the chain walked.
    fn lazy_beta_reduce(self, memo: Option<TermMap>, max_steps: u64) -> (r: (
        AST,
        TermMap,
        bool,
        Ghost<nat>,
    ))
        requires
            self.wf(),
            match memo {
                Some(m) => m.wf() && memo_inv(m),
                None => true,
            },
        ensures
            r.0.wf(),
            free_of(r.0@).subset_of(free_of(self@)),
            r.1.wf(),
            memo_inv(r.1),
            r.3@ <= max_steps,
            lazy_passes_to(self@, r.0@, r.1.pairs(), r.3@),
            !r.2 ==> reducible_of(r.0@) && r.3@ == max_steps,
            r.2 ==> !reducible_of(r.0@) || exists|i: int|
                0 <= i < r.1.pairs().len() && alpha_eq((#[trigger] r.1.pairs()[i]).0@, r.0@),
    {
        let ghost sv = self@;
        let mut table = match memo {
            Some(m) => m,
            None => TermMap::new(),
        };
        let mut current = self;
        let mut steps: u64 = 0;
        while steps < max_steps
            invariant
                sv == self@,
                current.wf(),
                free_of(current@).subset_of(free_of(sv)),
                table.wf(),
                memo_inv(table),
                steps <= max_steps,
                lazy_passes_to(sv, current@, table.pairs(), steps as nat),
            decreases max_steps - steps,
        {
            if !current.is_reducible {
                return (current, table, true, Ghost(steps as nat));
            }
            let previous = current.clone();
            let (stepped, new_table) = current.lazy_beta_step(table);
            proof {
                lemma_lazy_passes_grows(
                    sv,
                    current@,
                    table.pairs(),
                    new_table.pairs(),
                    steps as nat,
                );
                lemma_lazy_passes_snoc(
                    sv,
                    current@,
                    stepped@,
                    new_table.pairs(),
                    steps as nat,
                );
            }
            let finished = !stepped.is_reducible;
            let repeat = new_table.contains(&stepped);
            if finished || repeat {
                proof {
                    if !finished {
                        let i = choose|i: int|
                            0 <= i < new_table.pairs().len() && alpha_eq(
                                (#[trigger] new_table.pairs()[i]).0@,
                                stepped@,
                            );
                        assert(alpha_eq(new_table.pairs()[i].0@, stepped@));
                    }
                }
                return (stepped, new_table, true, Ghost(steps as nat + 1));
            }
            let recorded = stepped.clone();
            let ghost before = new_table;
            table = new_table.record(previous, recorded);
            proof {
                assert forall|i: int|
                    0 <= i < table.pairs().len() implies free_of(
                    (#[trigger] table.pairs()[i]).1@,
                ).subset_of(free_of(table.pairs()[i].0@)) by {
                    if i < before.pairs().len() {
                        assert(table.pairs()[i] == before.pairs()[i]);
                    } else {
                        assert(table.pairs()[i] == table.pairs().last());
                    }
                }
                assert(before.pairs().is_prefix_of(table.pairs())) by {
                    assert(before.pairs() =~= table.pairs().subrange(
                        0,
                        before.pairs().len() as int,
                    ));
                }
                lemma_lazy_passes_grows(
                    sv,
                    stepped@,
                    before.pairs(),
                    table.pairs(),
                    steps as nat + 1,
                );
            }
            current = stepped;
            steps = steps + 1;
        }
        let done = !current.is_reducible;
        (current, table, done, Ghost(steps as nat))
    }

    /// Reduce under the given evaluation order — normal order when none is
    /// given — until no candidate redex is left, with a caller-supplied
    /// ceiling on the number of reduction passes: the untyped calculus has
    /// terms that never reach a normal form, and the ceiling is the caller's
    /// bound on how long to try. Under every order the result is reached
    /// from the input by a chain of reduction passes — lazy passes over a
    /// memo for the lazy order — and a false flag means the ceiling was
    /// exhausted with the term still reducible; under the normal and
    /// applicative orders the flag holds exactly when the result is in
    /// normal form.
    pub fn reduce_within(self, order: Option<&EvalOrder>, max_steps: u64) -> (r: (AST, bool))
        requires
            self.wf(),
        ensures
            r.0.wf(),
            free_of(r.0@).subset_of(free_of(self@)),
            (match order {
                Some(o) => !(*o is Lazy),
                None => true,
            }) ==> ((r.1 <==> !reducible_of(r.0@)) && exists|n: nat|
                n <= max_steps && #[trigger] passes_to(self@, r.0@, argument_first_order(order), n)
                    && (!r.1 ==> n == max_steps)),
            (match order {
                Some(o) => *o is Lazy,
                None => false,
            }) ==> exists|pairs: Seq<(AST, AST)>, n: nat|
                n <= max_steps && #[trigger] lazy_passes_to(self@, r.0@, pairs, n) && (!r.1 ==> n
                    == max_steps),
            !r.1 ==> reducible_of(r.0@),
    {
        let ghost sv = self@;
        match order {
            Some(EvalOrder::Lazy) => {
                let (result, table, done, walked) = self.lazy_beta_reduce(None, max_steps);
                proof {
                    assert(lazy_passes_to(self@, result@, table.pairs(), walked@));
                    assert(exists|pairs: Seq<(AST, AST)>, n: nat|
                        n <= max_steps && #[trigger] lazy_passes_to(self@, result@, pairs, n) && (
                        !done ==> n == max_steps));
                }
                (result, done)
            },
            Some(o) => {
                let (result, done, walked) = self.beta_reduce(o, max_steps);
                proof {
                    assert(argument_first_order(order) == *o is Applicative);
                    assert(passes_to(self@, result@, argument_first_order(order), walked@));
                    assert(exists|n: nat|
                        n <= max_steps && #[trigger] passes_to(
                            self@,
                            result@,
                            argument_first_order(order),
                            n,
                        ) && (!done ==> n == max_steps));
                }
                (result, done)
            },
            None => {
                let (result, done, walked) = self.beta_reduce(&EvalOrder::Normal, max_steps);
                proof {
                    assert(argument_first_order(order) == false);
                    assert(passes_to(self@, result@, argument_first_order(order), walked@));
                    assert(exists|n: nat|
                        n <= max_steps && #[trigger] passes_to(
                            self@,
                            result@,
                            argument_first_order(order),
                            n,
                        ) && (!done ==> n == max_steps));
                }
                (result, done)
            },
        }
    }

    /// The single reduction entry point: reduce under the given evaluation
    /// order — normal order when none is given — until no candidate redex is
    /// left. Under every order the result is reached from the input by a
    /// chain of reduction passes; under the normal and applicative orders a
    /// still-reducible result can only mean the engine ran through the
    /// largest expressible step ceiling, while the lazy order may also come
    /// to rest on the memo's repeated-term signal. Callers needing a tighter
    /// bound or the stop reason use `reduce_within`.
    pub fn reduce(self, order: Option<&EvalOrder>) -> (r: AST)
        requires
            self.wf(),
        ensures
            r.wf(),
            free_of(r@).subset_of(free_of(self@)),
            (match order {
                Some(o) => !(*o is Lazy),
                None => true,
            }) ==> exists|n: nat|
                #[trigger] passes_to(self@, r@, argument_first_order(order), n) && (reducible_of(r@)
                    ==> n == u64::MAX),
            (match order {
                Some(o) => *o is Lazy,
                None => false,
            }) ==> exists|pairs: Seq<(AST, AST)>, n: nat|
                #[trigger] lazy_passes_to(self@, r@, pairs, n),
    {
        let (result, done) = self.reduce_within(order, u64::MAX);
        proof {
            if match order {
                Some(o) => !(*o is Lazy),
                None => true,
            } {
                let n = choose|n: nat|
                    n <= u64::MAX && #[trigger] passes_to(
                        self@,
                        result@,
                        argument_first_order(order),
                        n,
                    ) && (!done ==> n == u64::MAX);
                assert(passes_to(self@, result@, argument_first_order(order), n) && (reducible_of(
                    result@,
                ) ==> n == u64::MAX));
            } else {
                let (pairs, n) = choose|pairs: Seq<(AST, AST)>, n: nat|
                    n <= u64::MAX && #[trigger] lazy_passes_to(self@, result@, pairs, n) && (!done
                        ==> n == u64::MAX);
                assert(lazy_passes_to(self@, result@, pairs, n));
            }
        }
        result
    }
}

} // verus!
