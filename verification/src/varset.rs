use vstd::prelude::*;
use crate::ast::{Term, name_of};

verus! {

broadcast use
    vstd::seq_lib::group_seq_properties,
    Seq::lemma_push_to_set_commute,
    Seq::lemma_take_succ_push,
    Seq::lemma_push_map_commute,
    vstd::seq_lib::seq_to_set_is_finite;

/// An immutable set of variable identifiers, kept as a duplicate-free vector
/// of names. Every operation returns a new set; none mutates its input.
#[derive(Debug)]
pub struct VarSet {
    inner: Vec<String>,
}

impl View for VarSet {
    type V = Set<Seq<char>>;

    closed spec fn view(&self) -> Set<Seq<char>> {
        self.names().to_set()
    }
}

impl Clone for VarSet {
    /// The clone holds exactly the names of the original, in the same order.
    fn clone(&self) -> (r: Self)
        ensures
            r.names() == self.names(),
            r@ == self@,
            r.wf() == self.wf(),
    {
        let c = self.inner.clone();
        proof {
            assert(c@ =~= self.inner@);
            assert(c@.map_values(|s: String| s@) == self.inner@.map_values(|s: String| s@));
        }
        VarSet { inner: c }
    }
}

/// A seq extended by one element it does not contain stays duplicate-free.
proof fn lemma_nodup_push(s: Seq<Seq<char>>, x: Seq<char>)
    requires
        s.no_duplicates(),
        !s.contains(x),
    ensures
        s.push(x).no_duplicates(),
{
    let t = s.push(x);
    assert forall|i: int, j: int| 0 <= i < t.len() && 0 <= j < t.len() && i != j implies t[i]
        != t[j] by {
        if i < s.len() && j < s.len() {
            assert(s[i] != s[j]);
        } else if i < s.len() {
            assert(s[i] != x);
        } else {
            assert(s[j] != x);
        }
    }
}

impl VarSet {
    /// The names held, in storage order.
    pub closed spec fn names(self) -> Seq<Seq<char>> {
        self.inner@.map_values(|s: String| s@)
    }

    /// No name is stored twice.
    pub closed spec fn wf(self) -> bool {
        self.names().no_duplicates()
    }

    /// The bridge between the stored names and the set view: the set holds a
    /// name exactly when some stored entry has it, and it is finite. This is
    /// what lets a caller read a contract written over `names()` — such as
    /// `zip`'s — at the level of the set view.
    pub proof fn lemma_names_are_members(self)
        ensures
            forall|x: Seq<char>| self@.contains(x) <==> self.names().contains(x),
            self@.finite(),
    {
    }

    /// A duplicate-free set holds as many names as entries.
    pub proof fn lemma_card(self)
        requires
            self.wf(),
        ensures
            self@.finite(),
            self@.len() == self.names().len(),
    {
        self.names().unique_seq_to_set();
    }

    pub(crate) fn contains_name(&self, name: &String) -> (r: bool)
        ensures
            r == self@.contains(name@),
    {
        proof {
            self.lemma_names_are_members();
        }
        let mut i: usize = 0;
        while i < self.inner.len()
            invariant
                i <= self.inner.len(),
                forall|j: int| 0 <= j < i ==> self.names()[j] != name@,
            decreases self.inner.len() - i,
        {
            if self.inner[i] == *name {
                assert(self.names()[i as int] == name@);
                assert(self.names().contains(name@));
                return true;
            }
            assert(self.names()[i as int] != name@);
            i = i + 1;
        }
        assert(!self.names().contains(name@));
        false
    }

    /// Create an empty set.
    pub fn new() -> (r: VarSet)
        ensures
            r.wf(),
            r@ == Set::<Seq<char>>::empty(),
    {
        let r = VarSet { inner: Vec::new() };
        proof {
            r.lemma_names_are_members();
            assert(r@ =~= Set::<Seq<char>>::empty());
        }
        r
    }

    /// Whether a variable term's identifier is in the set. Only a variable
    /// can be a member; any other term shape is not.
    pub fn contains(&self, term: &Term) -> (r: bool)
        ensures
            r == (term is Var && self@.contains(name_of(*term))),
    {
        match term {
            Term::Var(s) => self.contains_name(s),
            _ => false,
        }
    }

    /// Whether the set holds no name at all.
    pub fn is_empty(&self) -> (r: bool)
        ensures
            r == self@.is_empty(),
    {
        proof {
            self.lemma_names_are_members();
            if self.names().len() == 0 {
                assert(self@ =~= Set::<Seq<char>>::empty());
            } else {
                assert(self.names().contains(self.names()[0]));
                assert(self@.contains(self.names()[0]));
            }
        }
        self.inner.len() == 0
    }

    /// The union of two sets.
    pub fn union(self, other: VarSet) -> (r: VarSet)
        requires
            self.wf(),
            other.wf(),
        ensures
            r.wf(),
            r@ == self@.union(other@),
    {
        proof {
            self.lemma_names_are_members();
            other.lemma_names_are_members();
        }
        let ghost sv = self@;
        let mut result = self;
        let mut i: usize = 0;
        proof {
            assert(other.names().take(0).to_set() =~= Set::<Seq<char>>::empty());
            assert(result@ =~= sv.union(other.names().take(0).to_set()));
        }
        while i < other.inner.len()
            invariant
                i <= other.inner.len(),
                result.wf(),
                result@ == sv.union(other.names().take(i as int).to_set()),
            decreases other.inner.len() - i,
        {
            let name = other.inner[i].clone();
            let ghost ii = i as int;
            let ghost n = other.names()[ii];
            proof {
                assert(name@ == n);
                assert(other.names().take(ii + 1) == other.names().take(ii).push(n));
                assert(other.names().take(ii).push(n).to_set() == other.names().take(
                    ii,
                ).to_set().insert(n));
            }
            let ghost prev = result;
            if !result.contains_name(&name) {
                proof {
                    result.lemma_names_are_members();
                    lemma_nodup_push(result.names(), name@);
                }
                result.inner.push(name);
                proof {
                    assert(result.names() == prev.names().push(n));
                    assert(result@ == prev@.insert(n));
                }
            } else {
                proof {
                    assert(result@ =~= prev@.insert(n));
                }
            }
            proof {
                assert(result@ =~= sv.union(other.names().take(ii + 1).to_set()));
            }
            i = i + 1;
        }
        proof {
            assert(other.names().take(other.inner.len() as int) == other.names());
            assert(result@ =~= sv.union(other@));
        }
        result
    }

    /// The intersection of two sets.
    pub fn intersection(self, other: VarSet) -> (r: VarSet)
        requires
            self.wf(),
            other.wf(),
        ensures
            r.wf(),
            r@ == self@.intersect(other@),
    {
        proof {
            self.lemma_names_are_members();
            other.lemma_names_are_members();
        }
        let mut result = VarSet::new();
        let mut i: usize = 0;
        while i < self.inner.len()
            invariant
                i <= self.inner.len(),
                result.wf(),
                forall|x: Seq<char>|
                    result@.contains(x) <==> self.names().take(i as int).contains(x)
                        && other@.contains(x),
            decreases self.inner.len() - i,
        {
            let name = self.inner[i].clone();
            proof {
                assert(name@ == self.names()[i as int]);
                assert(self.names().take(i as int + 1) == self.names().take(i as int).push(
                    self.names()[i as int],
                ));
            }
            let ghost prev = result;
            if other.contains_name(&name) && !result.contains_name(&name) {
                proof {
                    result.lemma_names_are_members();
                    lemma_nodup_push(result.names(), name@);
                }
                result.inner.push(name);
                proof {
                    assert(result.names() == prev.names().push(self.names()[i as int]));
                    assert(result@ == prev@.insert(self.names()[i as int]));
                }
            }
            i = i + 1;
        }
        proof {
            assert(self.names().take(self.inner.len() as int) == self.names());
            assert(result@ =~= self@.intersect(other@));
        }
        result
    }

    /// The names of `self` that are not in `other`; order-sensitive, as set
    /// difference is.
    pub fn difference(self, other: VarSet) -> (r: VarSet)
        requires
            self.wf(),
            other.wf(),
        ensures
            r.wf(),
            r@ == self@.difference(other@),
    {
        proof {
            self.lemma_names_are_members();
            other.lemma_names_are_members();
        }
        let mut result = VarSet::new();
        let mut i: usize = 0;
        while i < self.inner.len()
            invariant
                i <= self.inner.len(),
                result.wf(),
                forall|x: Seq<char>|
                    result@.contains(x) <==> self.names().take(i as int).contains(x)
                        && !other@.contains(x),
            decreases self.inner.len() - i,
        {
            let name = self.inner[i].clone();
            proof {
                assert(name@ == self.names()[i as int]);
                assert(self.names().take(i as int + 1) == self.names().take(i as int).push(
                    self.names()[i as int],
                ));
            }
            let ghost prev = result;
            if !other.contains_name(&name) && !result.contains_name(&name) {
                proof {
                    result.lemma_names_are_members();
                    lemma_nodup_push(result.names(), name@);
                }
                result.inner.push(name);
                proof {
                    assert(result.names() == prev.names().push(self.names()[i as int]));
                    assert(result@ == prev@.insert(self.names()[i as int]));
                }
            }
            i = i + 1;
        }
        proof {
            assert(self.names().take(self.inner.len() as int) == self.names());
            assert(result@ =~= self@.difference(other@));
        }
        result
    }

    /// The names in exactly one of the two sets; commutative, as set algebra
    /// dictates.
    pub fn symmetric_difference(self, other: VarSet) -> (r: VarSet)
        requires
            self.wf(),
            other.wf(),
        ensures
            r.wf(),
            r@ == self@.difference(other@).union(other@.difference(self@)),
    {
        let self_copy = self.clone();
        let other_copy = other.clone();
        let left = self.difference(other_copy);
        let right = other.difference(self_copy);
        left.union(right)
    }

    /// A new set extended with the given variable's identifier.
    pub fn with(self, term: Term) -> (r: VarSet)
        requires
            self.wf(),
            term is Var,
        ensures
            r.wf(),
            r@ == self@.insert(name_of(term)),
    {
        let name = match term {
            Term::Var(s) => s,
            _ => unreached(),
        };
        let ghost prev = self;
        let mut result = self;
        if !result.contains_name(&name) {
            proof {
                result.lemma_names_are_members();
                lemma_nodup_push(result.names(), name@);
            }
            result.inner.push(name);
            proof {
                assert(result.names() == prev.names().push(name_of(term)));
                assert(result@ == prev@.insert(name_of(term)));
            }
        } else {
            proof {
                assert(result@ =~= prev@.insert(name_of(term)));
            }
        }
        result
    }

    /// A new set with the given variable's identifier removed.
    pub fn without(self, term: Term) -> (r: VarSet)
        requires
            self.wf(),
            term is Var,
        ensures
            r.wf(),
            r@ == self@.remove(name_of(term)),
    {
        proof {
            self.lemma_names_are_members();
        }
        let name = match term {
            Term::Var(s) => s,
            _ => unreached(),
        };
        let mut result = VarSet::new();
        let mut i: usize = 0;
        while i < self.inner.len()
            invariant
                i <= self.inner.len(),
                result.wf(),
                forall|x: Seq<char>|
                    result@.contains(x) <==> self.names().take(i as int).contains(x) && x != name@,
            decreases self.inner.len() - i,
        {
            let entry = self.inner[i].clone();
            proof {
                assert(entry@ == self.names()[i as int]);
                assert(self.names().take(i as int + 1) == self.names().take(i as int).push(
                    self.names()[i as int],
                ));
            }
            let ghost prev = result;
            if !(entry == name) && !result.contains_name(&entry) {
                proof {
                    result.lemma_names_are_members();
                    lemma_nodup_push(result.names(), entry@);
                }
                result.inner.push(entry);
                proof {
                    assert(result.names() == prev.names().push(self.names()[i as int]));
                    assert(result@ == prev@.insert(self.names()[i as int]));
                }
            }
            i = i + 1;
        }
        proof {
            assert(self.names().take(self.inner.len() as int) == self.names());
            assert(result@ =~= self@.remove(name@));
        }
        result
    }

    /// A set of the same size whose names are all absent from this one,
    /// drawn from the fresh-name enumeration.
    pub fn fresh_set(&self) -> (r: VarSet)
        requires
            self.wf(),
        ensures
            r.wf(),
            r@.finite(),
            r@.len() == self@.len(),
            r@.disjoint(self@),
    {
        proof {
            self.lemma_card();
        }
        let mut unique = VarSet::new();
        let mut i: usize = 0;
        while i < self.inner.len()
            invariant
                i <= self.inner.len(),
                self.wf(),
                unique.wf(),
                unique@.finite(),
                unique@.len() == i,
                unique@.disjoint(self@),
                self@.len() == self.inner.len(),
            decreases self.inner.len() - i,
        {
            let pool = self.clone().union(unique.clone());
            let fresh_term = crate::ast::AST::fresh(pool).term;
            let ghost n = name_of(fresh_term);
            proof {
                assert(!self@.union(unique@).contains(n));
                assert(!unique@.contains(n));
            }
            unique = unique.with(fresh_term);
            proof {
                assert(unique@.len() == i + 1);
                assert(unique@.disjoint(self@));
            }
            i = i + 1;
        }
        proof {
            self.lemma_card();
        }
        unique
    }

    /// Pair the names of two sets positionally, as variable terms, up to the
    /// shorter length.
    pub fn zip(&self, other: &VarSet) -> (r: Vec<(Term, Term)>)
        ensures
            r@.len() == if self.names().len() <= other.names().len() {
                self.names().len()
            } else {
                other.names().len()
            },
            forall|j: int|
                0 <= j < r@.len() ==> r@[j].0 is Var && r@[j].1 is Var && name_of(#[trigger] r@[j].0)
                    == self.names()[j] && name_of(r@[j].1) == other.names()[j],
    {
        let n = if self.inner.len() <= other.inner.len() {
            self.inner.len()
        } else {
            other.inner.len()
        };
        let mut r: Vec<(Term, Term)> = Vec::new();
        let mut i: usize = 0;
        while i < n
            invariant
                i <= n,
                n <= self.inner.len(),
                n <= other.inner.len(),
                r@.len() == i,
                forall|j: int|
                    0 <= j < i ==> r@[j].0 is Var && r@[j].1 is Var && name_of(
                        #[trigger] r@[j].0,
                    ) == self.names()[j] && name_of(r@[j].1) == other.names()[j],
            decreases n - i,
        {
            let a = self.inner[i].clone();
            let b = other.inner[i].clone();
            proof {
                assert(a@ == self.names()[i as int]);
                assert(b@ == other.names()[i as int]);
            }
            r.push((Term::Var(a), Term::Var(b)));
            i = i + 1;
        }
        r
    }
}

/// Symmetric difference does not depend on the order of its arguments, while
/// plain difference does.
pub proof fn lemma_symmetric_difference_commutes(a: Set<Seq<char>>, b: Set<Seq<char>>)
    ensures
        a.difference(b).union(b.difference(a)) == b.difference(a).union(a.difference(b)),
{
    assert(a.difference(b).union(b.difference(a)) =~= b.difference(a).union(a.difference(b)));
}

} // verus!
