use vstd::prelude::*;
use crate::ast::{Term, name_of};
use crate::varset::VarSet;

verus! {

/// A bidirectional mapping of variable names, built by pairing two sets
/// positionally; used to remap the binders of a term onto fresh names.
#[derive(Debug)]
pub struct VarMap {
    inner: Vec<(String, String)>,
}

/// What a name maps to: scanning the entries in order, a name equal to an
/// entry's first component maps to the second, one equal to the second maps
/// to the first, and an unmapped name maps to itself.
pub open spec fn map_name(entries: Seq<(Seq<char>, Seq<char>)>, n: Seq<char>) -> Seq<char>
    decreases entries.len(),
{
    if entries.len() == 0 {
        n
    } else if entries[0].0 == n {
        entries[0].1
    } else if entries[0].1 == n {
        entries[0].0
    } else {
        map_name(entries.drop_first(), n)
    }
}

/// Entries that do not mention a name do not affect what it maps to.
proof fn lemma_map_name_skip(entries: Seq<(Seq<char>, Seq<char>)>, k: int, n: Seq<char>)
    requires
        0 <= k <= entries.len(),
        forall|j: int| 0 <= j < k ==> (#[trigger] entries[j]).0 != n && entries[j].1 != n,
    ensures
        map_name(entries, n) == map_name(entries.skip(k), n),
    decreases k,
{
    if k > 0 {
        assert(entries.drop_first() =~= entries.skip(1));
        assert forall|j: int|
            0 <= j < k - 1 implies (#[trigger] entries.skip(1)[j]).0 != n && entries.skip(
            1,
        )[j].1 != n by {
            assert(entries.skip(1)[j] == entries[j + 1]);
        }
        lemma_map_name_skip(entries.skip(1), k - 1, n);
        assert(entries.skip(1).skip(k - 1) =~= entries.skip(k));
    } else {
        assert(entries.skip(0) =~= entries);
    }
}

impl Clone for VarMap {
    /// The clone holds exactly the entries of the original.
    fn clone(&self) -> (r: Self)
        ensures
            r.entries() == self.entries(),
    {
        let mut c: Vec<(String, String)> = Vec::new();
        let mut i: usize = 0;
        while i < self.inner.len()
            invariant
                i <= self.inner.len(),
                c@.len() == i,
                forall|j: int|
                    0 <= j < i ==> (#[trigger] c@[j]).0@ == self.inner@[j].0@ && c@[j].1@
                        == self.inner@[j].1@,
            decreases self.inner.len() - i,
        {
            c.push((self.inner[i].0.clone(), self.inner[i].1.clone()));
            i = i + 1;
        }
        let r = VarMap { inner: c };
        proof {
            assert forall|j: int|
                0 <= j < r.entries().len() implies #[trigger] r.entries()[j]
                == self.entries()[j] by {
                assert(r.entries()[j] == (r.inner@[j].0@, r.inner@[j].1@));
                assert(self.entries()[j] == (self.inner@[j].0@, self.inner@[j].1@));
            }
            assert(r.entries() =~= self.entries());
        }
        r
    }
}

impl VarMap {
    /// The name pairs held, in order.
    pub closed spec fn entries(self) -> Seq<(Seq<char>, Seq<char>)> {
        self.inner@.map_values(|p: (String, String)| (p.0@, p.1@))
    }

    /// Build a map by pairing the names of two sets positionally, up to the
    /// shorter one's size.
    pub fn from_sets(first: VarSet, second: VarSet) -> (r: VarMap)
        ensures
            r.entries().len() == if first.names().len() <= second.names().len() {
                first.names().len()
            } else {
                second.names().len()
            },
            forall|i: int|
                0 <= i < r.entries().len() ==> (#[trigger] r.entries()[i]) == (
                    first.names()[i],
                    second.names()[i],
                ),
    {
        let pairs = first.zip(&second);
        let mut inner: Vec<(String, String)> = Vec::new();
        let mut i: usize = 0;
        while i < pairs.len()
            invariant
                i <= pairs@.len(),
                inner@.len() == i,
                forall|j: int|
                    0 <= j < pairs@.len() ==> (#[trigger] pairs@[j].0) is Var && pairs@[j].1 is Var,
                forall|j: int|
                    0 <= j < i ==> (#[trigger] inner@[j].0)@ == name_of(pairs@[j].0)
                        && inner@[j].1@ == name_of(pairs@[j].1),
            decreases pairs@.len() - i,
        {
            let (a, b) = match (pairs[i].0.clone(), pairs[i].1.clone()) {
                (Term::Var(a), Term::Var(b)) => (a, b),
                _ => unreached(),
            };
            proof {
                assert(a@ == name_of(pairs@[i as int].0));
                assert(b@ == name_of(pairs@[i as int].1));
            }
            inner.push((a, b));
            proof {
                assert(inner@[i as int].0@ == name_of(pairs@[i as int].0));
                assert(inner@[i as int].1@ == name_of(pairs@[i as int].1));
            }
            i = i + 1;
        }
        let r = VarMap { inner };
        proof {
            assert forall|j: int|
                0 <= j < r.entries().len() implies (#[trigger] r.entries()[j]) == (
                first.names()[j],
                second.names()[j],
            ) by {
                assert(r.entries()[j] == (r.inner@[j].0@, r.inner@[j].1@));
            }
        }
        r
    }

    /// The term a variable maps to: its identifier looked up in the entries,
    /// in either direction; an unmapped variable, or any non-variable term,
    /// is returned unchanged.
    pub fn get(&self, term: Term) -> (r: Term)
        ensures
            term is Var ==> (r is Var && name_of(r) == map_name(
                self.entries(),
                name_of(term),
            )),
            !(term is Var) ==> r == term,
    {
        let name = match &term {
            Term::Var(s) => s,
            _ => {
                return term;
            },
        };
        let ghost n = name@;
        let mut i: usize = 0;
        while i < self.inner.len()
            invariant
                i <= self.inner.len(),
                n == name_of(term),
                name@ == n,
                term is Var,
                forall|j: int|
                    0 <= j < i ==> (#[trigger] self.entries()[j]).0 != n && self.entries()[j].1
                        != n,
            decreases self.inner.len() - i,
        {
            proof {
                assert(self.entries()[i as int] == (self.inner@[i as int].0@, self.inner@[
                    i as int].1@));
            }
            if self.inner[i].0 == *name {
                let found = Term::Var(self.inner[i].1.clone());
                proof {
                    lemma_map_name_skip(self.entries(), i as int, n);
                    assert(self.entries().skip(i as int).len() == self.entries().len() - i);
                    assert(self.entries().skip(i as int)[0] == self.entries()[i as int]);
                    assert(self.entries()[i as int].0 == n);
                    assert(map_name(self.entries().skip(i as int), n) == self.entries()[
                        i as int].1);
                }
                return found;
            }
            if self.inner[i].1 == *name {
                let found = Term::Var(self.inner[i].0.clone());
                proof {
                    lemma_map_name_skip(self.entries(), i as int, n);
                    assert(self.entries().skip(i as int).len() == self.entries().len() - i);
                    assert(self.entries().skip(i as int)[0] == self.entries()[i as int]);
                    assert(self.entries()[i as int].1 == n && self.entries()[i as int].0 != n);
                    assert(map_name(self.entries().skip(i as int), n) == self.entries()[
                        i as int].0);
                }
                return found;
            }
            proof {
                assert(self.entries()[i as int].0 != n && self.entries()[i as int].1 != n);
            }
            i = i + 1;
        }
        proof {
            lemma_map_name_skip(self.entries(), self.entries().len() as int, n);
            assert(self.entries().skip(self.entries().len() as int) =~= Seq::<(
                Seq<char>,
                Seq<char>,
            )>::empty());
        }
        term
    }
}

} // verus!
