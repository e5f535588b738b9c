use vstd::prelude::*;
use crate::ast::AST;
use crate::model::{alpha_eq, free_of};

verus! {

/// An immutable association of terms with terms, looked up by
/// alpha-equivalence: the record of already-reduced terms that the lazy
/// evaluation order consults and extends.
#[derive(Debug)]
pub struct TermMap {
    inner: Vec<(AST, AST)>,
}

/// Some stored key has exactly the given term's free variables: the sign
/// that an entry for an alpha-equivalent key is (still) present.
pub open spec fn key_represented(pairs: Seq<(AST, AST)>, k: AST) -> bool {
    exists|j: int| 0 <= j < pairs.len() && free_of((#[trigger] pairs[j]).0@) == free_of(k@)
}

/// Nothing is lost between two snapshots of a map: every pair of the first
/// is still present in the second, or a key with the same free variables
/// superseded it.
pub open spec fn memo_preserved(before: Seq<(AST, AST)>, after: Seq<(AST, AST)>) -> bool {
    forall|i: int|
        0 <= i < before.len() ==> after.contains(#[trigger] before[i]) || key_represented(
            after,
            before[i].0,
        )
}

impl TermMap {
    /// The key/value pairs held, in insertion order.
    pub closed spec fn pairs(self) -> Seq<(AST, AST)> {
        self.inner@
    }

    /// Every stored term is well-formed.
    pub open spec fn wf(self) -> bool {
        forall|i: int|
            0 <= i < self.pairs().len() ==> (#[trigger] self.pairs()[i]).0.wf()
                && self.pairs()[i].1.wf()
    }

    /// Create an empty map.
    pub fn new() -> (r: TermMap)
        ensures
            r.wf(),
            r.pairs().len() == 0,
    {
        TermMap { inner: Vec::new() }
    }

    /// Whether the map holds a key alpha-equivalent to `ast`. A key
    /// structurally identical to `ast` is always found; any hit is witnessed
    /// by a stored key alpha-equivalent to `ast`.
    pub fn contains(&self, ast: &AST) -> (r: bool)
        requires
            self.wf(),
            ast.wf(),
        ensures
            (exists|i: int|
                0 <= i < self.pairs().len() && (#[trigger] self.pairs()[i]).0@ == ast@) ==> r,
            r ==> exists|i: int|
                0 <= i < self.pairs().len() && alpha_eq((#[trigger] self.pairs()[i]).0@, ast@),
    {
        let mut i: usize = 0;
        while i < self.inner.len()
            invariant
                i <= self.inner.len(),
                self.wf(),
                ast.wf(),
                forall|j: int| 0 <= j < i ==> (#[trigger] self.pairs()[j]).0@ != ast@,
            decreases self.inner.len() - i,
        {
            proof {
                assert(self.pairs()[i as int].0.wf());
            }
            if self.inner[i].0.equals(ast) {
                proof {
                    assert(alpha_eq(self.pairs()[i as int].0@, ast@));
                }
                return true;
            }
            i = i + 1;
        }
        false
    }

    /// A new map holding the pair, in place of the first binding whose key is
    /// alpha-equivalent to the new one if any is present. Every pair of the
    /// result is a pair of the original or the inserted one, and the inserted
    /// pair is always present.
    pub fn with(self, key: AST, value: AST) -> (r: TermMap)
        requires
            self.wf(),
            key.wf(),
            value.wf(),
        ensures
            r.wf(),
            self.pairs().len() <= r.pairs().len() <= self.pairs().len() + 1,
            forall|i: int|
                0 <= i < r.pairs().len() ==> (#[trigger] r.pairs()[i]) == (key, value)
                    || self.pairs().contains(r.pairs()[i]),
            exists|i: int| 0 <= i < r.pairs().len() && (#[trigger] r.pairs()[i]) == (key, value),
            forall|i: int|
                0 <= i < self.pairs().len() ==> r.pairs().contains(#[trigger] self.pairs()[i])
                    || alpha_eq(self.pairs()[i].0@, key@),
            memo_preserved(self.pairs(), r.pairs()),
    {
        let mut result = self;
        let mut i: usize = 0;
        while i < result.inner.len()
            invariant
                i <= result.inner.len(),
                result == self,
                self.wf(),
                key.wf(),
                value.wf(),
            decreases result.inner.len() - i,
        {
            proof {
                assert(result.pairs()[i as int].0.wf());
            }
            if result.inner[i].0.equals(&key) {
                result.inner.set(i, (key, value));
                proof {
                    assert(result.pairs()[i as int] == (key, value));
                    assert(alpha_eq(self.pairs()[i as int].0@, key@));
                    assert(free_of(self.pairs()[i as int].0@) == free_of(key@));
                    assert forall|j: int| 0 <= j < result.pairs().len() && j != i implies self.pairs().contains(
                        #[trigger] result.pairs()[j],
                    ) by {
                        assert(result.pairs()[j] == self.pairs()[j]);
                    }
                    assert forall|j: int|
                        0 <= j < self.pairs().len() && j != i implies result.pairs().contains(
                        #[trigger] self.pairs()[j],
                    ) by {
                        assert(result.pairs()[j] == self.pairs()[j]);
                    }
                    assert forall|j: int|
                        0 <= j < result.pairs().len() implies (#[trigger] result.pairs()[j]).0.wf()
                        && result.pairs()[j].1.wf() by {
                        if j == i {
                            assert(result.pairs()[j] == (key, value));
                            assert(key.wf() && value.wf());
                        } else {
                            assert(result.pairs()[j] == self.pairs()[j]);
                        }
                    }
                    assert forall|j: int|
                        0 <= j < self.pairs().len() implies result.pairs().contains(
                        #[trigger] self.pairs()[j],
                    ) || key_represented(result.pairs(), self.pairs()[j].0) by {
                        if j == i {
                            assert(free_of(result.pairs()[i as int].0@) == free_of(
                                self.pairs()[j].0@,
                            ));
                        }
                    }
                }
                return result;
            }
            i = i + 1;
        }
        let ghost prev = result;
        result.inner.push((key, value));
        proof {
            assert(result.pairs()[result.pairs().len() - 1] == (key, value));
            assert forall|j: int| 0 <= j < result.pairs().len() - 1 implies self.pairs().contains(
                #[trigger] result.pairs()[j],
            ) by {
                assert(result.pairs()[j] == self.pairs()[j]);
            }
            assert forall|j: int|
                0 <= j < self.pairs().len() implies result.pairs().contains(
                #[trigger] self.pairs()[j],
            ) by {
                assert(result.pairs()[j] == self.pairs()[j]);
            }
            assert forall|j: int|
                0 <= j < result.pairs().len() implies (#[trigger] result.pairs()[j]).0.wf()
                && result.pairs()[j].1.wf() by {
                if j < result.pairs().len() - 1 {
                    assert(result.pairs()[j] == self.pairs()[j]);
                }
            }
            assert(memo_preserved(self.pairs(), result.pairs()));
        }
        result
    }

    /// A new map holding every pair of both, where `other` wins on
    /// alpha-equivalent keys: every result pair comes from one of the two
    /// maps, every pair of `self` survives unless a key with the same free
    /// variables superseded it, and every key of `other` stays represented.
    pub fn extended_with(self, other: TermMap) -> (r: TermMap)
        requires
            self.wf(),
            other.wf(),
        ensures
            r.wf(),
            forall|i: int|
                0 <= i < r.pairs().len() ==> self.pairs().contains(#[trigger] r.pairs()[i])
                    || other.pairs().contains(r.pairs()[i]),
            forall|i: int|
                0 <= i < self.pairs().len() ==> r.pairs().contains(#[trigger] self.pairs()[i])
                    || key_represented(r.pairs(), self.pairs()[i].0),
            forall|i: int|
                0 <= i < other.pairs().len() ==> key_represented(
                    r.pairs(),
                    (#[trigger] other.pairs()[i]).0,
                ),
    {
        let ghost opairs = other.pairs();
        let mut rest = other;
        let mut result = self;
        proof {
            assert(opairs.take(opairs.len() as int) =~= opairs);
        }
        while rest.inner.len() > 0
            invariant
                result.wf(),
                rest.pairs().len() <= opairs.len(),
                rest.pairs() == opairs.take(rest.pairs().len() as int),
                forall|j: int|
                    0 <= j < rest.pairs().len() ==> (#[trigger] rest.pairs()[j]).0.wf()
                        && rest.pairs()[j].1.wf(),
                forall|j: int|
                    0 <= j < result.pairs().len() ==> self.pairs().contains(
                        #[trigger] result.pairs()[j],
                    ) || opairs.contains(result.pairs()[j]),
                forall|i: int|
                    0 <= i < self.pairs().len() ==> result.pairs().contains(
                        #[trigger] self.pairs()[i],
                    ) || key_represented(result.pairs(), self.pairs()[i].0),
                forall|i: int|
                    rest.pairs().len() <= i < opairs.len() ==> key_represented(
                        result.pairs(),
                        (#[trigger] opairs[i]).0,
                    ),
            decreases rest.inner.len(),
        {
            let pair = match rest.inner.pop() {
                Some(p) => p,
                None => unreached(),
            };
            let ghost n = rest.pairs().len() as int;
            proof {
                assert(pair == opairs.take(n + 1)[n]);
                assert(opairs.contains(pair));
                assert(rest.pairs() =~= opairs.take(n + 1).drop_last());
                assert(rest.pairs() =~= opairs.take(n));
            }
            let ghost before = result;
            let (k, v) = pair;
            result = result.with(k, v);
            proof {
                let kslot = choose|kj: int|
                    0 <= kj < result.pairs().len() && (#[trigger] result.pairs()[kj]) == (k, v);
                assert(key_represented(result.pairs(), k));
                // every pair of the previous accumulation either survives or
                // is superseded by the inserted pair, whose key has the same
                // free variables
                assert forall|jj: int|
                    0 <= jj < before.pairs().len() implies key_represented(
                    result.pairs(),
                    (#[trigger] before.pairs()[jj]).0,
                ) by {
                    if result.pairs().contains(before.pairs()[jj]) {
                        let j2 = choose|j2: int|
                            0 <= j2 < result.pairs().len() && #[trigger] result.pairs()[j2]
                                == before.pairs()[jj];
                        assert(free_of(result.pairs()[j2].0@) == free_of(before.pairs()[jj].0@));
                    } else {
                        assert(free_of(before.pairs()[jj].0@) == free_of(k@));
                        assert(free_of(result.pairs()[kslot].0@) == free_of(before.pairs()[jj].0@));
                    }
                }
                assert forall|j: int|
                    0 <= j < result.pairs().len() implies self.pairs().contains(
                    #[trigger] result.pairs()[j],
                ) || opairs.contains(result.pairs()[j]) by {
                    if result.pairs()[j] == (k, v) {
                        assert(opairs.contains(result.pairs()[j]));
                    } else {
                        assert(before.pairs().contains(result.pairs()[j]));
                        let jj = choose|jj: int|
                            0 <= jj < before.pairs().len() && before.pairs()[jj]
                                == result.pairs()[j];
                    }
                }
                assert forall|i: int|
                    0 <= i < self.pairs().len() implies result.pairs().contains(
                    #[trigger] self.pairs()[i],
                ) || key_represented(result.pairs(), self.pairs()[i].0) by {
                    if before.pairs().contains(self.pairs()[i]) {
                        let jj = choose|jj: int|
                            0 <= jj < before.pairs().len() && #[trigger] before.pairs()[jj]
                                == self.pairs()[i];
                        assert(key_represented(result.pairs(), before.pairs()[jj].0));
                        let j2 = choose|j2: int|
                            0 <= j2 < result.pairs().len() && free_of(
                                (#[trigger] result.pairs()[j2]).0@,
                            ) == free_of(before.pairs()[jj].0@);
                        assert(free_of(result.pairs()[j2].0@) == free_of(self.pairs()[i].0@));
                    } else if !result.pairs().contains(self.pairs()[i]) {
                        let jj = choose|jj: int|
                            0 <= jj < before.pairs().len() && free_of(
                                (#[trigger] before.pairs()[jj]).0@,
                            ) == free_of(self.pairs()[i].0@);
                        assert(key_represented(result.pairs(), before.pairs()[jj].0));
                        let j2 = choose|j2: int|
                            0 <= j2 < result.pairs().len() && free_of(
                                (#[trigger] result.pairs()[j2]).0@,
                            ) == free_of(before.pairs()[jj].0@);
                        assert(free_of(result.pairs()[j2].0@) == free_of(self.pairs()[i].0@));
                    }
                }
                assert forall|i: int|
                    rest.pairs().len() <= i < opairs.len() implies key_represented(
                    result.pairs(),
                    (#[trigger] opairs[i]).0,
                ) by {
                    if i == n {
                        assert(free_of(result.pairs()[kslot].0@) == free_of(opairs[i].0@));
                    } else {
                        assert(key_represented(before.pairs(), opairs[i].0));
                        let jj = choose|jj: int|
                            0 <= jj < before.pairs().len() && free_of(
                                (#[trigger] before.pairs()[jj]).0@,
                            ) == free_of(opairs[i].0@);
                        assert(key_represented(result.pairs(), before.pairs()[jj].0));
                        let j2 = choose|j2: int|
                            0 <= j2 < result.pairs().len() && free_of(
                                (#[trigger] result.pairs()[j2]).0@,
                            ) == free_of(before.pairs()[jj].0@);
                        assert(free_of(result.pairs()[j2].0@) == free_of(opairs[i].0@));
                    }
                }
            }
        }
        proof {
            assert(rest.pairs().len() == 0);
            assert forall|i: int|
                0 <= i < other.pairs().len() implies key_represented(
                result.pairs(),
                (#[trigger] other.pairs()[i]).0,
            ) by {
                assert(key_represented(result.pairs(), opairs[i].0));
            }
        }
        result
    }

    /// The value stored under a key alpha-equivalent to `key`, or `key`
    /// itself when none is stored. A hit's stored key is alpha-equivalent to
    /// `key`, and a structurally identical stored key always hits.
    pub fn get(&self, key: AST) -> (r: AST)
        requires
            self.wf(),
            key.wf(),
        ensures
            r.wf(),
            r == key || exists|i: int|
                0 <= i < self.pairs().len() && r@ == (#[trigger] self.pairs()[i]).1@ && alpha_eq(
                    self.pairs()[i].0@,
                    key@,
                ),
            (exists|i: int|
                0 <= i < self.pairs().len() && (#[trigger] self.pairs()[i]).0@ == key@) ==> (
            exists|i: int|
                0 <= i < self.pairs().len() && r@ == (#[trigger] self.pairs()[i]).1@ && alpha_eq(
                    self.pairs()[i].0@,
                    key@,
                )),
    {
        let mut i: usize = 0;
        while i < self.inner.len()
            invariant
                i <= self.inner.len(),
                self.wf(),
                key.wf(),
                forall|j: int| 0 <= j < i ==> (#[trigger] self.pairs()[j]).0@ != key@,
            decreases self.inner.len() - i,
        {
            proof {
                assert(self.pairs()[i as int].0.wf() && self.pairs()[i as int].1.wf());
            }
            if self.inner[i].0.equals(&key) {
                let found = self.inner[i].1.clone();
                proof {
                    assert(found@ == self.pairs()[i as int].1@ && alpha_eq(
                        self.pairs()[i as int].0@,
                        key@,
                    ));
                }
                return found;
            }
            i = i + 1;
        }
        key
    }

    /// Look a key up without a fallback: the stored value under the first
    /// key alpha-equivalent to `key`, or nothing when no stored key is even
    /// structurally identical to it.
    pub fn find(&self, key: &AST) -> (r: Option<AST>)
        requires
            self.wf(),
            key.wf(),
        ensures
            r matches Some(v) ==> v.wf() && exists|i: int|
                0 <= i < self.pairs().len() && v@ == (#[trigger] self.pairs()[i]).1@ && alpha_eq(
                    self.pairs()[i].0@,
                    key@,
                ),
            r is None ==> forall|i: int|
                0 <= i < self.pairs().len() ==> (#[trigger] self.pairs()[i]).0@ != key@,
    {
        let mut i: usize = 0;
        while i < self.inner.len()
            invariant
                i <= self.inner.len(),
                self.wf(),
                key.wf(),
                forall|j: int| 0 <= j < i ==> (#[trigger] self.pairs()[j]).0@ != key@,
            decreases self.inner.len() - i,
        {
            proof {
                assert(self.pairs()[i as int].0.wf() && self.pairs()[i as int].1.wf());
            }
            if self.inner[i].0.equals(key) {
                let found = self.inner[i].1.clone();
                proof {
                    assert(found@ == self.pairs()[i as int].1@ && alpha_eq(
                        self.pairs()[i as int].0@,
                        key@,
                    ));
                }
                return Some(found);
            }
            i = i + 1;
        }
        None
    }

    /// Append a pair unconditionally: the record of a reduction step, added
    /// without disturbing any earlier entry.
    pub fn record(self, key: AST, value: AST) -> (r: TermMap)
        requires
            self.wf(),
            key.wf(),
            value.wf(),
        ensures
            r.wf(),
            r.pairs() == self.pairs().push((key, value)),
    {
        let mut result = self;
        result.inner.push((key, value));
        proof {
            assert forall|j: int|
                0 <= j < result.pairs().len() implies (#[trigger] result.pairs()[j]).0.wf()
                && result.pairs()[j].1.wf() by {
                if j < result.pairs().len() - 1 {
                    assert(result.pairs()[j] == self.pairs()[j]);
                } else {
                    assert(result.pairs()[j] == (key, value));
                }
            }
        }
        result
    }
}

} // verus!
