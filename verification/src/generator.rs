use vstd::prelude::*;
use vstd::arithmetic::div_mod::lemma_fundamental_div_mod;

verus! {

/// The k-th lower-case letter: `letter(0) == 'a'`, ..., `letter(25) == 'z'`.
pub open spec fn letter(k: int) -> char {
    (('a' as u8) + k as u8) as char
}

/// The n-th candidate variable name: `"a"` through `"z"`, then `"aa"`,
/// `"ab"`, and so on — bijective base-26 enumeration over growing-length
/// lower-case identifiers.
pub open spec fn var_name(n: nat) -> Seq<char>
    decreases n,
{
    if n < 26 {
        seq![letter(n as int)]
    } else {
        var_name((n / 26 - 1) as nat).push(letter((n % 26) as int))
    }
}

/// The successor of a lower-case letter.
pub open spec fn succ_char(c: char) -> char {
    ((c as u8) + 1) as char
}

/// All characters of a name are lower-case letters.
pub open spec fn lower_name(s: Seq<char>) -> bool {
    forall|i: int| 0 <= i < s.len() ==> 'a' <= #[trigger] s[i] && s[i] <= 'z'
}

/// The odometer successor of a name: bump the last letter, carrying over a
/// final 'z' and growing by one letter when every position carries.
pub open spec fn incr_name(s: Seq<char>) -> Seq<char>
    decreases s.len(),
{
    if s.len() == 0 {
        seq!['a']
    } else if s.last() != 'z' {
        s.update(s.len() - 1, succ_char(s.last()))
    } else {
        incr_name(s.drop_last()).push('a')
    }
}

/// Every candidate name is nonempty and all lower-case.
pub proof fn lemma_var_name_lower(n: nat)
    ensures
        var_name(n).len() >= 1,
        lower_name(var_name(n)),
    decreases n,
{
    if n < 26 {
        assert('a' <= letter(n as int) && letter(n as int) <= 'z');
        assert(var_name(n) == seq![letter(n as int)]);
        assert(forall|i: int|
            0 <= i < var_name(n).len() ==> 'a' <= #[trigger] var_name(n)[i] && var_name(n)[i]
                <= 'z');
    } else {
        let m = (n / 26 - 1) as nat;
        lemma_var_name_lower(m);
        let k = (n % 26) as int;
        assert(0 <= k < 26);
        assert('a' <= letter(k) && letter(k) <= 'z');
        let s = var_name(m).push(letter(k));
        assert(var_name(n) == s);
        assert forall|i: int| 0 <= i < s.len() implies 'a' <= #[trigger] s[i] && s[i] <= 'z' by {
            if i < var_name(m).len() {
                assert(s[i] == var_name(m)[i]);
            }
        }
    }
}

/// Bumping a name's odometer yields the next candidate in the enumeration.
pub proof fn lemma_var_name_incr(n: nat)
    ensures
        incr_name(var_name(n)) == var_name(n + 1),
    decreases n,
{
    lemma_var_name_lower(n);
    if n < 25 {
        assert(var_name(n) == seq![letter(n as int)]);
        assert(letter(n as int) != 'z');
        assert(succ_char(letter(n as int)) == letter(n as int + 1));
        assert(incr_name(var_name(n)) =~= seq![letter(n as int + 1)]);
        assert(var_name(n + 1) == seq![letter(n as int + 1)]);
    } else if n == 25 {
        assert(var_name(25nat) == seq![letter(25)]);
        assert(letter(25) == 'z');
        assert(var_name(25nat).last() == 'z');
        assert(var_name(25nat).drop_last() =~= Seq::<char>::empty());
        assert(incr_name(var_name(25nat)) == incr_name(Seq::<char>::empty()).push('a'));
        assert(incr_name(Seq::<char>::empty()) == seq!['a']);
        assert(var_name(26nat) == var_name(0nat).push(letter(0)));
        assert(letter(0) == 'a');
        assert(incr_name(var_name(25nat)) =~= var_name(26nat));
    } else {
        let q = n / 26;
        let r = n % 26;
        lemma_fundamental_div_mod(n as int, 26);
        let prefix = var_name((q - 1) as nat);
        lemma_var_name_lower((q - 1) as nat);
        assert(var_name(n) == prefix.push(letter(r as int)));
        assert(var_name(n).last() == letter(r as int));
        assert(var_name(n).drop_last() =~= prefix);
        if r < 25 {
            // the last letter is below 'z': only it changes
            assert(letter(r as int) != 'z');
            assert(succ_char(letter(r as int)) == letter(r as int + 1));
            assert((n + 1) / 26 == q && (n + 1) % 26 == r + 1) by {
                lemma_fundamental_div_mod(n as int, 26);
                assert((n + 1) as int == (q as int) * 26 + (r as int + 1));
                vstd::arithmetic::div_mod::lemma_fundamental_div_mod_converse((n + 1) as int, 26, q as int, r as int + 1);
            }
            assert(var_name(n + 1) == var_name((q - 1) as nat).push(letter(r as int + 1)));
            assert(incr_name(var_name(n)) =~= prefix.push(letter(r as int + 1)));
        } else {
            // the last letter is 'z': it carries, and the prefix advances
            assert(r == 25);
            assert(letter(25) == 'z');
            assert(incr_name(var_name(n)) == incr_name(prefix).push('a'));
            lemma_var_name_incr((q - 1) as nat);
            assert(incr_name(prefix) == var_name(q));
            assert((n + 1) / 26 == q + 1 && (n + 1) % 26 == 0) by {
                lemma_fundamental_div_mod(n as int, 26);
                assert((n + 1) as int == (q as int + 1) * 26 + 0);
                vstd::arithmetic::div_mod::lemma_fundamental_div_mod_converse((n + 1) as int, 26, q as int + 1, 0);
            }
            assert(var_name(n + 1) == var_name(q).push(letter(0)));
            assert(letter(0) == 'a');
        }
    }
}

/// Distinct indices give distinct candidate names.
pub proof fn lemma_var_name_injective(a: nat, b: nat)
    requires
        var_name(a) == var_name(b),
    ensures
        a == b,
    decreases a + b,
{
    lemma_var_name_lower(a);
    lemma_var_name_lower(b);
    if a < 26 && b < 26 {
        assert(var_name(a)[0] == letter(a as int));
        assert(var_name(b)[0] == letter(b as int));
        assert(letter(a as int) == letter(b as int) ==> a == b);
    } else if a < 26 {
        assert(var_name(a).len() == 1);
        lemma_var_name_lower((b / 26 - 1) as nat);
        assert(var_name(b).len() >= 2);
    } else if b < 26 {
        assert(var_name(b).len() == 1);
        lemma_var_name_lower((a / 26 - 1) as nat);
        assert(var_name(a).len() >= 2);
    } else {
        let pa = var_name((a / 26 - 1) as nat);
        let pb = var_name((b / 26 - 1) as nat);
        assert(var_name(a) == pa.push(letter((a % 26) as int)));
        assert(var_name(b) == pb.push(letter((b % 26) as int)));
        assert(pa.push(letter((a % 26) as int)).last() == letter((a % 26) as int));
        assert(pa.push(letter((a % 26) as int)).drop_last() =~= pa);
        assert(pb.push(letter((b % 26) as int)).drop_last() =~= pb);
        assert(letter((a % 26) as int) == letter((b % 26) as int));
        assert(a % 26 == b % 26) by {
            assert(forall|x: int, y: int|
                0 <= x < 26 && 0 <= y < 26 && #[trigger] letter(x) == #[trigger] letter(y) ==> x
                    == y);
        }
        assert(pa == pb);
        lemma_var_name_injective((a / 26 - 1) as nat, (b / 26 - 1) as nat);
        assert(a / 26 == b / 26);
        lemma_fundamental_div_mod(a as int, 26);
        lemma_fundamental_div_mod(b as int, 26);
    }
}

/// A finite set that holds the first `k` candidate names has at least `k`
/// elements: the supply of fresh names can never be exhausted.
pub proof fn lemma_candidates_bound(s: Set<Seq<char>>, k: nat)
    requires
        s.finite(),
        forall|m: nat| m < k ==> s.contains(#[trigger] var_name(m)),
    ensures
        k <= s.len(),
    decreases k,
{
    if k > 0 {
        let last = var_name((k - 1) as nat);
        let s2 = s.remove(last);
        assert forall|m: nat| m < (k - 1) as nat implies s2.contains(#[trigger] var_name(m)) by {
            if var_name(m) == last {
                lemma_var_name_injective(m, (k - 1) as nat);
            }
        }
        assert(s.contains(last));
        assert(s2.len() == s.len() - 1);
        lemma_candidates_bound(s2, (k - 1) as nat);
    }
}

/// A generator of candidate variable names for fresh renaming: a cursor over
/// the deterministic, restartable `var_name` enumeration.
pub struct VarGen {
    current: Vec<char>,
    index: Ghost<nat>,
}

/// Appends one character to a string.
///
/// Relies on String::push: it appends the given char to the end of the
/// string.
#[verifier::external_body]
fn push_char(s: &mut String, c: char)
    ensures
        final(s)@ == old(s)@.push(c),
{
    s.push(c)
}

fn string_of_chars(v: &Vec<char>) -> (s: String)
    ensures
        s@ == v@,
{
    let mut s = String::new();
    let mut i: usize = 0;
    while i < v.len()
        invariant
            i <= v.len(),
            s@ == v@.take(i as int),
        decreases v.len() - i,
    {
        push_char(&mut s, v[i]);
        proof {
            assert(v@.take(i as int + 1) =~= v@.take(i as int).push(v@[i as int]));
        }
        i = i + 1;
    }
    proof {
        assert(v@.take(v@.len() as int) =~= v@);
    }
    s
}

fn incr_chars(v: &mut Vec<char>)
    requires
        lower_name(old(v)@),
    ensures
        final(v)@ == incr_name(old(v)@),
    decreases old(v)@.len(),
{
    if v.len() == 0 {
        v.push('a');
    } else {
        let c = v[v.len() - 1];
        if c != 'z' {
            let c2 = VarGen::next_char(c);
            let n = v.len() - 1;
            v.set(n, c2);
            proof {
                assert(final(v)@ == old(v)@.update(old(v)@.len() - 1, succ_char(old(v)@.last())));
            }
        } else {
            v.pop();
            proof {
                assert(v@ =~= old(v)@.drop_last());
            }
            incr_chars(v);
            v.push('a');
        }
    }
}

impl VarGen {
    /// The cursor stands exactly at candidate `index` of the enumeration.
    pub closed spec fn wf(self) -> bool {
        self.current@ == var_name(self.index@)
    }

    /// The position of the cursor in the candidate enumeration.
    pub closed spec fn position(self) -> nat {
        self.index@
    }

    /// The letter after `c` in the candidate alphabet.
    pub fn next_char(c: char) -> (r: char)
        requires
            'a' <= c && c < 'z',
        ensures
            r == succ_char(c),
    {
        ((c as u8) + 1) as char
    }

    /// Start the generator at the first candidate, "a".
    pub fn new() -> (r: VarGen)
        ensures
            r.wf(),
            r.position() == 0,
    {
        let mut current: Vec<char> = Vec::new();
        current.push('a');
        proof {
            assert(var_name(0nat) == seq![letter(0)]);
            assert(letter(0) == 'a');
            assert(current@ =~= var_name(0nat));
        }
        VarGen { current, index: Ghost(0nat) }
    }

    /// Hand out the candidate under the cursor and advance to the next one.
    pub fn next(&mut self) -> (r: String)
        requires
            old(self).wf(),
        ensures
            final(self).wf(),
            r@ == var_name(old(self).position()),
            final(self).position() == old(self).position() + 1,
    {
        let r = string_of_chars(&self.current);
        proof {
            lemma_var_name_lower(self.index@);
            lemma_var_name_incr(self.index@);
        }
        incr_chars(&mut self.current);
        proof {
            self.index@ = self.index@ + 1;
        }
        r
    }
}

} // verus!
