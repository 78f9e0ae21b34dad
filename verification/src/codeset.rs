use vstd::prelude::*;

verus! {

/// An ordered set of character codes, kept as a strictly increasing vector.
#[derive(Debug, PartialEq, Eq, Hash)]
pub struct CodeSet {
    codes: Vec<usize>,
}

/// A strictly increasing sequence: ordered, and nothing occurs twice.
pub open spec fn strictly_increasing(s: Seq<usize>) -> bool {
    forall|i: int, j: int| 0 <= i < j < s.len() ==> s[i] < s[j]
}

/// Two strictly increasing sequences with the same elements are the same.
pub proof fn lemma_sorted_unique(s: Seq<usize>, t: Seq<usize>)
    requires
        strictly_increasing(s),
        strictly_increasing(t),
        s.to_set() == t.to_set(),
    ensures
        s == t,
    decreases s.len() + t.len(),
{
    if s.len() == 0 || t.len() == 0 {
        if s.len() > 0 {
            assert(s.to_set().contains(s[0]));
        }
        if t.len() > 0 {
            assert(t.to_set().contains(t[0]));
        }
        assert(s =~= t);
    } else {
        assert(s.to_set().contains(s[0]));
        assert(t.to_set().contains(t[0]));
        let i = choose|i: int| 0 <= i < t.len() && t[i] == s[0];
        let j = choose|j: int| 0 <= j < s.len() && s[j] == t[0];
        if i > 0 {
            assert(t[0] < t[i]);
            assert(s[0] <= s[j]);
        }
        assert(s[0] == t[0]);
        let s1 = s.drop_first();
        let t1 = t.drop_first();
        assert forall|x: usize| s1.to_set().contains(x) <==> t1.to_set().contains(x) by {
            if s1.to_set().contains(x) {
                let k = choose|k: int| 0 <= k < s1.len() && s1[k] == x;
                assert(s[k + 1] == x);
                assert(s.to_set().contains(x));
                let m = choose|m: int| 0 <= m < t.len() && t[m] == x;
                assert(m != 0);
                assert(t1[m - 1] == x);
            }
            if t1.to_set().contains(x) {
                let k = choose|k: int| 0 <= k < t1.len() && t1[k] == x;
                assert(t[k + 1] == x);
                assert(t.to_set().contains(x));
                let m = choose|m: int| 0 <= m < s.len() && s[m] == x;
                assert(m != 0);
                assert(s1[m - 1] == x);
            }
        }
        assert(s1.to_set() =~= t1.to_set());
        lemma_sorted_unique(s1, t1);
        assert(s =~= seq![s[0]] + s1);
        assert(t =~= seq![t[0]] + t1);
    }
}

impl View for CodeSet {
    type V = Set<usize>;

    closed spec fn view(&self) -> Set<usize> {
        self.codes@.to_set()
    }
}

impl CodeSet {
    #[verifier::type_invariant]
    closed spec fn sorted(self) -> bool {
        strictly_increasing(self.codes@)
    }

    pub fn new() -> (s: CodeSet)
        ensures
            s@ == Set::<usize>::empty(),
    {
        let s = CodeSet { codes: Vec::new() };
        assert(s.codes@.to_set() =~= Set::<usize>::empty());
        s
    }

    pub fn insert(&mut self, code: usize)
        ensures
            final(self)@ == old(self)@.insert(code),
    {
        proof {
            use_type_invariant(&*self);
        }
        let mut codes: Vec<usize> = Vec::new();
        std::mem::swap(&mut codes, &mut self.codes);
        let ghost orig = codes@;
        let mut pos: usize = 0;
        while pos < codes.len() && codes[pos] < code
            invariant
                codes@ == orig,
                strictly_increasing(orig),
                pos <= codes.len(),
                forall|i: int| 0 <= i < pos ==> orig[i] < code,
            decreases codes.len() - pos,
        {
            pos += 1;
        }
        if pos < codes.len() && codes[pos] == code {
            assert(codes@.to_set() =~= orig.to_set().insert(code)) by {
                assert(orig.contains(code) ==> orig.to_set().contains(code));
                assert(orig[pos as int] == code);
            }
            self.codes = codes;
        } else {
            codes.insert(pos, code);
            assert(strictly_increasing(codes@)) by {
                assert forall|i: int, j: int| 0 <= i < j < codes@.len() implies codes@[i]
                    < codes@[j] by {
                    if j < pos {
                        assert(codes@[i] == orig[i] && codes@[j] == orig[j]);
                    } else if j == pos {
                        assert(codes@[i] == orig[i]);
                    } else if i < pos {
                        assert(codes@[i] == orig[i] && codes@[j] == orig[j - 1]);
                        assert(orig[i] < code);
                        assert(code < orig[pos as int] || j - 1 == pos as int || orig[pos as int]
                            <= orig[j - 1]);
                    } else if i == pos {
                        assert(codes@[j] == orig[j - 1]);
                        assert(code <= orig[pos as int]);
                        assert(orig[pos as int] != code);
                        if j - 1 > pos {
                            assert(orig[pos as int] < orig[j - 1]);
                        }
                    } else {
                        assert(codes@[i] == orig[i - 1] && codes@[j] == orig[j - 1]);
                    }
                }
            }
            assert(codes@.to_set() =~= orig.to_set().insert(code)) by {
                assert forall|x: usize| codes@.to_set().contains(x) implies orig.to_set().insert(
                    code,
                ).contains(x) by {
                    let k = choose|k: int| 0 <= k < codes@.len() && codes@[k] == x;
                    if k < pos {
                        assert(orig[k] == x);
                    } else if k > pos {
                        assert(orig[k - 1] == x);
                    }
                }
                assert forall|x: usize| orig.to_set().insert(code).contains(x) implies codes@.to_set().contains(
                    x,
                ) by {
                    if x == code {
                        assert(codes@[pos as int] == code);
                    } else {
                        let k = choose|k: int| 0 <= k < orig.len() && orig[k] == x;
                        if k < pos {
                            assert(codes@[k] == x);
                        } else {
                            assert(codes@[k + 1] == x);
                        }
                    }
                }
            }
            self.codes = codes;
        }
    }

    pub fn contains(&self, code: usize) -> (b: bool)
        ensures
            b == self@.contains(code),
    {
        let mut i: usize = 0;
        while i < self.codes.len()
            invariant
                i <= self.codes.len(),
                forall|k: int| 0 <= k < i ==> self.codes@[k] != code,
            decreases self.codes.len() - i,
        {
            if self.codes[i] == code {
                assert(self.codes@.to_set().contains(code)) by {
                    assert(self.codes@[i as int] == code);
                }
                return true;
            }
            i += 1;
        }
        false
    }

    /// Whether the two sets hold the same codes.
    pub fn same(&self, other: &CodeSet) -> (b: bool)
        ensures
            b == (self@ == other@),
    {
        proof {
            use_type_invariant(self);
            use_type_invariant(other);
        }
        if self.codes.len() != other.codes.len() {
            proof {
                if self@ == other@ {
                    lemma_sorted_unique(self.codes@, other.codes@);
                }
            }
            return false;
        }
        let mut i: usize = 0;
        while i < self.codes.len()
            invariant
                self.codes@.len() == other.codes@.len(),
                strictly_increasing(self.codes@),
                strictly_increasing(other.codes@),
                i <= self.codes@.len(),
                forall|k: int| 0 <= k < i ==> self.codes@[k] == other.codes@[k],
            decreases self.codes.len() - i,
        {
            if self.codes[i] != other.codes[i] {
                proof {
                    if self@ == other@ {
                        lemma_sorted_unique(self.codes@, other.codes@);
                    }
                }
                return false;
            }
            i += 1;
        }
        assert(self.codes@ =~= other.codes@);
        true
    }

    /// A set with the same codes.
    pub fn duplicate(&self) -> (s: CodeSet)
        ensures
            s@ == self@,
    {
        proof {
            use_type_invariant(self);
        }
        CodeSet { codes: self.codes.clone() }
    }

    /// The codes in increasing order.
    pub fn codes(&self) -> (v: Vec<usize>)
        ensures
            strictly_increasing(v@),
            v@.to_set() == self@,
    {
        proof {
            use_type_invariant(self);
        }
        self.codes.clone()
    }
}

} // verus!
