use vstd::prelude::*;

use crate::ast::EBNFSuffix;
use crate::ir::{
    alts_ir_view, elements_ir_view, rules_ir_view, AntlrIR, ElementIR, ElementIRModel, RuleIR,
    RuleIRModel,
};

verus! {

/// The elements of a list, as a set.
pub open spec fn element_set(v: Seq<ElementIR>) -> Set<ElementIRModel> {
    elements_ir_view(v).to_set()
}

/// No element occurs twice in the list.
pub open spec fn no_repeats(v: Seq<ElementIR>) -> bool {
    forall|i: int, j: int| 0 <= i < j < v.len() ==> v[i]@ != v[j]@
}

/// The lookahead sets found so far, by alternative and position; a key is a
/// rule, one of its alternatives and a position in it.
pub open spec fn cache_map(s: Seq<((usize, usize, usize), Seq<ElementIR>)>) -> Map<
    (usize, usize, usize),
    Set<ElementIRModel>,
>
    decreases s.len(),
{
    if s.len() == 0 {
        Map::empty()
    } else {
        cache_map(s.drop_last()).insert(s.last().0, element_set(s.last().1))
    }
}

/// Every key is stored once, and no set repeats an element.
pub open spec fn cache_wf(s: Seq<((usize, usize, usize), Seq<ElementIR>)>) -> bool {
    &&& forall|i: int, j: int| 0 <= i < j < s.len() ==> s[i].0 != s[j].0
    &&& forall|i: int| 0 <= i < s.len() ==> no_repeats(#[trigger] s[i].1)
}

/// The state the search threads through its calls: the visited steps (an
/// alternative, the depth looked for, a position and the depth reached), the
/// places to go on from once an alternative ends, and the sets found so far.
pub struct NthState {
    pub visited: Set<(usize, usize, usize, usize, usize)>,
    pub continuation: Seq<(usize, usize, usize)>,
    pub cache: Map<(usize, usize, usize), Set<ElementIRModel>>,
}

/// The set of an optional result, empty for none.
pub open spec fn opt_set(o: Option<Set<ElementIRModel>>) -> Set<ElementIRModel> {
    match o {
        Some(s) => s,
        None => Set::empty(),
    }
}

/// Adds `set` to the set stored at `key` and gives back what is stored there
/// now; with nothing to add, a key that was never stored gives nothing.
pub open spec fn map_extend(
    m: Map<(usize, usize, usize), Set<ElementIRModel>>,
    key: (usize, usize, usize),
    set: Set<ElementIRModel>,
) -> (Option<Set<ElementIRModel>>, Map<(usize, usize, usize), Set<ElementIRModel>>) {
    if set == Set::<ElementIRModel>::empty() {
        (if m.contains_key(key) {
            Some(m[key])
        } else {
            None
        }, m)
    } else {
        let v = if m.contains_key(key) {
            m[key].union(set)
        } else {
            set
        };
        (Some(v), m.insert(key, v))
    }
}

/// `map_extend` on the sets of a search state.
pub open spec fn cache_extend(st: NthState, key: (usize, usize, usize), set: Set<ElementIRModel>) -> (
    Option<Set<ElementIRModel>>,
    NthState,
) {
    let (o, m) = map_extend(st.cache, key, set);
    (o, NthState { cache: m, ..st })
}

/// An element that may be skipped.
pub open spec fn skippable(e: ElementIRModel) -> bool {
    e.suffix() == Some(EBNFSuffix::Optional) || e.suffix() == Some(EBNFSuffix::Star)
}

/// The search for the elements `n` tokens ahead, from position `e` of
/// alternative `a` of rule `r`, `c` tokens in, within `fuel` nested calls
/// (`None` when that is not enough). A step already visited, or one past
/// depth `n`, gives nothing. At the end of an alternative the search goes on
/// from the last place recorded to go on from. At depth `n` an element is
/// itself in the set; a skippable one also lets the search go on after it; a
/// token goes one deeper after it; a rule goes through each of its
/// alternatives, recording where to go on from first.
pub open spec fn nth_f(
    fuel: nat,
    rules: Seq<RuleIRModel>,
    n: usize,
    c: usize,
    r: usize,
    a: usize,
    e: usize,
    st: NthState,
) -> Option<(Option<Set<ElementIRModel>>, NthState)>
    decreases fuel, 0nat, 0nat,
{
    if fuel == 0 {
        None
    } else {
        let vkey = (r, a, n, e, c);
        let st1 = NthState { visited: st.visited.insert(vkey), ..st };
        if c > n || st.visited.contains(vkey) {
            Some((None, st1))
        } else {
            let elements = rules[r as int].alts[a as int].elements;
            if e >= elements.len() {
                if st1.continuation.len() == 0 {
                    Some(cache_extend(st1, (r, a, e), Set::empty()))
                } else {
                    let top = st1.continuation.last();
                    let st2 = NthState { continuation: st1.continuation.drop_last(), ..st1 };
                    match nth_f((fuel - 1) as nat, rules, n, c, top.0, top.1, top.2, st2) {
                        None => None,
                        Some((res, st3)) => Some(cache_extend(st3, (r, a, e), opt_set(res))),
                    }
                }
            } else {
                let el = elements[e as int];
                let s0 = if c == n {
                    Set::<ElementIRModel>::empty().insert(el)
                } else {
                    Set::<ElementIRModel>::empty()
                };
                let step1 = if skippable(el) {
                    match nth_f((fuel - 1) as nat, rules, n, c, r, a, (e + 1) as usize, st1) {
                        None => None,
                        Some((res, s)) => Some((s0.union(opt_set(res)), s)),
                    }
                } else {
                    Some((s0, st1))
                };
                match step1 {
                    None => None,
                    Some((s1, st2)) => {
                        let step2 = match el {
                            ElementIRModel::TokenAtom { .. } => match nth_f(
                                (fuel - 1) as nat,
                                rules,
                                n,
                                (c + 1) as usize,
                                r,
                                a,
                                (e + 1) as usize,
                                st2,
                            ) {
                                None => None,
                                Some((res, s)) => Some((s1.union(opt_set(res)), s)),
                            },
                            ElementIRModel::RuleAtom { id, .. } => nth_alts_f(
                                (fuel - 1) as nat,
                                rules,
                                n,
                                c,
                                r,
                                a,
                                e,
                                id,
                                0,
                                s1,
                                st2,
                            ),
                            _ => Some((s1, st2)),
                        };
                        match step2 {
                            None => None,
                            Some((s2, st3)) => Some(cache_extend(st3, (r, a, e), s2)),
                        }
                    },
                }
            }
        }
    }
}

/// The search through the alternatives of rule `id` from the `j`-th on, each
/// after recording that the search goes on after position `e` of alternative
/// `a` of rule `r`; the sets found are added to `acc`.
pub open spec fn nth_alts_f(
    fuel: nat,
    rules: Seq<RuleIRModel>,
    n: usize,
    c: usize,
    r: usize,
    a: usize,
    e: usize,
    id: usize,
    j: nat,
    acc: Set<ElementIRModel>,
    st: NthState,
) -> Option<(Set<ElementIRModel>, NthState)>
    decreases fuel, 1nat, rules[id as int].alts.len() - j,
{
    if j >= rules[id as int].alts.len() {
        Some((acc, st))
    } else {
        let st1 = NthState {
            continuation: st.continuation.push((r, a, (e + 1) as usize)),
            ..st
        };
        match nth_f(fuel, rules, n, c, id, j as usize, 0, st1) {
            None => None,
            Some((res, st2)) => nth_alts_f(
                fuel,
                rules,
                n,
                c,
                r,
                a,
                e,
                id,
                j + 1,
                acc.union(opt_set(res)),
                st2,
            ),
        }
    }
}

proof fn lemma_nth_mono(
    fuel: nat,
    rules: Seq<RuleIRModel>,
    n: usize,
    c: usize,
    r: usize,
    a: usize,
    e: usize,
    st: NthState,
)
    requires
        nth_f(fuel, rules, n, c, r, a, e, st) is Some,
    ensures
        nth_f(fuel + 1, rules, n, c, r, a, e, st) == nth_f(fuel, rules, n, c, r, a, e, st),
    decreases fuel, 0nat, 0nat,
{
    let vkey = (r, a, n, e, c);
    let st1 = NthState { visited: st.visited.insert(vkey), ..st };
    if !(c > n || st.visited.contains(vkey)) {
        let elements = rules[r as int].alts[a as int].elements;
        if e >= elements.len() {
            if st1.continuation.len() > 0 {
                let top = st1.continuation.last();
                let st2 = NthState { continuation: st1.continuation.drop_last(), ..st1 };
                lemma_nth_mono((fuel - 1) as nat, rules, n, c, top.0, top.1, top.2, st2);
            }
        } else {
            let el = elements[e as int];
            if skippable(el) {
                lemma_nth_mono((fuel - 1) as nat, rules, n, c, r, a, (e + 1) as usize, st1);
            }
            let s0 = if c == n {
                Set::<ElementIRModel>::empty().insert(el)
            } else {
                Set::<ElementIRModel>::empty()
            };
            let step1 = if skippable(el) {
                match nth_f((fuel - 1) as nat, rules, n, c, r, a, (e + 1) as usize, st1) {
                    None => None,
                    Some((res, s)) => Some((s0.union(opt_set(res)), s)),
                }
            } else {
                Some((s0, st1))
            };
            if let Some((s1, st2)) = step1 {
                match el {
                    ElementIRModel::TokenAtom { .. } => {
                        lemma_nth_mono(
                            (fuel - 1) as nat,
                            rules,
                            n,
                            (c + 1) as usize,
                            r,
                            a,
                            (e + 1) as usize,
                            st2,
                        );
                    },
                    ElementIRModel::RuleAtom { id, .. } => {
                        lemma_nth_alts_mono((fuel - 1) as nat, rules, n, c, r, a, e, id, 0, s1, st2);
                    },
                    _ => {},
                }
            }
        }
    }
}

proof fn lemma_nth_alts_mono(
    fuel: nat,
    rules: Seq<RuleIRModel>,
    n: usize,
    c: usize,
    r: usize,
    a: usize,
    e: usize,
    id: usize,
    j: nat,
    acc: Set<ElementIRModel>,
    st: NthState,
)
    requires
        nth_alts_f(fuel, rules, n, c, r, a, e, id, j, acc, st) is Some,
    ensures
        nth_alts_f(fuel + 1, rules, n, c, r, a, e, id, j, acc, st) == nth_alts_f(
            fuel,
            rules,
            n,
            c,
            r,
            a,
            e,
            id,
            j,
            acc,
            st,
        ),
    decreases fuel, 1nat, rules[id as int].alts.len() - j,
{
    if j < rules[id as int].alts.len() {
        let st1 = NthState {
            continuation: st.continuation.push((r, a, (e + 1) as usize)),
            ..st
        };
        lemma_nth_mono(fuel, rules, n, c, id, j as usize, 0, st1);
        if let Some((res, st2)) = nth_f(fuel, rules, n, c, id, j as usize, 0, st1) {
            lemma_nth_alts_mono(fuel, rules, n, c, r, a, e, id, j + 1, acc.union(opt_set(res)), st2);
        }
    }
}

/// More fuel than enough changes nothing.
pub proof fn lemma_nth_more(
    fuel: nat,
    more: nat,
    rules: Seq<RuleIRModel>,
    n: usize,
    c: usize,
    r: usize,
    a: usize,
    e: usize,
    st: NthState,
)
    requires
        nth_f(fuel, rules, n, c, r, a, e, st) is Some,
        fuel <= more,
    ensures
        nth_f(more, rules, n, c, r, a, e, st) == nth_f(fuel, rules, n, c, r, a, e, st),
    decreases more - fuel,
{
    if fuel < more {
        lemma_nth_mono(fuel, rules, n, c, r, a, e, st);
        lemma_nth_more(fuel + 1, more, rules, n, c, r, a, e, st);
    }
}

fn contains_element(v: &Vec<ElementIR>, e: &ElementIR) -> (b: bool)
    ensures
        b == element_set(v@).contains(e@),
{
    let mut i: usize = 0;
    while i < v.len()
        invariant
            i <= v.len(),
            forall|k: int| 0 <= k < i ==> v@[k]@ != e@,
        decreases v.len() - i,
    {
        if v[i].same(e) {
            assert(elements_ir_view(v@)[i as int] == e@);
            return true;
        }
        i += 1;
    }
    assert forall|x: ElementIRModel| element_set(v@).contains(x) implies x != e@ by {
        let k = choose|k: int| 0 <= k < elements_ir_view(v@).len() && elements_ir_view(v@)[k] == x;
        assert(v@[k]@ == x);
    }
    false
}

fn add_element(v: &mut Vec<ElementIR>, e: ElementIR)
    requires
        no_repeats(old(v)@),
    ensures
        no_repeats(final(v)@),
        element_set(final(v)@) == element_set(old(v)@).insert(e@),
{
    if contains_element(v, &e) {
        assert(element_set(v@).insert(e@) =~= element_set(v@));
        return;
    }
    let ghost before = v@;
    let ghost ev = e@;
    v.push(e);
    assert(elements_ir_view(v@) =~= elements_ir_view(before).push(ev));
    assert(element_set(v@) =~= element_set(before).insert(ev)) by {
        assert forall|x: ElementIRModel| element_set(v@).contains(x) implies element_set(
            before,
        ).insert(ev).contains(x) by {
            let k = choose|k: int| 0 <= k < elements_ir_view(v@).len() && elements_ir_view(v@)[k] == x;
            if k < before.len() {
                assert(elements_ir_view(before)[k] == x);
            }
        }
        assert forall|x: ElementIRModel| element_set(before).insert(ev).contains(x) implies element_set(
            v@,
        ).contains(x) by {
            if x == ev {
                assert(elements_ir_view(v@)[before.len() as int] == x);
            } else {
                let k = choose|k: int| 0 <= k < elements_ir_view(before).len() && elements_ir_view(before)[k] == x;
                assert(elements_ir_view(v@)[k] == x);
            }
        }
    }
    assert forall|i: int, j: int| 0 <= i < j < v@.len() implies v@[i]@ != v@[j]@ by {
        if j == before.len() {
            assert(element_set(before).contains(v@[i]@)) by {
                assert(elements_ir_view(before)[i] == v@[i]@);
            }
        }
    }
}

/// Adds every element of `w` to `v`.
fn add_all(v: &mut Vec<ElementIR>, w: &Vec<ElementIR>)
    requires
        no_repeats(old(v)@),
    ensures
        no_repeats(final(v)@),
        element_set(final(v)@) == element_set(old(v)@).union(element_set(w@)),
{
    let ghost start = element_set(v@);
    let mut i: usize = 0;
    while i < w.len()
        invariant
            i <= w.len(),
            no_repeats(v@),
            element_set(v@) == start.union(elements_ir_view(w@).take(i as int).to_set()),
        decreases w.len() - i,
    {
        let ghost before = element_set(v@);
        add_element(v, w[i].duplicate());
        assert(elements_ir_view(w@).take(i + 1).to_set() =~= elements_ir_view(w@).take(
            i as int,
        ).to_set().insert(w@[i as int]@)) by {
            let t1 = elements_ir_view(w@).take(i + 1);
            let t0 = elements_ir_view(w@).take(i as int);
            assert forall|x: ElementIRModel| t1.to_set().contains(x) implies t0.to_set().insert(
                w@[i as int]@,
            ).contains(x) by {
                let k = choose|k: int| 0 <= k < t1.len() && t1[k] == x;
                if k < i {
                    assert(t0[k] == x);
                }
            }
            assert forall|x: ElementIRModel| t0.to_set().insert(w@[i as int]@).contains(x) implies t1.to_set().contains(
                x,
            ) by {
                if x == w@[i as int]@ {
                    assert(t1[i as int] == x);
                } else {
                    let k = choose|k: int| 0 <= k < t0.len() && t0[k] == x;
                    assert(t1[k] == x);
                }
            }
        }
        assert(element_set(v@) =~= start.union(elements_ir_view(w@).take(i + 1).to_set()));
        i += 1;
    }
    assert(elements_ir_view(w@).take(w.len() as int) =~= elements_ir_view(w@));
}

/// A copy of a list of elements.
fn copy_elements(v: &Vec<ElementIR>) -> (w: Vec<ElementIR>)
    ensures
        elements_ir_view(w@) == elements_ir_view(v@),
        no_repeats(v@) ==> no_repeats(w@),
{
    let mut w: Vec<ElementIR> = Vec::new();
    let mut i: usize = 0;
    while i < v.len()
        invariant
            i <= v.len(),
            w@.len() == i,
            forall|k: int| 0 <= k < i ==> #[trigger] w@[k]@ == v@[k]@,
        decreases v.len() - i,
    {
        w.push(v[i].duplicate());
        i += 1;
    }
    assert(elements_ir_view(w@) =~= elements_ir_view(v@));
    w
}

/// The stored view of a cache's entries.
pub open spec fn entries_seq(v: Seq<((usize, usize, usize), Vec<ElementIR>)>) -> Seq<
    ((usize, usize, usize), Seq<ElementIR>),
> {
    v.map_values(|p: ((usize, usize, usize), Vec<ElementIR>)| (p.0, p.1@))
}

proof fn lemma_cache_lookup(s: Seq<((usize, usize, usize), Seq<ElementIR>)>, i: int)
    requires
        cache_wf(s),
        0 <= i < s.len(),
    ensures
        cache_map(s).contains_key(s[i].0),
        cache_map(s)[s[i].0] == element_set(s[i].1),
    decreases s.len(),
{
    if i < s.len() - 1 {
        let t = s.drop_last();
        assert(t[i] == s[i]);
        assert(cache_wf(t)) by {
            assert forall|x: int| 0 <= x < t.len() implies no_repeats(#[trigger] t[x].1) by {
                assert(t[x] == s[x]);
            }
        }
        lemma_cache_lookup(t, i);
        assert(s.last().0 != s[i].0);
    }
}

proof fn lemma_cache_absent(s: Seq<((usize, usize, usize), Seq<ElementIR>)>, key: (usize, usize, usize))
    requires
        forall|i: int| 0 <= i < s.len() ==> #[trigger] s[i].0 != key,
    ensures
        !cache_map(s).contains_key(key),
    decreases s.len(),
{
    if s.len() > 0 {
        let t = s.drop_last();
        assert forall|i: int| 0 <= i < t.len() implies #[trigger] t[i].0 != key by {
            assert(t[i] == s[i]);
        }
        lemma_cache_absent(t, key);
        assert(s[s.len() - 1].0 != key);
    }
}

proof fn lemma_cache_update(
    s: Seq<((usize, usize, usize), Seq<ElementIR>)>,
    i: int,
    v: Seq<ElementIR>,
)
    requires
        cache_wf(s),
        0 <= i < s.len(),
    ensures
        cache_map(s.update(i, (s[i].0, v))) == cache_map(s).insert(s[i].0, element_set(v)),
    decreases s.len(),
{
    let u = s.update(i, (s[i].0, v));
    if i == s.len() - 1 {
        assert(u.drop_last() =~= s.drop_last());
        assert(cache_map(u) =~= cache_map(s).insert(s[i].0, element_set(v)));
    } else {
        let t = s.drop_last();
        assert(cache_wf(t)) by {
            assert forall|x: int| 0 <= x < t.len() implies no_repeats(#[trigger] t[x].1) by {
                assert(t[x] == s[x]);
            }
        }
        assert(t[i] == s[i]);
        lemma_cache_update(t, i, v);
        assert(u.drop_last() =~= t.update(i, (s[i].0, v)));
        assert(u.last() == s.last());
        assert(s.last().0 != s[i].0);
        assert(cache_map(u) =~= cache_map(s).insert(s[i].0, element_set(v)));
    }
}

/// The lookahead sets found so far, by alternative and position.
#[derive(Debug)]
pub struct NthCache {
    entries: Vec<((usize, usize, usize), Vec<ElementIR>)>,
}

impl View for NthCache {
    type V = Map<(usize, usize, usize), Set<ElementIRModel>>;

    closed spec fn view(&self) -> Map<(usize, usize, usize), Set<ElementIRModel>> {
        cache_map(entries_seq(self.entries@))
    }
}

impl NthCache {
    /// Every key is stored once and no set repeats an element.
    pub closed spec fn wf(&self) -> bool {
        cache_wf(entries_seq(self.entries@))
    }

    pub fn new() -> (c: NthCache)
        ensures
            c.wf(),
            c@ == Map::<(usize, usize, usize), Set<ElementIRModel>>::empty(),
    {
        let c = NthCache { entries: Vec::new() };
        assert(entries_seq(c.entries@) =~= Seq::<((usize, usize, usize), Seq<ElementIR>)>::empty());
        c
    }

    fn find(&self, key: (usize, usize, usize)) -> (r: Option<usize>)
        requires
            self.wf(),
        ensures
            match r {
                Some(i) => i < self.entries@.len() && self.entries@[i as int].0 == key
                    && self@.contains_key(key) && self@[key] == element_set(
                    self.entries@[i as int].1@,
                ),
                None => !self@.contains_key(key),
            },
    {
        let ghost es = entries_seq(self.entries@);
        let mut i: usize = 0;
        while i < self.entries.len()
            invariant
                es == entries_seq(self.entries@),
                cache_wf(es),
                i <= self.entries.len(),
                forall|k: int| 0 <= k < i ==> #[trigger] es[k].0 != key,
            decreases self.entries.len() - i,
        {
            let k = self.entries[i].0;
            if k.0 == key.0 && k.1 == key.1 && k.2 == key.2 {
                proof {
                    lemma_cache_lookup(es, i as int);
                }
                return Some(i);
            }
            i += 1;
        }
        proof {
            lemma_cache_absent(es, key);
        }
        None
    }

    /// Adds the elements of `set` to the set stored at `key` and gives back a
    /// copy of what is stored there now; with nothing to add, a key never
    /// stored gives nothing.
    pub fn extend(&mut self, key: (usize, usize, usize), set: Vec<ElementIR>) -> (r: Option<
        Vec<ElementIR>,
    >)
        requires
            old(self).wf(),
            no_repeats(set@),
        ensures
            final(self).wf(),
            (match r {
                Some(v) => Some(element_set(v@)),
                None => None,
            }, final(self)@) == map_extend(old(self)@, key, element_set(set@)),
            r matches Some(v) ==> no_repeats(v@),
    {
        let ghost es = entries_seq(self.entries@);
        proof {
            if set@.len() == 0 {
                assert(element_set(set@) =~= Set::<ElementIRModel>::empty());
            } else {
                assert(element_set(set@).contains(set@[0]@)) by {
                    assert(elements_ir_view(set@)[0] == set@[0]@);
                }
            }
        }
        match self.find(key) {
            Some(i) => {
                assert(no_repeats(self.entries@[i as int].1@)) by {
                    assert(es[i as int].1 == self.entries@[i as int].1@);
                }
                if set.len() == 0 {
                    return Some(copy_elements(&self.entries[i].1));
                }
                let mut nv = copy_elements(&self.entries[i].1);
                assert(no_repeats(self.entries@[i as int].1@)) by {
                    assert(es[i as int].1 == self.entries@[i as int].1@);
                }
                add_all(&mut nv, &set);
                let out = copy_elements(&nv);
                let ghost nvv = nv@;
                self.entries.set(i, (key, nv));
                proof {
                    assert(entries_seq(self.entries@) =~= es.update(i as int, (es[i as int].0, nvv)));
                    lemma_cache_update(es, i as int, nvv);
                    let u = es.update(i as int, (es[i as int].0, nvv));
                    assert forall|x: int, y: int| 0 <= x < y < u.len() implies u[x].0 != u[y].0 by {
                        assert(u[x].0 == es[x].0 && u[y].0 == es[y].0);
                    }
                    assert forall|x: int| 0 <= x < u.len() implies no_repeats(#[trigger] u[x].1) by {
                        if x != i {
                            assert(u[x] == es[x]);
                        }
                    }
                }
                Some(out)
            },
            None => {
                if set.len() == 0 {
                    return None;
                }
                let out = copy_elements(&set);
                let ghost sv = set@;
                self.entries.push((key, set));
                proof {
                    let u = es.push((key, sv));
                    assert(entries_seq(self.entries@) =~= u);
                    assert(u.drop_last() =~= es);
                    assert forall|x: int, y: int| 0 <= x < y < u.len() implies u[x].0 != u[y].0 by {
                        if y == es.len() {
                            if u[x].0 == key {
                                lemma_cache_lookup(es, x);
                            }
                        }
                    }
                    assert forall|x: int| 0 <= x < u.len() implies no_repeats(#[trigger] u[x].1) by {
                        if x < es.len() {
                            assert(u[x] == es[x]);
                        }
                    }
                }
                Some(out)
            },
        }
    }
}

/// Pairs of an element of `a` and one of `b`.
pub open spec fn pairs<X, Y>(a: Set<X>, b: Set<Y>) -> Set<(X, Y)> {
    a.map(|x: X| b.map(|y: Y| (x, y))).flatten()
}

proof fn lemma_pairs_finite<X, Y>(a: Set<X>, b: Set<Y>)
    requires
        a.finite(),
        b.finite(),
    ensures
        pairs(a, b).finite(),
{
    let f = |x: X| b.map(|y: Y| (x, y));
    a.lemma_map_finite(f);
    assert forall|t: Set<(X, Y)>| a.map(f).contains(t) implies #[trigger] t.finite() by {
        let x = choose|x: X| a.contains(x) && f(x) == t;
        b.lemma_map_finite(|y: Y| (x, y));
    }
    a.map(f).lemma_flatten_finite();
}

proof fn lemma_pairs_contains<X, Y>(a: Set<X>, b: Set<Y>, x: X, y: Y)
    requires
        a.contains(x),
        b.contains(y),
    ensures
        pairs(a, b).contains((x, y)),
{
    let f = |x: X| b.map(|y: Y| (x, y));
    assert(a.map(f).contains(f(x)));
    assert(f(x).contains((x, y)));
}

/// Every visited step for depth `n`.
pub open spec fn keys_at(n: usize) -> Set<(usize, usize, usize, usize, usize)> {
    Set::new(|k: (usize, usize, usize, usize, usize)| k.2 == n)
}

proof fn lemma_keys_finite(n: usize)
    ensures
        keys_at(n).finite(),
{
    broadcast use vstd::set_lib::full_set_properties;

    let u = Set::<usize>::full();
    let p = pairs(u, u);
    lemma_pairs_finite(u, u);
    let q = pairs(p, p);
    lemma_pairs_finite(p, p);
    let g = |t: ((usize, usize), (usize, usize))| (t.0.0, t.0.1, n, t.1.0, t.1.1);
    q.lemma_map_finite(g);
    assert forall|k: (usize, usize, usize, usize, usize)| keys_at(n).contains(k) implies #[trigger] q.map(
        g,
    ).contains(k) by {
        lemma_pairs_contains(u, u, k.0, k.1);
        lemma_pairs_contains(u, u, k.3, k.4);
        lemma_pairs_contains(p, p, (k.0, k.1), (k.3, k.4));
        assert(g(((k.0, k.1), (k.3, k.4))) == k);
    }
    vstd::set_lib::lemma_set_subset_finite(q.map(g), keys_at(n));
}

/// How many steps at depth `n` are not visited yet.
pub open spec fn nth_measure(n: usize, visited: Set<(usize, usize, usize, usize, usize)>) -> nat {
    (keys_at(n).len() - visited.intersect(keys_at(n)).len()) as nat
}

proof fn lemma_measure(
    n: usize,
    v: Set<(usize, usize, usize, usize, usize)>,
    w: Set<(usize, usize, usize, usize, usize)>,
    k: (usize, usize, usize, usize, usize),
)
    requires
        v.insert(k).subset_of(w),
        !v.contains(k),
        k.2 == n,
    ensures
        nth_measure(n, w) < nth_measure(n, v),
{
    lemma_keys_finite(n);
    let ks = keys_at(n);
    vstd::set_lib::lemma_len_subset(v.intersect(ks), ks);
    vstd::set_lib::lemma_len_subset(w.intersect(ks), ks);
    vstd::set_lib::lemma_set_subset_finite(ks, v.intersect(ks));
    vstd::set_lib::lemma_set_subset_finite(ks, w.intersect(ks));
    assert(v.intersect(ks).insert(k).subset_of(w.intersect(ks)));
    vstd::set_lib::lemma_len_subset(v.intersect(ks).insert(k), w.intersect(ks));
}

/// Records a step as visited; whether it was new.
fn visit(visited: &mut Vec<(usize, usize, usize, usize, usize)>, key: (usize, usize, usize, usize, usize)) -> (fresh: bool)
    ensures
        final(visited)@.to_set() == old(visited)@.to_set().insert(key),
        fresh == !old(visited)@.to_set().contains(key),
{
    let mut i: usize = 0;
    while i < visited.len()
        invariant
            i <= visited.len(),
            forall|k: int| 0 <= k < i ==> visited@[k] != key,
        decreases visited.len() - i,
    {
        let v = visited[i];
        if v.0 == key.0 && v.1 == key.1 && v.2 == key.2 && v.3 == key.3 && v.4 == key.4 {
            assert(visited@[i as int] == key);
            assert(visited@.to_set().insert(key) =~= visited@.to_set());
            return false;
        }
        i += 1;
    }
    let ghost before = visited@;
    visited.push(key);
    assert(visited@.to_set() =~= before.to_set().insert(key)) by {
        assert forall|x| visited@.to_set().contains(x) implies before.to_set().insert(key).contains(x) by {
            let k = choose|k: int| 0 <= k < visited@.len() && visited@[k] == x;
            if k < before.len() {
                assert(before[k] == x);
            }
        }
        assert forall|x| before.to_set().insert(key).contains(x) implies visited@.to_set().contains(x) by {
            if x == key {
                assert(visited@[before.len() as int] == key);
            } else {
                let k = choose|k: int| 0 <= k < before.len() && before[k] == x;
                assert(visited@[k] == x);
            }
        }
    }
    true
}

/// An alternative that exists.
pub open spec fn alt_ok(rules: Seq<RuleIRModel>, r: usize, a: usize) -> bool {
    r < rules.len() && a < rules[r as int].alts.len()
}

/// Every rule an element names exists.
pub open spec fn rules_closed(rules: Seq<RuleIRModel>) -> bool {
    forall|r: usize, a: usize, e: int|
        alt_ok(rules, r, a) && 0 <= e < rules[r as int].alts[a as int].elements.len() ==> (
        #[trigger] rules[r as int].alts[a as int].elements[e] matches ElementIRModel::RuleAtom {
            id,
            ..
        } ==> id < rules.len())
}

/// A position in an existing alternative, its end included.
pub open spec fn place_ok(rules: Seq<RuleIRModel>, p: (usize, usize, usize)) -> bool {
    alt_ok(rules, p.0, p.1) && p.2 <= rules[p.0 as int].alts[p.1 as int].elements.len()
}

pub open spec fn places_ok(rules: Seq<RuleIRModel>, s: Seq<(usize, usize, usize)>) -> bool {
    forall|i: int| 0 <= i < s.len() ==> place_ok(rules, #[trigger] s[i])
}

/// The state of a search as its parts hold it.
pub open spec fn state_of(
    continuation: Seq<(usize, usize, usize)>,
    cache: Map<(usize, usize, usize), Set<ElementIRModel>>,
    visited: Seq<(usize, usize, usize, usize, usize)>,
) -> NthState {
    NthState { visited: visited.to_set(), continuation, cache }
}

/// The set of a list that may be missing, empty for none.
pub open spec fn opt_elements(o: Option<Vec<ElementIR>>) -> Option<Set<ElementIRModel>> {
    match o {
        Some(v) => Some(element_set(v@)),
        None => None,
    }
}

/// The elements `n` tokens ahead of position `key.2` of alternative `key.1` of
/// rule `key.0`, `current_idx` tokens in: the search `nth_f` describes, run
/// with the state held in `continuation`, `nth_set_cache` and `visited`. The
/// set found is also added to the cache at the position searched from.
pub fn nth(
    n: usize,
    current_idx: usize,
    key: (usize, usize, usize),
    continuation: &mut Vec<(usize, usize, usize)>,
    nth_set_cache: &mut NthCache,
    visited: &mut Vec<(usize, usize, usize, usize, usize)>,
    rules: &Vec<RuleIR>,
) -> (r: Option<Vec<ElementIR>>)
    requires
        n < usize::MAX,
        rules_closed(rules_ir_view(rules@)),
        place_ok(rules_ir_view(rules@), key),
        places_ok(rules_ir_view(rules@), old(continuation)@),
        old(nth_set_cache).wf(),
    ensures
        final(nth_set_cache).wf(),
        places_ok(rules_ir_view(rules@), final(continuation)@),
        old(visited)@.to_set().subset_of(final(visited)@.to_set()),
        r matches Some(v) ==> no_repeats(v@),
        exists|f: nat|
            nth_f(
                f,
                rules_ir_view(rules@),
                n,
                current_idx,
                key.0,
                key.1,
                key.2,
                state_of(old(continuation)@, old(nth_set_cache)@, old(visited)@),
            ) == Some(
                (
                    opt_elements(r),
                    state_of(final(continuation)@, final(nth_set_cache)@, final(visited)@),
                ),
            ),
    decreases nth_measure(n, old(visited)@.to_set()),
{
    let ghost rv = rules_ir_view(rules@);
    let ghost st0 = state_of(continuation@, nth_set_cache@, visited@);
    let ghost v0 = visited@.to_set();
    let vkey = (key.0, key.1, n, key.2, current_idx);
    let fresh = visit(visited, vkey);
    let ghost st1 = NthState { visited: st0.visited.insert(vkey), ..st0 };
    assert(state_of(continuation@, nth_set_cache@, visited@) == st1);
    if current_idx > n || !fresh {
        assert(nth_f(1, rv, n, current_idx, key.0, key.1, key.2, st0) == Some(
            (None::<Set<ElementIRModel>>, st1),
        ));
        return None;
    }
    assert(rules@[key.0 as int]@ == rv[key.0 as int]);
    let alts = rules[key.0].alts();
    assert(alts@[key.1 as int]@@ == rv[key.0 as int].alts[key.1 as int]);
    let alt = alts[key.1].get();
    let elements = alt.elements();
    let ghost es = rv[key.0 as int].alts[key.1 as int].elements;
    assert(elements_ir_view(elements@) == es);
    let ck = (key.0, key.1, key.2);
    if key.2 >= elements.len() {
        match continuation.pop() {
            None => {
                let r = nth_set_cache.extend(ck, Vec::new());
                proof {
                    assert(element_set(Seq::<ElementIR>::empty()) =~= Set::<ElementIRModel>::empty());
                    assert(nth_f(1, rv, n, current_idx, key.0, key.1, key.2, st0) == Some(
                        (opt_elements(r), state_of(continuation@, nth_set_cache@, visited@)),
                    ));
                }
                return r;
            },
            Some(top) => {
                let ghost st2 = state_of(continuation@, nth_set_cache@, visited@);
                proof {
                    lemma_measure(n, v0, visited@.to_set(), vkey);
                }
                let res = nth(n, current_idx, top, continuation, nth_set_cache, visited, rules);
                let ghost st3 = state_of(continuation@, nth_set_cache@, visited@);
                let ghost f1 = choose|f: nat|
                    #[trigger] nth_f(f, rv, n, current_idx, top.0, top.1, top.2, st2) == Some(
                        (opt_elements(res), st3),
                    );
                let set = match res {
                    Some(v) => v,
                    None => Vec::new(),
                };
                proof {
                    assert(element_set(Seq::<ElementIR>::empty()) =~= Set::<ElementIRModel>::empty());
                    assert(opt_set(opt_elements(res)) == element_set(set@));
                }
                let r = nth_set_cache.extend(ck, set);
                proof {
                    assert(st2 == NthState { continuation: st1.continuation.drop_last(), ..st1 });
                    assert(nth_f(f1 + 1, rv, n, current_idx, key.0, key.1, key.2, st0) == Some(
                        (opt_elements(r), state_of(continuation@, nth_set_cache@, visited@)),
                    ));
                }
                return r;
            },
        }
    }
    let element = &elements[key.2];
    assert(element@ == es[key.2 as int]);
    let ghost el = element@;
    let mut set: Vec<ElementIR> = Vec::new();
    if current_idx == n {
        set.push(element.duplicate());
    }
    let ghost s0 = if current_idx == n {
        Set::<ElementIRModel>::empty().insert(el)
    } else {
        Set::<ElementIRModel>::empty()
    };
    proof {
        if current_idx == n {
            assert(elements_ir_view(set@) =~= seq![el]);
            assert(element_set(set@) =~= s0) by {
                assert(elements_ir_view(set@)[0] == el);
            }
        } else {
            assert(element_set(set@) =~= s0);
        }
    }
    let ghost mut fuel_used: nat = 0;
    // the search after a skippable element
    let ghost st_after1 = st1;
    match element.suffix() {
        Some(EBNFSuffix::Optional) | Some(EBNFSuffix::Star) => {
            proof {
                lemma_measure(n, v0, visited@.to_set(), vkey);
            }
            let ghost before = state_of(continuation@, nth_set_cache@, visited@);
            let res = nth(
                n,
                current_idx,
                (key.0, key.1, key.2 + 1),
                continuation,
                nth_set_cache,
                visited,
                rules,
            );
            let ghost after = state_of(continuation@, nth_set_cache@, visited@);
            let ghost e1 = (key.2 + 1) as usize;
            let ghost f1 = choose|f: nat|
                #[trigger] nth_f(f, rv, n, current_idx, key.0, key.1, e1, before) == Some(
                    (opt_elements(res), after),
                );
            let ghost old_set = element_set(set@);
            match res {
                Some(v) => add_all(&mut set, &v),
                None => {},
            }
            proof {
                assert(element_set(set@) == old_set.union(opt_set(opt_elements(res))));
                fuel_used = f1;
                st_after1 = after;
            }
        },
        _ => {},
    }
    let ghost s1 = element_set(set@);
    let ghost st2 = state_of(continuation@, nth_set_cache@, visited@);
    assert(st2 == st_after1);
    let ghost mut fuel2: nat = 0;
    let ghost mut st_after2 = st2;
    match element {
        ElementIR::TokenAtom { .. } => {
            proof {
                lemma_measure(n, v0, visited@.to_set(), vkey);
            }
            let ghost before = state_of(continuation@, nth_set_cache@, visited@);
            let res = nth(
                n,
                current_idx + 1,
                (key.0, key.1, key.2 + 1),
                continuation,
                nth_set_cache,
                visited,
                rules,
            );
            let ghost after = state_of(continuation@, nth_set_cache@, visited@);
            let ghost e1 = (key.2 + 1) as usize;
            let ghost c1 = (current_idx + 1) as usize;
            let ghost f2 = choose|f: nat|
                #[trigger] nth_f(f, rv, n, c1, key.0, key.1, e1, before) == Some(
                    (opt_elements(res), after),
                );
            let ghost old_set = element_set(set@);
            match res {
                Some(v) => add_all(&mut set, &v),
                None => {},
            }
            proof {
                assert(element_set(set@) == old_set.union(opt_set(opt_elements(res))));
                fuel2 = f2;
                st_after2 = after;
            }
        },
        ElementIR::RuleAtom { id, .. } => {
            let id = *id;
            assert(id < rv.len());
            assert(rules@[id as int]@ == rv[id as int]);
            let rule_alts = rules[id].alts();
            let ghost alts_model = rv[id as int].alts;
            assert(alts_ir_view(rule_alts@) == alts_model);
            let ghost mut big: nat = 0;
            let next: usize = key.2 + 1;
            let mut j: usize = 0;
            while j < rule_alts.len()
                invariant
                    rv == rules_ir_view(rules@),
                    alts_ir_view(rule_alts@) == alts_model,
                    alts_model == rv[id as int].alts,
                    id < rv.len(),
                    n < usize::MAX,
                    current_idx <= n,
                    rules_closed(rv),
                    place_ok(rv, key),
                    key.2 < es.len(),
                    es == rv[key.0 as int].alts[key.1 as int].elements,
                    vkey == (key.0, key.1, n, key.2, current_idx),
                    !v0.contains(vkey),
                    v0 == old(visited)@.to_set(),
                    next == key.2 + 1,
                    places_ok(rv, continuation@),
                    nth_set_cache.wf(),
                    v0.insert(vkey).subset_of(visited@.to_set()),
                    no_repeats(set@),
                    j <= rule_alts.len(),
                    forall|g: nat|
                        g >= big ==> nth_alts_f(
                            g,
                            rv,
                            n,
                            current_idx,
                            key.0,
                            key.1,
                            key.2,
                            id,
                            0,
                            s1,
                            st2,
                        ) == nth_alts_f(
                            g,
                            rv,
                            n,
                            current_idx,
                            key.0,
                            key.1,
                            key.2,
                            id,
                            j as nat,
                            element_set(set@),
                            state_of(continuation@, nth_set_cache@, visited@),
                        ),
                decreases rule_alts.len() - j,
            {
                let ghost st_j = state_of(continuation@, nth_set_cache@, visited@);
                let ghost set_j = element_set(set@);
                continuation.push((key.0, key.1, next));
                let ghost before = state_of(continuation@, nth_set_cache@, visited@);
                assert(before == NthState {
                    continuation: st_j.continuation.push((key.0, key.1, (key.2 + 1) as usize)),
                    ..st_j
                });
                proof {
                    lemma_measure(n, v0, visited@.to_set(), vkey);
                    assert(places_ok(rv, continuation@)) by {
                        assert forall|i: int| 0 <= i < continuation@.len() implies place_ok(
                            rv,
                            #[trigger] continuation@[i],
                        ) by {
                            if i < continuation@.len() - 1 {
                                assert(continuation@[i] == st_j.continuation[i]);
                            }
                        }
                    }
                }
                let res = nth(n, current_idx, (id, j, 0), continuation, nth_set_cache, visited, rules);
                let ghost after = state_of(continuation@, nth_set_cache@, visited@);
                let ghost ju = j as usize;
                let ghost fj = choose|f: nat|
                    #[trigger] nth_f(f, rv, n, current_idx, id, ju, 0, before) == Some(
                        (opt_elements(res), after),
                    );
                match res {
                    Some(v) => add_all(&mut set, &v),
                    None => {},
                }
                proof {
                    assert(element_set(set@) == set_j.union(opt_set(opt_elements(res))));
                    let nb = if big >= fj {
                        big
                    } else {
                        fj
                    };
                    assert forall|g: nat| g >= nb implies nth_alts_f(
                        g,
                        rv,
                        n,
                        current_idx,
                        key.0,
                        key.1,
                        key.2,
                        id,
                        j as nat,
                        set_j,
                        st_j,
                    ) == nth_alts_f(
                        g,
                        rv,
                        n,
                        current_idx,
                        key.0,
                        key.1,
                        key.2,
                        id,
                        (j + 1) as nat,
                        element_set(set@),
                        after,
                    ) by {
                        lemma_nth_more(fj, g, rv, n, current_idx, id, ju, 0, before);
                    }
                    big = nb;
                }
                j += 1;
            }
            proof {
                fuel2 = big;
                st_after2 = state_of(continuation@, nth_set_cache@, visited@);
            }
        },
        _ => {},
    }
    let ghost s2 = element_set(set@);
    let ghost st3 = state_of(continuation@, nth_set_cache@, visited@);
    assert(st3 == st_after2);
    let r = nth_set_cache.extend(ck, set);
    proof {
        let fuel = fuel_used + fuel2 + 1;
        let e1 = (key.2 + 1) as usize;
        if skippable(el) {
            lemma_nth_more(fuel_used, (fuel - 1) as nat, rv, n, current_idx, key.0, key.1, e1, st1);
        }
        match el {
            ElementIRModel::TokenAtom { .. } => {
                lemma_nth_more(
                    fuel2,
                    (fuel - 1) as nat,
                    rv,
                    n,
                    (current_idx + 1) as usize,
                    key.0,
                    key.1,
                    e1,
                    st2,
                );
            },
            ElementIRModel::RuleAtom { id, .. } => {
                assert(nth_alts_f(
                    (fuel - 1) as nat,
                    rv,
                    n,
                    current_idx,
                    key.0,
                    key.1,
                    key.2,
                    id,
                    0,
                    s1,
                    st2,
                ) == Some((s2, st3)));
            },
            _ => {},
        }
        assert(nth_f(fuel, rv, n, current_idx, key.0, key.1, key.2, st0) == Some(
            (opt_elements(r), state_of(continuation@, nth_set_cache@, visited@)),
        ));
    }
    r
}

/// A search state with nothing visited, nothing to go on from and nothing found.
pub open spec fn fresh_state() -> NthState {
    NthState { visited: Set::empty(), continuation: Seq::empty(), cache: Map::empty() }
}

/// `acc` and, for each alternative of rule `r` from the `j`-th on, the set a
/// fresh search finds from its start, within `fuel` nested calls.
pub open spec fn nth_rule_f(
    fuel: nat,
    rules: Seq<RuleIRModel>,
    n: usize,
    r: usize,
    j: nat,
    acc: Set<ElementIRModel>,
) -> Option<Set<ElementIRModel>>
    decreases rules[r as int].alts.len() - j,
{
    if j >= rules[r as int].alts.len() {
        Some(acc)
    } else {
        match nth_f(fuel, rules, n, 0, r, j as usize, 0, fresh_state()) {
            None => None,
            Some((res, _)) => nth_rule_f(fuel, rules, n, r, j + 1, acc.union(opt_set(res))),
        }
    }
}

impl AntlrIR {
    /// The elements `n` tokens into rule `rule`: for each of its alternatives
    /// a fresh search from its start, the sets found taken together. `None`
    /// when there is no such rule.
    pub fn nth(&self, n: usize, rule: usize) -> (r: Option<Vec<ElementIR>>)
        requires
            n < usize::MAX,
            rules_closed(self@.rules),
        ensures
            rule >= self@.rules.len() ==> r is None,
            rule < self@.rules.len() ==> (r matches Some(v) && no_repeats(v@) && exists|f: nat|
                nth_rule_f(f, self@.rules, n, rule, 0, Set::empty()) == Some(element_set(v@))),
    {
        let rules = self.rules();
        let ghost rv = rules_ir_view(rules@);
        if rule >= rules.len() {
            return None;
        }
        assert(rules@[rule as int]@ == rv[rule as int]);
        let alts = rules[rule].alts();
        let mut set: Vec<ElementIR> = Vec::new();
        let ghost mut big: nat = 0;
        proof {
            assert(element_set(set@) =~= Set::<ElementIRModel>::empty());
        }
        let mut j: usize = 0;
        while j < alts.len()
            invariant
                rv == rules_ir_view(rules@),
                rv == self@.rules,
                rule < rv.len(),
                alts_ir_view(alts@) == rv[rule as int].alts,
                n < usize::MAX,
                rules_closed(rv),
                j <= alts.len(),
                no_repeats(set@),
                forall|g: nat|
                    g >= big ==> nth_rule_f(g, rv, n, rule, 0, Set::empty()) == nth_rule_f(
                        g,
                        rv,
                        n,
                        rule,
                        j as nat,
                        element_set(set@),
                    ),
            decreases alts.len() - j,
        {
            let ghost set_j = element_set(set@);
            let mut continuation: Vec<(usize, usize, usize)> = Vec::new();
            let mut cache = NthCache::new();
            let mut visited: Vec<(usize, usize, usize, usize, usize)> = Vec::new();
            proof {
                assert(visited@.to_set() =~= Set::<(usize, usize, usize, usize, usize)>::empty());
                assert(state_of(continuation@, cache@, visited@) == fresh_state());
            }
            let res = nth(n, 0, (rule, j, 0), &mut continuation, &mut cache, &mut visited, rules);
            let ghost ju = j as usize;
            let ghost after = state_of(continuation@, cache@, visited@);
            let ghost fj = choose|f: nat|
                #[trigger] nth_f(f, rv, n, 0, rule, ju, 0, fresh_state()) == Some(
                    (opt_elements(res), after),
                );
            match res {
                Some(v) => add_all(&mut set, &v),
                None => {},
            }
            proof {
                assert(element_set(set@) == set_j.union(opt_set(opt_elements(res))));
                let nb = if big >= fj {
                    big
                } else {
                    fj
                };
                assert forall|g: nat| g >= nb implies nth_rule_f(
                    g,
                    rv,
                    n,
                    rule,
                    j as nat,
                    set_j,
                ) == nth_rule_f(g, rv, n, rule, (j + 1) as nat, element_set(set@)) by {
                    lemma_nth_more(fj, g, rv, n, 0, rule, ju, 0, fresh_state());
                }
                big = nb;
            }
            j += 1;
        }
        assert(nth_rule_f(big, rv, n, rule, 0, Set::empty()) == Some(element_set(set@)));
        Some(set)
    }
}

/// The search through a rule's alternatives keeps what it was given.
proof fn lemma_alts_keep(
    fuel: nat,
    rules: Seq<RuleIRModel>,
    n: usize,
    c: usize,
    r: usize,
    a: usize,
    e: usize,
    id: usize,
    j: nat,
    acc: Set<ElementIRModel>,
    st: NthState,
)
    requires
        nth_alts_f(fuel, rules, n, c, r, a, e, id, j, acc, st) is Some,
    ensures
        acc.subset_of(nth_alts_f(fuel, rules, n, c, r, a, e, id, j, acc, st)->Some_0.0),
    decreases rules[id as int].alts.len() - j,
{
    if j < rules[id as int].alts.len() {
        let st1 = NthState {
            continuation: st.continuation.push((r, a, (e + 1) as usize)),
            ..st
        };
        let (res, st2) = nth_f(fuel, rules, n, c, id, j as usize, 0, st1)->Some_0;
        lemma_alts_keep(fuel, rules, n, c, r, a, e, id, j + 1, acc.union(opt_set(res)), st2);
    }
}

/// A search that reaches the depth it looks for at an element it has not
/// visited finds that element.
proof fn lemma_nth_finds_element(
    fuel: nat,
    rules: Seq<RuleIRModel>,
    n: usize,
    r: usize,
    a: usize,
    e: usize,
    st: NthState,
)
    requires
        nth_f(fuel, rules, n, n, r, a, e, st) is Some,
        !st.visited.contains((r, a, n, e, n)),
        e < rules[r as int].alts[a as int].elements.len(),
    ensures
        nth_f(fuel, rules, n, n, r, a, e, st)->Some_0.0 matches Some(found) && found.contains(
            rules[r as int].alts[a as int].elements[e as int],
        ),
{
    let el = rules[r as int].alts[a as int].elements[e as int];
    let st1 = NthState { visited: st.visited.insert((r, a, n, e, n)), ..st };
    let s0 = Set::<ElementIRModel>::empty().insert(el);
    let step1 = if skippable(el) {
        match nth_f((fuel - 1) as nat, rules, n, n, r, a, (e + 1) as usize, st1) {
            None => None,
            Some((res, s)) => Some((s0.union(opt_set(res)), s)),
        }
    } else {
        Some((s0, st1))
    };
    let (s1, st2) = step1->Some_0;
    assert(s1.contains(el));
    let step2 = match el {
        ElementIRModel::TokenAtom { .. } => match nth_f(
            (fuel - 1) as nat,
            rules,
            n,
            (n + 1) as usize,
            r,
            a,
            (e + 1) as usize,
            st2,
        ) {
            None => None,
            Some((res, s)) => Some((s1.union(opt_set(res)), s)),
        },
        ElementIRModel::RuleAtom { id, .. } => {
            lemma_alts_keep((fuel - 1) as nat, rules, n, n, r, a, e, id, 0, s1, st2);
            nth_alts_f((fuel - 1) as nat, rules, n, n, r, a, e, id, 0, s1, st2)
        },
        _ => Some((s1, st2)),
    };
    let (s2, st3) = step2->Some_0;
    assert(s2.contains(el));
    assert(s2 != Set::<ElementIRModel>::empty()) by {
        if s2 == Set::<ElementIRModel>::empty() {
            assert(!Set::<ElementIRModel>::empty().contains(el));
        }
    }
    assert(nth_f(fuel, rules, n, n, r, a, e, st) == Some(cache_extend(st3, (r, a, e), s2)));
}

/// The search through a rule's alternatives, each from its start, keeps what
/// it was given and takes in what each alternative gives.
proof fn lemma_rule_keep(
    fuel: nat,
    rules: Seq<RuleIRModel>,
    n: usize,
    r: usize,
    j: nat,
    acc: Set<ElementIRModel>,
)
    requires
        nth_rule_f(fuel, rules, n, r, j, acc) is Some,
    ensures
        acc.subset_of(nth_rule_f(fuel, rules, n, r, j, acc)->Some_0),
        forall|a: usize|
            j <= a < rules[r as int].alts.len() ==> ((#[trigger] nth_f(
                fuel,
                rules,
                n,
                0,
                r,
                a,
                0,
                fresh_state(),
            )) matches Some((res, _)) && opt_set(res).subset_of(
                nth_rule_f(fuel, rules, n, r, j, acc)->Some_0,
            )),
    decreases rules[r as int].alts.len() - j,
{
    if j < rules[r as int].alts.len() {
        let (res, _) = nth_f(fuel, rules, n, 0, r, j as usize, 0, fresh_state())->Some_0;
        lemma_rule_keep(fuel, rules, n, r, j + 1, acc.union(opt_set(res)));
    }
}

/// Whatever can start an alternative of a rule is among the rule's elements
/// zero tokens ahead.
pub proof fn law_first_elements_ahead(
    rules: Seq<RuleIRModel>,
    r: usize,
    a: usize,
    fuel: nat,
    found: Set<ElementIRModel>,
)
    requires
        r < rules.len(),
        a < rules[r as int].alts.len(),
        rules[r as int].alts[a as int].elements.len() > 0,
        nth_rule_f(fuel, rules, 0, r, 0, Set::empty()) == Some(found),
    ensures
        found.contains(rules[r as int].alts[a as int].elements[0]),
{
    lemma_rule_keep(fuel, rules, 0, r, 0, Set::empty());
    assert(nth_f(fuel, rules, 0, 0, r, a, 0, fresh_state()) is Some);
    lemma_nth_finds_element(fuel, rules, 0, r, a, 0, fresh_state());
}

} // verus!
