use vstd::prelude::*;

use crate::codeset::CodeSet;

verus! {

/// The index of a state in a fragment.
#[derive(Copy, Clone, Debug, Hash, PartialEq, Eq, Structural)]
pub struct StateRef(pub usize);

impl StateRef {
    pub fn offset(&mut self, by: usize)
        requires
            old(self).0 + by <= usize::MAX,
        ensures
            final(self).0 == old(self).0 + by,
    {
        self.0 += by;
    }
}

/// The index of a transition in a fragment.
#[derive(Copy, Clone, Debug, Hash, PartialEq, Eq, Structural)]
pub struct TransitionRef(usize);

impl TransitionRef {
    pub closed spec fn index(self) -> int {
        self.0 as int
    }

    pub fn offset(&mut self, by: usize)
        requires
            old(self).index() + by <= usize::MAX,
        ensures
            final(self).index() == old(self).index() + by,
    {
        self.0 += by;
    }
}

/// A state: the transitions that leave it.
#[derive(Debug)]
pub struct State {
    transitions: Vec<TransitionRef>,
}

/// Every index of a set moved up by `by`.
pub open spec fn shift_set(s: Set<int>, by: int) -> Set<int> {
    s.map(|t: int| t + by)
}

/// The indices of a list of transition references.
pub open spec fn ref_indices(s: Seq<TransitionRef>) -> Seq<int> {
    s.map_values(|t: TransitionRef| t.index())
}

/// No transition is listed twice.
pub open spec fn distinct_refs(s: Seq<TransitionRef>) -> bool {
    forall|i: int, j: int| 0 <= i < j < s.len() ==> s[i] != s[j]
}

impl View for State {
    type V = Set<int>;

    closed spec fn view(&self) -> Set<int> {
        ref_indices(self.transitions@).to_set()
    }
}

impl State {
    #[verifier::type_invariant]
    closed spec fn no_duplicates(self) -> bool {
        distinct_refs(self.transitions@)
    }

    pub fn new() -> (s: State)
        ensures
            s@ == Set::<int>::empty(),
    {
        let s = State { transitions: Vec::new() };
        assert(ref_indices(s.transitions@).to_set() =~= Set::<int>::empty());
        s
    }

    /// The transitions that leave this state, each once.
    pub fn transitions(&self) -> (t: &Vec<TransitionRef>)
        ensures
            distinct_refs(t@),
            ref_indices(t@).to_set() == self@,
    {
        proof {
            use_type_invariant(self);
        }
        &self.transitions
    }

    /// Moves every transition index up by `by`.
    fn offset(&mut self, by: usize)
        requires
            forall|t: int| old(self)@.contains(t) ==> t + by <= usize::MAX,
        ensures
            final(self)@ == shift_set(old(self)@, by as int),
    {
        proof {
            use_type_invariant(&*self);
        }
        let mut ts: Vec<TransitionRef> = Vec::new();
        std::mem::swap(&mut ts, &mut self.transitions);
        let ghost orig = ts@;
        let n = ts.len();
        assert forall|j: int| 0 <= j < orig.len() implies orig[j].index() + by <= usize::MAX by {
            assert(ref_indices(orig)[j] == orig[j].index());
            assert(old(self)@.contains(ref_indices(orig)[j]));
        }
        let mut i: usize = 0;
        while i < n
            invariant
                n == ts@.len(),
                n == orig.len(),
                i <= n,
                distinct_refs(orig),
                forall|j: int| 0 <= j < orig.len() ==> orig[j].index() + by <= usize::MAX,
                ts@.len() == n,
                forall|j: int| i <= j < n ==> ts@[j] == orig[j],
                forall|j: int| 0 <= j < i ==> ts@[j].index() == orig[j].index() + by,
            decreases n - i,
        {
            assert(ts@[i as int] == orig[i as int]);
            assert(orig[i as int].index() + by <= usize::MAX);
            ts[i].offset(by);
            i += 1;
        }
        assert(distinct_refs(ts@)) by {
            assert forall|a: int, b: int| 0 <= a < b < ts@.len() implies ts@[a] != ts@[b] by {
                assert(orig[a] != orig[b]);
                if ts@[a] == ts@[b] {
                    assert(orig[a].index() == orig[b].index());
                    assert(orig[a] == orig[b]);
                }
            }
        }
        self.transitions = ts;
        proof {
            let m_new = ref_indices(self.transitions@);
            let m_old = ref_indices(orig);
            assert(m_new.to_set() =~= shift_set(m_old.to_set(), by as int)) by {
                assert forall|x: int| m_new.to_set().contains(x) implies shift_set(m_old.to_set(), by as int).contains(x) by {
                    let k = choose|k: int| 0 <= k < m_new.len() && m_new[k] == x;
                    assert(m_old[k] + by == x);
                    assert(m_old.to_set().contains(m_old[k]));
                }
                assert forall|x: int| shift_set(m_old.to_set(), by as int).contains(x) implies m_new.to_set().contains(
                    x,
                ) by {
                    let y = choose|y: int| m_old.to_set().contains(y) && y + by == x;
                    let k = choose|k: int| 0 <= k < m_old.len() && m_old[k] == y;
                    assert(m_new[k] == x);
                }
            }
        }
    }
}

#[derive(Debug)]
pub enum Transition {
    Epsilon { source: StateRef, target: StateRef },
    Atom { source: StateRef, target: StateRef, input: usize },
    Range { source: StateRef, target: StateRef, start: usize, stop: usize },
    CharSet { source: StateRef, target: StateRef, set: CodeSet },
    NotSet { source: StateRef, target: StateRef, not_set: CodeSet },
}

/// A transition as a value.
pub enum TransitionModel {
    Epsilon { source: int, target: int },
    Atom { source: int, target: int, input: int },
    Range { source: int, target: int, start: int, stop: int },
    CharSet { source: int, target: int, set: Set<usize> },
    NotSet { source: int, target: int, not_set: Set<usize> },
}

impl TransitionModel {
    pub open spec fn source(self) -> int {
        match self {
            TransitionModel::Epsilon { source, .. } => source,
            TransitionModel::Atom { source, .. } => source,
            TransitionModel::Range { source, .. } => source,
            TransitionModel::CharSet { source, .. } => source,
            TransitionModel::NotSet { source, .. } => source,
        }
    }

    pub open spec fn target(self) -> int {
        match self {
            TransitionModel::Epsilon { target, .. } => target,
            TransitionModel::Atom { target, .. } => target,
            TransitionModel::Range { target, .. } => target,
            TransitionModel::CharSet { target, .. } => target,
            TransitionModel::NotSet { target, .. } => target,
        }
    }

    /// The same transition with both ends moved up by `by`.
    pub open spec fn shifted(self, by: int) -> TransitionModel {
        match self {
            TransitionModel::Epsilon { source, target } => TransitionModel::Epsilon {
                source: source + by,
                target: target + by,
            },
            TransitionModel::Atom { source, target, input } => TransitionModel::Atom {
                source: source + by,
                target: target + by,
                input,
            },
            TransitionModel::Range { source, target, start, stop } => TransitionModel::Range {
                source: source + by,
                target: target + by,
                start,
                stop,
            },
            TransitionModel::CharSet { source, target, set } => TransitionModel::CharSet {
                source: source + by,
                target: target + by,
                set,
            },
            TransitionModel::NotSet { source, target, not_set } => TransitionModel::NotSet {
                source: source + by,
                target: target + by,
                not_set,
            },
        }
    }
}

impl View for Transition {
    type V = TransitionModel;

    open spec fn view(&self) -> TransitionModel {
        match self {
            Transition::Epsilon { source, target } => TransitionModel::Epsilon {
                source: source.0 as int,
                target: target.0 as int,
            },
            Transition::Atom { source, target, input } => TransitionModel::Atom {
                source: source.0 as int,
                target: target.0 as int,
                input: *input as int,
            },
            Transition::Range { source, target, start, stop } => TransitionModel::Range {
                source: source.0 as int,
                target: target.0 as int,
                start: *start as int,
                stop: *stop as int,
            },
            Transition::CharSet { source, target, set } => TransitionModel::CharSet {
                source: source.0 as int,
                target: target.0 as int,
                set: set@,
            },
            Transition::NotSet { source, target, not_set } => TransitionModel::NotSet {
                source: source.0 as int,
                target: target.0 as int,
                not_set: not_set@,
            },
        }
    }
}

impl Transition {
    pub fn offset(&mut self, by: usize)
        requires
            old(self)@.source() + by <= usize::MAX,
            old(self)@.target() + by <= usize::MAX,
        ensures
            final(self)@ == old(self)@.shifted(by as int),
    {
        match self {
            Transition::Epsilon { source, target } => {
                source.offset(by);
                target.offset(by);
            },
            Transition::Atom { source, target, .. } => {
                source.offset(by);
                target.offset(by);
            },
            Transition::Range { source, target, .. } => {
                source.offset(by);
                target.offset(by);
            },
            Transition::CharSet { source, target, .. } => {
                source.offset(by);
                target.offset(by);
            },
            Transition::NotSet { source, target, .. } => {
                source.offset(by);
                target.offset(by);
            },
        }
    }

    pub fn is_epsilon(&self) -> (b: bool)
        ensures
            b == (self@ is Epsilon),
    {
        match self {
            Transition::Epsilon { .. } => true,
            _ => false,
        }
    }

    pub fn source(&self) -> (s: StateRef)
        ensures
            s.0 == self@.source(),
    {
        match self {
            Transition::Epsilon { source, .. } => *source,
            Transition::Atom { source, .. } => *source,
            Transition::Range { source, .. } => *source,
            Transition::CharSet { source, .. } => *source,
            Transition::NotSet { source, .. } => *source,
        }
    }

    pub fn target(&self) -> (t: StateRef)
        ensures
            t.0 == self@.target(),
    {
        match self {
            Transition::Epsilon { target, .. } => *target,
            Transition::Atom { target, .. } => *target,
            Transition::Range { target, .. } => *target,
            Transition::CharSet { target, .. } => *target,
            Transition::NotSet { target, .. } => *target,
        }
    }
}


#[derive(Debug)]
pub struct ATNFragment {
    start_state: StateRef,
    states: Vec<State>,
    transitions: Vec<Transition>,
}

/// A fragment as a value: its start state, the transitions leaving each state, and
/// the transitions.
pub struct FragmentModel {
    pub start: int,
    pub states: Seq<Set<int>>,
    pub transitions: Seq<TransitionModel>,
}

pub open spec fn states_view(s: Seq<State>) -> Seq<Set<int>> {
    s.map_values(|x: State| x@)
}

pub open spec fn transitions_view(s: Seq<Transition>) -> Seq<TransitionModel> {
    s.map_values(|x: Transition| x@)
}

impl View for ATNFragment {
    type V = FragmentModel;

    closed spec fn view(&self) -> FragmentModel {
        FragmentModel {
            start: self.start_state.0 as int,
            states: states_view(self.states@),
            transitions: transitions_view(self.transitions@),
        }
    }
}

/// The indices of a list of state references.
pub open spec fn state_indices(v: Seq<StateRef>) -> Seq<int> {
    v.map_values(|s: StateRef| s.0 as int)
}

/// The set of indices of a list of state references.
pub open spec fn state_set(v: Seq<StateRef>) -> Set<int> {
    state_indices(v).to_set()
}

/// No state is listed twice.
pub open spec fn distinct_states(v: Seq<StateRef>) -> bool {
    forall|i: int, j: int| 0 <= i < j < v.len() ==> v[i] != v[j]
}

/// `v` is the target of an epsilon transition that leaves state `u`.
pub open spec fn eps_edge(f: FragmentModel, u: int, v: int) -> bool {
    &&& 0 <= u < f.states.len()
    &&& exists|t: int|
        #![trigger f.states[u].contains(t)]
        f.states[u].contains(t) && 0 <= t < f.transitions.len() && f.transitions[t] is Epsilon
            && f.transitions[t].target() == v
}

/// The `i`-th step of `p` is an epsilon transition.
pub open spec fn path_step(f: FragmentModel, p: Seq<int>, i: int) -> bool {
    eps_edge(f, p[i], p[i + 1])
}

/// Consecutive states of `p` are joined by epsilon transitions.
pub open spec fn is_eps_path(f: FragmentModel, p: Seq<int>) -> bool {
    forall|i: int| 0 <= i < p.len() - 1 ==> #[trigger] path_step(f, p, i)
}

/// `b` can be reached from `a` by one or more epsilon transitions.
pub open spec fn eps_reachable(f: FragmentModel, a: int, b: int) -> bool {
    exists|p: Seq<int>| p.len() >= 2 && p[0] == a && p.last() == b && #[trigger] is_eps_path(f, p)
}

/// The states reachable from `a` by one or more epsilon transitions.
pub open spec fn eps_closure_set(f: FragmentModel, a: int) -> Set<int> {
    Set::new(|b: int| eps_reachable(f, a, b))
}

/// What an epsilon transition with index `t` adds to a closure: its target and
/// what that reaches.
pub open spec fn eps_contribution(f: FragmentModel, t: int) -> Set<int> {
    if 0 <= t < f.transitions.len() && f.transitions[t] is Epsilon {
        Set::new(|b: int| b == f.transitions[t].target() || eps_reachable(f, f.transitions[t].target(), b))
    } else {
        Set::empty()
    }
}

/// Within `s`, which is closed under epsilon transitions, every epsilon transition
/// leads to a state of lower rank.
pub open spec fn eps_ranked(f: FragmentModel, s: Set<int>, rank: spec_fn(int) -> nat) -> bool {
    forall|u: int, v: int|
        #![trigger s.contains(u), eps_edge(f, u, v)]
        s.contains(u) && eps_edge(f, u, v) ==> s.contains(v) && rank(v) < rank(u)
}

/// No cycle of epsilon transitions can be reached from `a` (the states are finitely
/// many, so this is the same as a ranking that epsilon transitions lower).
pub open spec fn eps_well_founded(f: FragmentModel, a: int) -> bool {
    exists|s: Set<int>, rank: spec_fn(int) -> nat| s.contains(a) && eps_ranked(f, s, rank)
}

/// An epsilon step followed by zero or more further ones.
pub proof fn lemma_eps_closure_unfold(f: FragmentModel, a: int, b: int)
    ensures
        eps_reachable(f, a, b) <==> exists|v: int|
            #![trigger eps_edge(f, a, v)]
            eps_edge(f, a, v) && (b == v || eps_reachable(f, v, b)),
{
    if eps_reachable(f, a, b) {
        let p = choose|p: Seq<int>| p.len() >= 2 && p[0] == a && p.last() == b && is_eps_path(f, p);
        let v = p[1];
        assert(path_step(f, p, 0));
        if p.len() > 2 {
            let q = p.drop_first();
            assert(is_eps_path(f, q)) by {
                assert forall|i: int| 0 <= i < q.len() - 1 implies #[trigger] path_step(f, q, i) by {
                    assert(q[i] == p[i + 1] && q[i + 1] == p[i + 2]);
                    assert(path_step(f, p, i + 1));
                }
            }
            assert(q.last() == b);
            assert(eps_reachable(f, v, b));
        }
    }
    if exists|v: int| #![trigger eps_edge(f, a, v)] eps_edge(f, a, v) && (b == v || eps_reachable(f, v, b)) {
        let v = choose|v: int| #![trigger eps_edge(f, a, v)] eps_edge(f, a, v) && (b == v || eps_reachable(f, v, b));
        if b == v {
            let p = seq![a, v];
            assert(is_eps_path(f, p)) by {
                assert forall|i: int| 0 <= i < p.len() - 1 implies #[trigger] path_step(f, p, i) by {
                    assert(i == 0);
                    assert(p[0] == a && p[1] == v);
                }
            }
            assert(p.last() == b);
        } else {
            let q = choose|q: Seq<int>| q.len() >= 2 && q[0] == v && q.last() == b && is_eps_path(f, q);
            let p = seq![a] + q;
            assert(is_eps_path(f, p)) by {
                assert forall|i: int| 0 <= i < p.len() - 1 implies #[trigger] path_step(f, p, i) by {
                    if i == 0 {
                        assert(p[0] == a && p[1] == q[0]);
                    } else {
                        assert(p[i] == q[i - 1] && p[i + 1] == q[i]);
                        assert(path_step(f, q, i - 1));
                    }
                }
            }
            assert(p.last() == b);
        }
    }
}



/// The states' transition sets with every index moved up by `by`.
pub open spec fn shift_states(ss: Seq<Set<int>>, by: int) -> Seq<Set<int>> {
    ss.map_values(|s: Set<int>| shift_set(s, by))
}

/// The transitions with both ends moved up by `by`.
pub open spec fn shift_transitions(ts: Seq<TransitionModel>, by: int) -> Seq<TransitionModel> {
    ts.map_values(|t: TransitionModel| t.shifted(by))
}

/// Moving the fragment's states up by `states_by` and its transitions up by
/// `transitions_by` keeps every index within a machine word.
pub open spec fn offset_fits(f: FragmentModel, states_by: int, transitions_by: int) -> bool {
    &&& f.start + states_by <= usize::MAX
    &&& forall|i: int, t: int|
        0 <= i < f.states.len() && #[trigger] f.states[i].contains(t) ==> t + transitions_by
            <= usize::MAX
    &&& forall|i: int|
        0 <= i < f.transitions.len() ==> #[trigger] f.transitions[i].source() + states_by
            <= usize::MAX && f.transitions[i].target() + states_by <= usize::MAX
}

/// A transition that the input `input` can take: an atom of that input, or a
/// range strictly around it.
pub open spec fn matches_input(t: TransitionModel, input: int) -> bool {
    match t {
        TransitionModel::Atom { input: i, .. } => i == input,
        TransitionModel::Range { start, stop, .. } => start < input && input < stop,
        _ => false,
    }
}

/// The states reached on `input` from `a` or from a state epsilon-reachable from it.
pub open spec fn closure_set(f: FragmentModel, a: int, input: int) -> Set<int> {
    Set::new(
        |v: int|
            exists|u: int, t: int|
                #![trigger f.states[u].contains(t)]
                (u == a || eps_reachable(f, a, u)) && 0 <= u < f.states.len()
                    && f.states[u].contains(t) && 0 <= t < f.transitions.len() && matches_input(
                    f.transitions[t],
                    input,
                ) && f.transitions[t].target() == v,
    )
}

/// The transitions leaving the first `n` listed states.
pub open spec fn collected_refs(f: FragmentModel, st: Seq<StateRef>, n: int) -> Set<int> {
    Set::new(
        |x: int|
            exists|i: int|
                #![trigger st[i]]
                0 <= i < n && 0 <= st[i].0 < f.states.len() && f.states[st[i].0 as int].contains(x),
    )
}

/// The targets of the first `n` listed transitions that `input` can take.
pub open spec fn input_targets(f: FragmentModel, rs: Seq<int>, n: int, input: int) -> Set<int> {
    Set::new(
        |v: int|
            exists|j: int|
                #![trigger rs[j]]
                0 <= j < n && 0 <= rs[j] < f.transitions.len() && matches_input(
                    f.transitions[rs[j]],
                    input,
                ) && f.transitions[rs[j]].target() == v,
    )
}

/// Adds a state to a list of distinct states, unless it is there.
fn insert_state(v: &mut Vec<StateRef>, s: StateRef)
    requires
        distinct_states(old(v)@),
    ensures
        distinct_states(final(v)@),
        state_set(final(v)@) == state_set(old(v)@).insert(s.0 as int),
{
    let mut i: usize = 0;
    while i < v.len()
        invariant
            v@ == old(v)@,
            distinct_states(old(v)@),
            i <= v.len(),
            forall|k: int| 0 <= k < i ==> v@[k] != s,
        decreases v.len() - i,
    {
        if v[i] == s {
            proof {
                assert(state_set(v@).contains(s.0 as int)) by {
                    assert(state_indices(v@)[i as int] == s.0 as int);
                }
                assert(state_set(v@) =~= state_set(old(v)@).insert(s.0 as int));
            }
            return ;
        }
        i += 1;
    }
    let ghost before = v@;
    v.push(s);
    proof {
        assert(state_indices(v@) =~= state_indices(before).push(s.0 as int));
        assert(state_set(v@) =~= state_set(before).insert(s.0 as int)) by {
            let m = state_indices(before);
            assert forall|x: int| state_set(v@).contains(x) implies state_set(before).insert(s.0 as int).contains(x) by {
                let k = choose|k: int| 0 <= k < m.push(s.0 as int).len() && m.push(s.0 as int)[k] == x;
                if k < m.len() {
                    assert(m[k] == x);
                }
            }
            assert forall|x: int| state_set(before).insert(s.0 as int).contains(x) implies state_set(v@).contains(x) by {
                if x == s.0 as int {
                    assert(m.push(s.0 as int)[m.len() as int] == x);
                } else {
                    let k = choose|k: int| 0 <= k < m.len() && m[k] == x;
                    assert(m.push(s.0 as int)[k] == x);
                }
            }
        }
    }
}

/// Adds every state of `w` to the distinct states of `v`.
fn union_states(v: &mut Vec<StateRef>, w: &Vec<StateRef>)
    requires
        distinct_states(old(v)@),
    ensures
        distinct_states(final(v)@),
        state_set(final(v)@) == state_set(old(v)@).union(state_set(w@)),
{
    let mut i: usize = 0;
    proof {
        assert(state_set(w@.subrange(0, 0)) =~= Set::<int>::empty());
        assert(state_set(old(v)@) =~= state_set(old(v)@).union(Set::<int>::empty()));
    }
    while i < w.len()
        invariant
            distinct_states(v@),
            i <= w.len(),
            state_set(v@) == state_set(old(v)@).union(state_set(w@.subrange(0, i as int))),
        decreases w.len() - i,
    {
        insert_state(v, w[i]);
        proof {
            let a = w@.subrange(0, i as int);
            let b = w@.subrange(0, i + 1);
            assert(b =~= a.push(w@[i as int]));
            assert(state_indices(b) =~= state_indices(a).push(w@[i as int].0 as int));
            assert(state_set(b) =~= state_set(a).insert(w@[i as int].0 as int)) by {
                let ma = state_indices(a);
                let mb = state_indices(b);
                assert forall|x: int| state_set(b).contains(x) implies state_set(a).insert(w@[i as int].0 as int).contains(x) by {
                    let k = choose|k: int| 0 <= k < mb.len() && mb[k] == x;
                    if k < ma.len() {
                        assert(ma[k] == x);
                    }
                }
                assert forall|x: int| state_set(a).insert(w@[i as int].0 as int).contains(x) implies state_set(b).contains(x) by {
                    if x == w@[i as int].0 as int {
                        assert(mb[ma.len() as int] == x);
                    } else {
                        let k = choose|k: int| 0 <= k < ma.len() && ma[k] == x;
                        assert(mb[k] == x);
                    }
                }
            }
            assert(state_set(v@) =~= state_set(old(v)@).union(state_set(b)));
        }
        i += 1;
    }
    proof {
        assert(w@.subrange(0, w@.len() as int) =~= w@);
    }
}

impl ATNFragment {
    pub fn new() -> (f: ATNFragment)
        ensures
            f@.start == 0,
            f@.states == seq![Set::<int>::empty()],
            f@.transitions == Seq::<TransitionModel>::empty(),
    {
        let mut states = Vec::new();
        states.push(State::new());
        let f = ATNFragment { start_state: StateRef(0), states, transitions: Vec::new() };
        assert(f@.states =~= seq![Set::<int>::empty()]);
        assert(f@.transitions =~= Seq::<TransitionModel>::empty());
        f
    }

    pub fn push_state(&mut self, s: State)
        ensures
            final(self)@.start == old(self)@.start,
            final(self)@.states == old(self)@.states.push(s@),
            final(self)@.transitions == old(self)@.transitions,
    {
        self.states.push(s);
        assert(self@.states =~= old(self)@.states.push(s@));
    }

    pub fn push_transition(&mut self, t: Transition)
        ensures
            final(self)@.start == old(self)@.start,
            final(self)@.states == old(self)@.states,
            final(self)@.transitions == old(self)@.transitions.push(t@),
    {
        self.transitions.push(t);
        assert(self@.transitions =~= old(self)@.transitions.push(t@));
    }

    fn epsilon_closure_ranked(
        &self,
        current: StateRef,
        Ghost(s): Ghost<Set<int>>,
        Ghost(rank): Ghost<spec_fn(int) -> nat>,
    ) -> (closure: Vec<StateRef>)
        requires
            s.contains(current.0 as int),
            eps_ranked(self@, s, rank),
        ensures
            distinct_states(closure@),
            state_set(closure@) == eps_closure_set(self@, current.0 as int),
        decreases rank(current.0 as int),
    {
        let ghost f = self@;
        let ghost a = current.0 as int;
        let mut closure: Vec<StateRef> = Vec::new();
        if current.0 < self.states.len() {
            let state = &self.states[current.0];
            let refs = state.transitions();
            let ghost idx = ref_indices(refs@);
            assert(f.states[a] == state@);
            let mut k: usize = 0;
            proof {
                assert(state_set(closure@) =~= Set::<int>::empty());
            }
            while k < refs.len()
                invariant
                    f == self@,
                    a == current.0 as int,
                    0 <= a < f.states.len(),
                    f.states[a] == idx.to_set(),
                    idx == ref_indices(refs@),
                    idx.len() == refs@.len(),
                    s.contains(a),
                    eps_ranked(f, s, rank),
                    k <= refs.len(),
                    distinct_states(closure@),
                    forall|b: int| state_set(closure@).contains(b) ==> eps_reachable(f, a, b),
                    forall|j: int|
                        0 <= j < k ==> #[trigger] eps_contribution(f, idx[j]).subset_of(
                            state_set(closure@),
                        ),
                decreases refs.len() - k,
            {
                let ghost before = closure@;
                let t = refs[k];
                assert(idx[k as int] == t.index());
                if t.0 < self.transitions.len() {
                    let transition = &self.transitions[t.0];
                    if transition.is_epsilon() {
                        let target = transition.target();
                        let ghost v = target.0 as int;
                        proof {
                            assert(f.transitions[t.index()] == transition@);
                            assert(idx.to_set().contains(idx[k as int]));
                            assert(f.states[a].contains(t.index()));
                            assert(eps_edge(f, a, v));
                            assert(s.contains(v) && rank(v) < rank(a));
                        }
                        let sub = self.epsilon_closure_ranked(target, Ghost(s), Ghost(rank));
                        insert_state(&mut closure, target);
                        union_states(&mut closure, &sub);
                        proof {
                            assert forall|b: int| state_set(closure@).contains(b) implies eps_reachable(f, a, b) by {
                                lemma_eps_closure_unfold(f, a, b);
                                if b == v {
                                } else if state_set(sub@).contains(b) {
                                    assert(eps_reachable(f, v, b));
                                } else {
                                    assert(state_set(before).contains(b));
                                }
                            }
                            assert(eps_contribution(f, idx[k as int]).subset_of(state_set(closure@))) by {
                                assert forall|b: int| eps_contribution(f, idx[k as int]).contains(b) implies state_set(closure@).contains(b) by {
                                    if b != v {
                                        assert(eps_closure_set(f, v).contains(b));
                                    }
                                }
                            }
                        }
                    } else {
                        assert(eps_contribution(f, idx[k as int]) =~= Set::<int>::empty());
                    }
                } else {
                    assert(eps_contribution(f, idx[k as int]) =~= Set::<int>::empty());
                }
                proof {
                    assert(state_set(before).subset_of(state_set(closure@)));
                    assert forall|j: int| 0 <= j < k + 1 implies #[trigger] eps_contribution(f, idx[j]).subset_of(
                        state_set(closure@),
                    ) by {
                        if j < k {
                            assert(eps_contribution(f, idx[j]).subset_of(state_set(before)));
                        }
                    }
                }
                k += 1;
            }
            proof {
                assert forall|b: int| eps_reachable(f, a, b) implies state_set(closure@).contains(b) by {
                    lemma_eps_closure_unfold(f, a, b);
                    let v = choose|v: int| #![trigger eps_edge(f, a, v)] eps_edge(f, a, v) && (b == v || eps_reachable(f, v, b));
                    let t = choose|t: int| #![trigger f.states[a].contains(t)] f.states[a].contains(t) && 0 <= t < f.transitions.len() && f.transitions[t] is Epsilon && f.transitions[t].target() == v;
                    assert(idx.to_set().contains(t));
                    let j = choose|j: int| 0 <= j < idx.len() && idx[j] == t;
                    assert(eps_contribution(f, idx[j]).subset_of(state_set(closure@)));
                    assert(eps_contribution(f, idx[j]).contains(b));
                }
            }
        } else {
            proof {
                assert forall|b: int| eps_reachable(f, a, b) implies false by {
                    lemma_eps_closure_unfold(f, a, b);
                }
            }
        }
        assert(state_set(closure@) =~= eps_closure_set(self@, current.0 as int));
        closure
    }

    /// The states reachable from `current` by one or more epsilon transitions
    /// (`current` itself only where a cycle leads back to it).
    pub fn epsilon_closure(&self, current: StateRef) -> (closure: Vec<StateRef>)
        requires
            eps_well_founded(self@, current.0 as int),
        ensures
            distinct_states(closure@),
            state_set(closure@) == eps_closure_set(self@, current.0 as int),
    {
        let ghost pick = choose|s: Set<int>, rank: spec_fn(int) -> nat|
            s.contains(current.0 as int) && eps_ranked(self@, s, rank);
        self.epsilon_closure_ranked(current, Ghost(pick.0), Ghost(pick.1))
    }
}


impl ATNFragment {
    /// The states that `input` leads to from `current` or from any state reachable
    /// from it by epsilon transitions.
    pub fn closure(&self, current: StateRef, input: usize) -> (closure: Vec<StateRef>)
        requires
            eps_well_founded(self@, current.0 as int),
        ensures
            distinct_states(closure@),
            state_set(closure@) == closure_set(self@, current.0 as int, input as int),
    {
        let ghost f = self@;
        let ghost a = current.0 as int;
        let mut states = self.epsilon_closure(current);
        insert_state(&mut states, current);
        let ghost sources = state_set(states@);
        assert(forall|u: int| sources.contains(u) <==> (u == a || eps_reachable(f, a, u)));

        let mut refs: Vec<TransitionRef> = Vec::new();
        let mut i: usize = 0;
        proof {
            assert(ref_indices(refs@).to_set() =~= collected_refs(f, states@, 0));
        }
        while i < states.len()
            invariant
                f == self@,
                i <= states.len(),
                ref_indices(refs@).to_set() == collected_refs(f, states@, i as int),
            decreases states.len() - i,
        {
            let s = states[i];
            let ghost before = refs@;
            if s.0 < self.states.len() {
                let ts = self.states[s.0].transitions();
                let mut k: usize = 0;
                while k < ts.len()
                    invariant
                        f == self@,
                        i < states.len(),
                        s == states@[i as int],
                        0 <= s.0 < f.states.len(),
                        f.states[s.0 as int] == ref_indices(ts@).to_set(),
                        k <= ts.len(),
                        ref_indices(before).to_set() == collected_refs(f, states@, i as int),
                        ref_indices(refs@) == ref_indices(before) + ref_indices(ts@).subrange(0, k as int),
                    decreases ts.len() - k,
                {
                    let ghost b2 = refs@;
                    refs.push(ts[k]);
                    proof {
                        assert(ref_indices(refs@) =~= ref_indices(b2).push(ts@[k as int].index()));
                        assert(ref_indices(ts@).subrange(0, k + 1) =~= ref_indices(ts@).subrange(0, k as int).push(ts@[k as int].index()));
                    }
                    k += 1;
                }
                proof {
                    assert(ref_indices(ts@).subrange(0, ts@.len() as int) =~= ref_indices(ts@));
                    assert(ref_indices(refs@).to_set() =~= collected_refs(f, states@, i + 1)) by {
                        let rb = ref_indices(before);
                        let rt = ref_indices(ts@);
                        assert(ref_indices(refs@) == rb + rt);
                        assert forall|x: int| ref_indices(refs@).to_set().contains(x) implies collected_refs(f, states@, i + 1).contains(x) by {
                            let m = choose|m: int| 0 <= m < (rb + rt).len() && (rb + rt)[m] == x;
                            if m < rb.len() {
                                assert(rb.to_set().contains(rb[m]));
                                assert(collected_refs(f, states@, i as int).contains(x));
                                let w = choose|w: int| #![trigger states@[w]] 0 <= w < i && 0 <= states@[w].0 < f.states.len() && f.states[states@[w].0 as int].contains(x);
                                assert(states@[w] == states@[w]);
                            } else {
                                assert(rt[m - rb.len()] == x);
                                assert(rt.to_set().contains(x));
                                assert(states@[i as int] == s);
                            }
                        }
                        assert forall|x: int| collected_refs(f, states@, i + 1).contains(x) implies ref_indices(refs@).to_set().contains(x) by {
                            let w = choose|w: int| #![trigger states@[w]] 0 <= w < i + 1 && 0 <= states@[w].0 < f.states.len() && f.states[states@[w].0 as int].contains(x);
                            if w < i {
                                assert(collected_refs(f, states@, i as int).contains(x));
                                assert(rb.to_set().contains(x));
                                let m = choose|m: int| 0 <= m < rb.len() && rb[m] == x;
                                assert((rb + rt)[m] == x);
                            } else {
                                assert(rt.to_set().contains(x));
                                let m = choose|m: int| 0 <= m < rt.len() && rt[m] == x;
                                assert((rb + rt)[rb.len() + m] == x);
                            }
                        }
                    }
                }
            } else {
                proof {
                    assert(collected_refs(f, states@, i as int) =~= collected_refs(f, states@, i + 1)) by {
                        assert forall|x: int| collected_refs(f, states@, i + 1).contains(x) implies collected_refs(f, states@, i as int).contains(x) by {
                            let w = choose|w: int| #![trigger states@[w]] 0 <= w < i + 1 && 0 <= states@[w].0 < f.states.len() && f.states[states@[w].0 as int].contains(x);
                            assert(w < i);
                        }
                        assert forall|x: int| collected_refs(f, states@, i as int).contains(x) implies collected_refs(f, states@, i + 1).contains(x) by {
                            let w = choose|w: int| #![trigger states@[w]] 0 <= w < i && 0 <= states@[w].0 < f.states.len() && f.states[states@[w].0 as int].contains(x);
                            assert(states@[w] == states@[w]);
                        }
                    }
                }
            }
            i += 1;
        }

        let ghost rs = ref_indices(refs@);
        let mut closure: Vec<StateRef> = Vec::new();
        let mut j: usize = 0;
        proof {
            assert(state_set(closure@) =~= input_targets(f, rs, 0, input as int));
        }
        while j < refs.len()
            invariant
                f == self@,
                rs == ref_indices(refs@),
                j <= refs.len(),
                distinct_states(closure@),
                state_set(closure@) == input_targets(f, rs, j as int, input as int),
            decreases refs.len() - j,
        {
            let t = refs[j];
            let ghost before = closure@;
            assert(rs[j as int] == t.index());
            if t.0 < self.transitions.len() {
                assert(f.transitions[t.index()] == self.transitions@[t.0 as int]@);
                match &self.transitions[t.0] {
                    Transition::Atom { target, input: i, .. } => {
                        if input == *i {
                            insert_state(&mut closure, *target);
                        }
                    },
                    Transition::Range { target, start, stop, .. } => {
                        if input > *start && input < *stop {
                            insert_state(&mut closure, *target);
                        }
                    },
                    _ => {},
                }
            }
            proof {
                assert(state_set(closure@) =~= input_targets(f, rs, j + 1, input as int)) by {
                    assert forall|v: int| state_set(closure@).contains(v) implies input_targets(f, rs, j + 1, input as int).contains(v) by {
                        if state_set(before).contains(v) {
                            let w = choose|w: int| #![trigger rs[w]] 0 <= w < j && 0 <= rs[w] < f.transitions.len() && matches_input(f.transitions[rs[w]], input as int) && f.transitions[rs[w]].target() == v;
                            assert(rs[w] == rs[w]);
                        } else {
                            assert(rs[j as int] == rs[j as int]);
                        }
                    }
                    assert forall|v: int| input_targets(f, rs, j + 1, input as int).contains(v) implies state_set(closure@).contains(v) by {
                        let w = choose|w: int| #![trigger rs[w]] 0 <= w < j + 1 && 0 <= rs[w] < f.transitions.len() && matches_input(f.transitions[rs[w]], input as int) && f.transitions[rs[w]].target() == v;
                        if w < j {
                            assert(input_targets(f, rs, j as int, input as int).contains(v));
                        }
                    }
                }
            }
            j += 1;
        }
        proof {
            assert(state_set(closure@) =~= closure_set(f, a, input as int)) by {
                assert forall|v: int| state_set(closure@).contains(v) implies closure_set(f, a, input as int).contains(v) by {
                    let w = choose|w: int| #![trigger rs[w]] 0 <= w < refs@.len() && 0 <= rs[w] < f.transitions.len() && matches_input(f.transitions[rs[w]], input as int) && f.transitions[rs[w]].target() == v;
                    let t = rs[w];
                    assert(rs.to_set().contains(t));
                    assert(collected_refs(f, states@, states@.len() as int).contains(t));
                    let q = choose|q: int| #![trigger states@[q]] 0 <= q < states@.len() && 0 <= states@[q].0 < f.states.len() && f.states[states@[q].0 as int].contains(t);
                    let u = states@[q].0 as int;
                    assert(state_indices(states@)[q] == u);
                    assert(sources.contains(u));
                    assert(f.states[u].contains(t));
                }
                assert forall|v: int| closure_set(f, a, input as int).contains(v) implies state_set(closure@).contains(v) by {
                    let (u, t) = choose|u: int, t: int| #![trigger f.states[u].contains(t)] (u == a || eps_reachable(f, a, u)) && 0 <= u < f.states.len() && f.states[u].contains(t) && 0 <= t < f.transitions.len() && matches_input(f.transitions[t], input as int) && f.transitions[t].target() == v;
                    assert(sources.contains(u));
                    let q = choose|q: int| 0 <= q < states@.len() && #[trigger] state_indices(states@)[q] == u;
                    assert(states@[q].0 as int == u);
                    assert(collected_refs(f, states@, states@.len() as int).contains(t));
                    assert(rs.to_set().contains(t));
                    let w = choose|w: int| 0 <= w < rs.len() && rs[w] == t;
                    assert(input_targets(f, rs, refs@.len() as int, input as int).contains(v));
                }
            }
        }
        closure
    }
}


impl ATNFragment {
    /// Moves the fragment's state indices up by `states_len` and its transition
    /// indices up by `transitions_len`, as when it is placed after other states and
    /// transitions.
    pub fn offset(&mut self, states_len: usize, transitions_len: usize)
        requires
            offset_fits(old(self)@, states_len as int, transitions_len as int),
        ensures
            final(self)@.start == old(self)@.start + states_len,
            final(self)@.states == shift_states(old(self)@.states, transitions_len as int),
            final(self)@.transitions == shift_transitions(
                old(self)@.transitions,
                states_len as int,
            ),
    {
        let ghost f = self@;
        self.start_state.offset(states_len);
        let mut i: usize = 0;
        while i < self.states.len()
            invariant
                f == old(self)@,
                offset_fits(f, states_len as int, transitions_len as int),
                self.transitions@ == old(self).transitions@,
                self.start_state.0 == f.start + states_len,
                self.states@.len() == f.states.len(),
                i <= self.states@.len(),
                forall|k: int| 0 <= k < i ==> #[trigger] self.states@[k]@ == shift_set(f.states[k], transitions_len as int),
                forall|k: int| i <= k < self.states@.len() ==> #[trigger] self.states@[k]@ == f.states[k],
            decreases self.states@.len() - i,
        {
            assert(self.states@[i as int]@ == f.states[i as int]);
            self.states[i].offset(transitions_len);
            i += 1;
        }
        let mut j: usize = 0;
        while j < self.transitions.len()
            invariant
                f == old(self)@,
                offset_fits(f, states_len as int, transitions_len as int),
                self.transitions@.len() == f.transitions.len(),
                self.start_state.0 == f.start + states_len,
                self.states@.len() == f.states.len(),
                forall|k: int| 0 <= k < self.states@.len() ==> #[trigger] self.states@[k]@ == shift_set(f.states[k], transitions_len as int),
                j <= self.transitions@.len(),
                forall|k: int| 0 <= k < j ==> #[trigger] self.transitions@[k]@ == f.transitions[k].shifted(states_len as int),
                forall|k: int| j <= k < self.transitions@.len() ==> #[trigger] self.transitions@[k]@ == f.transitions[k],
            decreases self.transitions@.len() - j,
        {
            assert(self.transitions@[j as int]@ == f.transitions[j as int]);
            assert(f.transitions[j as int].source() + states_len <= usize::MAX);
            self.transitions[j].offset(states_len); // Because the transitions hold StateRefs not TransitionRefs
            j += 1;
        }
        assert(self@.states =~= shift_states(f.states, transitions_len as int));
        assert(self@.transitions =~= shift_transitions(f.transitions, states_len as int));
    }

    /// Places `to` after this fragment's states and transitions, and adds an
    /// epsilon transition from `from` to where `to` starts.
    pub fn append_fragment(&mut self, from: StateRef, to: ATNFragment)
        requires
            offset_fits(to@, old(self)@.states.len() as int, old(self)@.transitions.len() as int),
        ensures
            final(self)@.start == old(self)@.start,
            final(self)@.states == old(self)@.states + shift_states(
                to@.states,
                old(self)@.transitions.len() as int,
            ),
            final(self)@.transitions == old(self)@.transitions + shift_transitions(
                to@.transitions,
                old(self)@.states.len() as int,
            ).push(
                TransitionModel::Epsilon {
                    source: from.0 as int,
                    target: to@.start + old(self)@.states.len(),
                },
            ),
    {
        let states_len = self.states.len();
        let transition_len = self.transitions.len();
        let mut to = to;
        to.offset(states_len, transition_len);
        let ghost to_view = to@;
        let ghost mid_states = self.states@;
        let ghost mid_transitions = self.transitions@;
        self.states.append(&mut to.states);
        self.transitions.append(&mut to.transitions);
        assert(states_view(self.states@) =~= states_view(mid_states) + to_view.states);
        assert(transitions_view(self.transitions@) =~= transitions_view(mid_transitions) + to_view.transitions);
        let ghost before_push = self.transitions@;
        self.transitions.push(Transition::Epsilon { source: from, target: to.start_state });
        assert(transitions_view(self.transitions@) =~= transitions_view(before_push).push(
            TransitionModel::Epsilon { source: from.0 as int, target: to_view.start },
        ));
    }
}

} // verus!
