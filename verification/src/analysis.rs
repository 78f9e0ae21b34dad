use vstd::prelude::*;

use crate::ast::{
    alts_view, elements_view, Alt, AltList, AltListModel, AltModel, Atom, AtomModel, Block,
    Element, ElementModel, Rule, TokenRule,
};
use crate::atn::{
    shift_states, shift_transitions, ATNFragment, FragmentModel, State, StateRef, Transition,
    TransitionModel,
};
use crate::symbols::{
    alt_strlits, alts_strlits, distinct_names, element_strlits, elements_strlits, entries_view,
    name_lookup, AnalysisErr, SymbolTableView,
};

verus! {

/// Every id is the position of its name in its list.
pub open spec fn ids_are_positions(s: Seq<(Seq<char>, usize)>) -> bool {
    forall|i: int| 0 <= i < s.len() ==> #[trigger] s[i].1 == i
}

/// Names are unique in each list, and each id is the position of its name.
pub open spec fn numbering_wf(t: SymbolTableView) -> bool {
    &&& distinct_names(t.rules)
    &&& distinct_names(t.tokens)
    &&& distinct_names(t.strlits)
    &&& ids_are_positions(t.rules)
    &&& ids_are_positions(t.tokens)
    &&& ids_are_positions(t.strlits)
}

/// Recording a literal: a new one gets the next position; a known one changes
/// nothing.
pub open spec fn token_recorded(t: SymbolTableView, name: Seq<char>) -> SymbolTableView {
    if name_lookup(t.strlits, name) is Some {
        t
    } else {
        SymbolTableView { strlits: t.strlits.push((name, t.strlits.len() as usize)), ..t }
    }
}

/// Recording literals in order.
pub open spec fn tokens_recorded(t: SymbolTableView, names: Seq<Seq<char>>) -> SymbolTableView
    decreases names.len(),
{
    if names.len() == 0 {
        t
    } else {
        token_recorded(tokens_recorded(t, names.drop_last()), names.last())
    }
}

/// A table of the names of a grammar, numbered in the order they are recorded.
#[derive(Debug)]
pub struct SymbolTable {
    rule_map: Vec<(String, usize)>,
    token_map: Vec<(String, usize)>,
    strlit_map: Vec<(String, usize)>,
}

impl View for SymbolTable {
    type V = SymbolTableView;

    closed spec fn view(&self) -> SymbolTableView {
        SymbolTableView {
            rules: entries_view(self.rule_map@),
            tokens: entries_view(self.token_map@),
            strlits: entries_view(self.strlit_map@),
        }
    }
}

fn lookup(entries: &Vec<(String, usize)>, name: &String) -> (r: Option<usize>)
    ensures
        r == name_lookup(entries_view(entries@), name@),
{
    let ghost v = entries_view(entries@);
    let mut k: usize = entries.len();
    assert(v.take(k as int) =~= v);
    while k > 0
        invariant
            v == entries_view(entries@),
            k <= entries.len(),
            name_lookup(v, name@) == name_lookup(v.take(k as int), name@),
        decreases k,
    {
        assert(v.take(k as int).last() == v[k - 1]);
        assert(v.take(k as int).drop_last() =~= v.take(k - 1));
        if entries[k - 1].0 == *name {
            return Some(entries[k - 1].1);
        }
        k -= 1;
    }
    assert(v.take(0) =~= Seq::<(Seq<char>, usize)>::empty());
    None
}

proof fn lemma_lookup_absent(s: Seq<(Seq<char>, usize)>, name: Seq<char>)
    requires
        name_lookup(s, name) is None,
    ensures
        forall|i: int| 0 <= i < s.len() ==> #[trigger] s[i].0 != name,
    decreases s.len(),
{
    if s.len() > 0 {
        lemma_lookup_absent(s.drop_last(), name);
        assert forall|i: int| 0 <= i < s.len() implies #[trigger] s[i].0 != name by {
            if i < s.len() - 1 {
                assert(s.drop_last()[i] == s[i]);
            }
        }
    }
}

/// Pushing a new name at its position keeps the list well formed.
proof fn lemma_push_fresh(s: Seq<(Seq<char>, usize)>, name: Seq<char>)
    requires
        distinct_names(s),
        ids_are_positions(s),
        name_lookup(s, name) is None,
        s.len() < usize::MAX,
    ensures
        distinct_names(s.push((name, s.len() as usize))),
        ids_are_positions(s.push((name, s.len() as usize))),
{
    lemma_lookup_absent(s, name);
    let u = s.push((name, s.len() as usize));
    assert forall|i: int| 0 <= i < u.len() implies #[trigger] u[i].1 == i by {
        if i < s.len() {
            assert(u[i] == s[i]);
        }
    }
    assert forall|i: int, j: int| 0 <= i < j < u.len() implies u[i].0 != u[j].0 by {
        if j < s.len() {
            assert(u[i] == s[i] && u[j] == s[j]);
        } else {
            assert(u[i] == s[i]);
        }
    }
}

impl SymbolTable {
    pub fn new() -> (t: SymbolTable)
        ensures
            numbering_wf(t@),
            t@.rules == Seq::<(Seq<char>, usize)>::empty(),
            t@.tokens == Seq::<(Seq<char>, usize)>::empty(),
            t@.strlits == Seq::<(Seq<char>, usize)>::empty(),
    {
        let t = SymbolTable { rule_map: Vec::new(), token_map: Vec::new(), strlit_map: Vec::new() };
        assert(t@.rules =~= Seq::<(Seq<char>, usize)>::empty());
        assert(t@.tokens =~= Seq::<(Seq<char>, usize)>::empty());
        assert(t@.strlits =~= Seq::<(Seq<char>, usize)>::empty());
        t
    }

    pub fn get_rule_id(&self, name: String) -> (r: Option<usize>)
        ensures
            r == name_lookup(self@.rules, name@),
    {
        lookup(&self.rule_map, &name)
    }

    /// The id of a literal token (the table numbers literals as tokens).
    pub fn get_token_id(&self, name: String) -> (r: Option<usize>)
        ensures
            r == name_lookup(self@.strlits, name@),
    {
        lookup(&self.strlit_map, &name)
    }

    pub fn insert_rule(&mut self, name: String) -> (r: Result<(), AnalysisErr>)
        requires
            numbering_wf(old(self)@),
            old(self)@.rules.len() < usize::MAX,
        ensures
            numbering_wf(final(self)@),
            final(self)@.tokens == old(self)@.tokens,
            final(self)@.strlits == old(self)@.strlits,
            match r {
                Ok(()) => name_lookup(old(self)@.rules, name@) is None && final(self)@.rules
                    == old(self)@.rules.push((name@, old(self)@.rules.len() as usize)),
                Err(e) => name_lookup(old(self)@.rules, name@) is Some && final(self)@.rules
                    == old(self)@.rules && (e matches AnalysisErr::Redefinition { of } && of@
                    == name@),
            },
    {
        if lookup(&self.rule_map, &name).is_some() {
            return Err(AnalysisErr::Redefinition { of: name });
        }
        proof {
            lemma_push_fresh(self@.rules, name@);
        }
        let id = self.rule_map.len();
        let ghost before = self.rule_map@;
        self.rule_map.push((name, id));
        assert(entries_view(self.rule_map@) =~= entries_view(before).push((name@, id)));
        Ok(())
    }

    pub fn insert_token_rule(&mut self, name: String) -> (r: Result<(), AnalysisErr>)
        requires
            numbering_wf(old(self)@),
            old(self)@.tokens.len() < usize::MAX,
        ensures
            numbering_wf(final(self)@),
            final(self)@.rules == old(self)@.rules,
            final(self)@.strlits == old(self)@.strlits,
            match r {
                Ok(()) => name_lookup(old(self)@.tokens, name@) is None && final(self)@.tokens
                    == old(self)@.tokens.push((name@, old(self)@.tokens.len() as usize)),
                Err(e) => name_lookup(old(self)@.tokens, name@) is Some && final(self)@.tokens
                    == old(self)@.tokens && (e matches AnalysisErr::Redefinition { of } && of@
                    == name@),
            },
    {
        if lookup(&self.token_map, &name).is_some() {
            return Err(AnalysisErr::Redefinition { of: name });
        }
        proof {
            lemma_push_fresh(self@.tokens, name@);
        }
        let id = self.token_map.len();
        let ghost before = self.token_map@;
        self.token_map.push((name, id));
        assert(entries_view(self.token_map@) =~= entries_view(before).push((name@, id)));
        Ok(())
    }

    /// Records a literal token.
    pub fn insert_token(&mut self, name: String)
        requires
            numbering_wf(old(self)@),
            old(self)@.strlits.len() < usize::MAX,
        ensures
            numbering_wf(final(self)@),
            final(self)@ == token_recorded(old(self)@, name@),
    {
        if lookup(&self.strlit_map, &name).is_some() {
            return;
        }
        proof {
            lemma_push_fresh(self@.strlits, name@);
        }
        let id = self.strlit_map.len();
        let ghost before = self.strlit_map@;
        self.strlit_map.push((name, id));
        assert(entries_view(self.strlit_map@) =~= entries_view(before).push((name@, id)));
    }
}

proof fn lemma_tokens_recorded_append(t: SymbolTableView, a: Seq<Seq<char>>, b: Seq<Seq<char>>)
    ensures
        tokens_recorded(t, a + b) == tokens_recorded(tokens_recorded(t, a), b),
    decreases b.len(),
{
    if b.len() == 0 {
        assert(a + b =~= a);
    } else {
        assert((a + b).drop_last() =~= a + b.drop_last());
        assert((a + b).last() == b.last());
        lemma_tokens_recorded_append(t, a, b.drop_last());
    }
}

proof fn lemma_tokens_recorded_keeps(t: SymbolTableView, names: Seq<Seq<char>>)
    requires
        numbering_wf(t),
        t.strlits.len() + names.len() < usize::MAX,
    ensures
        numbering_wf(tokens_recorded(t, names)),
        tokens_recorded(t, names).strlits.len() <= t.strlits.len() + names.len(),
        tokens_recorded(t, names).rules == t.rules,
        tokens_recorded(t, names).tokens == t.tokens,
    decreases names.len(),
{
    if names.len() > 0 {
        lemma_tokens_recorded_keeps(t, names.drop_last());
        let u = tokens_recorded(t, names.drop_last());
        if name_lookup(u.strlits, names.last()) is None {
            lemma_push_fresh(u.strlits, names.last());
        }
    }
}

/// Records one literal after others: the step of a loop over literals.
proof fn lemma_record_step(t: SymbolTableView, done: Seq<Seq<char>>, next: Seq<char>)
    ensures
        token_recorded(tokens_recorded(t, done), next) == tokens_recorded(t, done.push(next)),
{
    assert(done.push(next).drop_last() =~= done);
}

impl Atom {
    /// Records the literal of an atom; a name is checked later.
    pub fn symbols(&self, table: &mut SymbolTable) -> (r: Result<(), AnalysisErr>)
        requires
            numbering_wf(old(table)@),
            old(table)@.strlits.len() < usize::MAX,
        ensures
            r is Ok,
            numbering_wf(final(table)@),
            final(table)@ == match self@ {
                AtomModel::StringLit(s) => token_recorded(old(table)@, s),
                AtomModel::ID(_) => old(table)@,
            },
    {
        match self {
            Atom::StringLit(s) => table.insert_token(s.clone()),
            Atom::ID(_) => {},
        }
        Ok(())
    }
}

impl Element {
    pub fn symbols(&self, table: &mut SymbolTable) -> (r: Result<(), AnalysisErr>)
        requires
            numbering_wf(old(table)@),
            old(table)@.strlits.len() + element_strlits(self@).len() < usize::MAX,
        ensures
            r is Ok,
            numbering_wf(final(table)@),
            final(table)@ == tokens_recorded(old(table)@, element_strlits(self@)),
        decreases self@, 0nat,
    {
        match self {
            Element::Atom { atom, .. } => {
                let ghost t = table@;
                let _ = atom.symbols(table);
                proof {
                    match atom@ {
                        AtomModel::StringLit(s) => {
                            assert(element_strlits(self@) =~= seq![s]);
                            lemma_record_step(t, Seq::empty(), s);
                            assert(Seq::<Seq<char>>::empty().push(s) =~= seq![s]);
                        },
                        AtomModel::ID(_) => {
                            assert(element_strlits(self@) =~= Seq::<Seq<char>>::empty());
                        },
                    }
                }
                Ok(())
            },
            Element::Block { block, .. } => {
                assert(block@ == block.0@);
                block.symbols(table)
            },
            Element::CharSet { .. } => {
                assert(element_strlits(self@) =~= Seq::<Seq<char>>::empty());
                Ok(())
            },
        }
    }
}

impl Block {
    pub fn symbols(&self, table: &mut SymbolTable) -> (r: Result<(), AnalysisErr>)
        requires
            numbering_wf(old(table)@),
            old(table)@.strlits.len() + alts_strlits(self@.alts).len() < usize::MAX,
        ensures
            r is Ok,
            numbering_wf(final(table)@),
            final(table)@ == tokens_recorded(old(table)@, alts_strlits(self@.alts)),
        decreases self@, 1nat,
    {
        self.0.symbols(table)
    }
}

impl AltList {
    pub fn symbols(&self, table: &mut SymbolTable) -> (r: Result<(), AnalysisErr>)
        requires
            numbering_wf(old(table)@),
            old(table)@.strlits.len() + alts_strlits(self@.alts).len() < usize::MAX,
        ensures
            r is Ok,
            numbering_wf(final(table)@),
            final(table)@ == tokens_recorded(old(table)@, alts_strlits(self@.alts)),
        decreases self@, 0nat,
    {
        let ghost t = table@;
        let alts = self.alts();
        let ghost bs = self@.alts;
        let mut i: usize = 0;
        assert(bs.take(0) =~= Seq::<AltModel>::empty());
        while i < alts.len()
            invariant
                alts_view(alts@) == bs,
                bs == self@.alts,
                numbering_wf(t),
                t.strlits.len() + alts_strlits(bs).len() < usize::MAX,
                i <= alts.len(),
                numbering_wf(table@),
                table@ == tokens_recorded(t, alts_strlits(bs.take(i as int))),
            decreases alts.len() - i,
        {
            proof {
                crate::symbols::lemma_alts_strlits_step(bs, i as int);
                crate::symbols::lemma_alts_strlits_prefix(bs, i + 1);
                lemma_tokens_recorded_keeps(t, alts_strlits(bs.take(i as int)));
                lemma_tokens_recorded_append(
                    t,
                    alts_strlits(bs.take(i as int)),
                    alt_strlits(bs[i as int]),
                );
            }
            assert(alts@[i as int]@ == bs[i as int]);
            let _ = alts[i].symbols(table);
            i += 1;
        }
        assert(bs.take(alts.len() as int) =~= bs);
        Ok(())
    }
}

impl Alt {
    pub fn symbols(&self, table: &mut SymbolTable) -> (r: Result<(), AnalysisErr>)
        requires
            numbering_wf(old(table)@),
            old(table)@.strlits.len() + alt_strlits(self@).len() < usize::MAX,
        ensures
            r is Ok,
            numbering_wf(final(table)@),
            final(table)@ == tokens_recorded(old(table)@, alt_strlits(self@)),
        decreases self@, 0nat,
    {
        let ghost t = table@;
        let elements = self.elements();
        let ghost es = self@.elements;
        let mut i: usize = 0;
        assert(es.take(0) =~= Seq::<ElementModel>::empty());
        while i < elements.len()
            invariant
                elements_view(elements@) == es,
                es == self@.elements,
                numbering_wf(t),
                t.strlits.len() + elements_strlits(es).len() < usize::MAX,
                i <= elements.len(),
                numbering_wf(table@),
                table@ == tokens_recorded(t, elements_strlits(es.take(i as int))),
            decreases elements.len() - i,
        {
            proof {
                lemma_elements_strlits_step(es, i as int);
                lemma_elements_strlits_prefix(es, i + 1);
                lemma_tokens_recorded_keeps(t, elements_strlits(es.take(i as int)));
                lemma_tokens_recorded_append(
                    t,
                    elements_strlits(es.take(i as int)),
                    element_strlits(es[i as int]),
                );
            }
            assert(elements@[i as int]@ == es[i as int]);
            let _ = elements[i].symbols(table);
            i += 1;
        }
        assert(es.take(elements.len() as int) =~= es);
        Ok(())
    }
}

proof fn lemma_elements_strlits_step(es: Seq<ElementModel>, i: int)
    requires
        0 <= i < es.len(),
    ensures
        elements_strlits(es.take(i + 1)) == elements_strlits(es.take(i)) + element_strlits(es[i]),
{
    assert(es.take(i + 1).drop_last() =~= es.take(i));
    assert(es.take(i + 1).last() == es[i]);
}

proof fn lemma_elements_strlits_prefix(es: Seq<ElementModel>, i: int)
    requires
        0 <= i <= es.len(),
    ensures
        elements_strlits(es.take(i)).len() <= elements_strlits(es).len(),
    decreases es.len() - i,
{
    if i == es.len() {
        assert(es.take(i) =~= es);
    } else {
        lemma_elements_strlits_step(es, i);
        lemma_elements_strlits_prefix(es, i + 1);
    }
}

impl Rule {
    /// Records the rule's name, refusing one already recorded, then its literals.
    pub fn symbols(&self, table: &mut SymbolTable) -> (r: Result<(), AnalysisErr>)
        requires
            numbering_wf(old(table)@),
            old(table)@.rules.len() < usize::MAX,
            old(table)@.strlits.len() + alts_strlits(self@.alt_list.alts).len() < usize::MAX,
        ensures
            numbering_wf(final(table)@),
            match r {
                Ok(()) => name_lookup(old(table)@.rules, self@.name) is None && final(table)@
                    == tokens_recorded(
                    SymbolTableView {
                        rules: old(table)@.rules.push(
                            (self@.name, old(table)@.rules.len() as usize),
                        ),
                        ..old(table)@
                    },
                    alts_strlits(self@.alt_list.alts),
                ),
                Err(e) => name_lookup(old(table)@.rules, self@.name) is Some && final(table)@
                    == old(table)@ && (e matches AnalysisErr::Redefinition { of } && of@
                    == self@.name),
            },
    {
        match table.insert_rule(self.name().clone()) {
            Ok(()) => {},
            Err(e) => return Err(e),
        }
        self.alt_list().symbols(table)
    }
}

impl TokenRule {
    /// Records the token rule's name, refusing one already recorded, then its
    /// literals.
    pub fn symbols(&self, table: &mut SymbolTable) -> (r: Result<(), AnalysisErr>)
        requires
            numbering_wf(old(table)@),
            old(table)@.tokens.len() < usize::MAX,
            old(table)@.strlits.len() + alts_strlits(self@.alt_list.alts).len() < usize::MAX,
        ensures
            numbering_wf(final(table)@),
            match r {
                Ok(()) => name_lookup(old(table)@.tokens, self@.name) is None && final(table)@
                    == tokens_recorded(
                    SymbolTableView {
                        tokens: old(table)@.tokens.push(
                            (self@.name, old(table)@.tokens.len() as usize),
                        ),
                        ..old(table)@
                    },
                    alts_strlits(self@.alt_list.alts),
                ),
                Err(e) => name_lookup(old(table)@.tokens, self@.name) is Some && final(table)@
                    == old(table)@ && (e matches AnalysisErr::Redefinition { of } && of@
                    == self@.name),
            },
    {
        match table.insert_token_rule(self.name().clone()) {
            Ok(()) => {},
            Err(e) => return Err(e),
        }
        self.alt_list().symbols(table)
    }
}

/// The abstract value of an analysis error.
pub enum AnalysisErrView {
    Undefined { name: Seq<char> },
    Redefinition { of: Seq<char> },
    AltLabels,
}

pub open spec fn err_view(e: AnalysisErr) -> AnalysisErrView {
    match e {
        AnalysisErr::Undefined { name } => AnalysisErrView::Undefined { name: name@ },
        AnalysisErr::Redefinition { of } => AnalysisErrView::Redefinition { of: of@ },
        AnalysisErr::AltLabels => AnalysisErrView::AltLabels,
    }
}

/// How building the network of a piece of grammar ends: with a fragment, with
/// an error, or stopped on a character set, which has no network yet.
pub enum Gen {
    Done(FragmentModel),
    Fails(AnalysisErrView),
    Stops,
}

/// A fragment of one state and no transitions.
pub open spec fn start_fragment() -> FragmentModel {
    FragmentModel { start: 0, states: seq![Set::<int>::empty()], transitions: Seq::empty() }
}

/// `g` placed after `f`, with an epsilon transition from the first state of `f`
/// to the start of `g`.
pub open spec fn appended(f: FragmentModel, g: FragmentModel) -> FragmentModel {
    FragmentModel {
        start: f.start,
        states: f.states + shift_states(g.states, f.transitions.len() as int),
        transitions: (f.transitions + shift_transitions(g.transitions, f.states.len() as int)).push(
            TransitionModel::Epsilon { source: 0, target: g.start + f.states.len() },
        ),
    }
}

/// The network built so far, then the next piece's appended to it.
pub open spec fn gen_then(acc: Gen, next: Gen) -> Gen {
    match acc {
        Gen::Done(f) => match next {
            Gen::Done(g) => Gen::Done(appended(f, g)),
            other => other,
        },
        other => other,
    }
}

/// A literal is a transition on its token between two states; a name is one
/// state for now.
pub open spec fn atom_gen(t: SymbolTableView, a: AtomModel) -> Gen {
    match a {
        AtomModel::StringLit(s) => match name_lookup(t.strlits, s) {
            Some(id) => Gen::Done(
                FragmentModel {
                    start: 0,
                    states: seq![Set::<int>::empty(), Set::<int>::empty()],
                    transitions: seq![TransitionModel::Atom { source: 0, target: 1, input: id as int }],
                },
            ),
            None => Gen::Fails(AnalysisErrView::Undefined { name: s }),
        },
        AtomModel::ID(_) => Gen::Done(start_fragment()),
    }
}

pub open spec fn element_gen(t: SymbolTableView, e: ElementModel) -> Gen
    decreases e,
{
    match e {
        ElementModel::Atom { atom, .. } => atom_gen(t, atom),
        ElementModel::Block { block, .. } => list_gen(t, block),
        ElementModel::CharSet { .. } => Gen::Stops,
    }
}

pub open spec fn alt_gen(t: SymbolTableView, a: AltModel) -> Gen
    decreases a,
{
    elements_gen(t, a.elements)
}

pub open spec fn elements_gen(t: SymbolTableView, es: Seq<ElementModel>) -> Gen
    decreases es,
{
    if es.len() == 0 {
        Gen::Done(start_fragment())
    } else {
        gen_then(elements_gen(t, es.drop_last()), element_gen(t, es.last()))
    }
}

/// Every alternative is labelled.
pub open spec fn all_labeled(alts: Seq<AltModel>) -> bool {
    forall|i: int| 0 <= i < alts.len() ==> (#[trigger] alts[i]).label is Some
}

/// Some alternative is labelled.
pub open spec fn any_labeled(alts: Seq<AltModel>) -> bool {
    exists|i: int| 0 <= i < alts.len() && (#[trigger] alts[i]).label is Some
}

/// A list of alternatives is refused unless all or none are labelled (an empty
/// list counts as all and none at once, and is refused).
pub open spec fn list_gen(t: SymbolTableView, l: AltListModel) -> Gen
    decreases l,
{
    if all_labeled(l.alts) != any_labeled(l.alts) {
        Gen::Fails(AnalysisErrView::AltLabels)
    } else {
        alts_gen(t, l.alts)
    }
}

pub open spec fn alts_gen(t: SymbolTableView, alts: Seq<AltModel>) -> Gen
    decreases alts,
{
    if alts.len() == 0 {
        Gen::Done(start_fragment())
    } else {
        gen_then(alts_gen(t, alts.drop_last()), alt_gen(t, alts.last()))
    }
}

/// The number of states of the network of a piece of grammar.
pub open spec fn element_size(e: ElementModel) -> nat
    decreases e,
{
    match e {
        ElementModel::Atom { atom: AtomModel::StringLit(_), .. } => 2,
        ElementModel::Atom { .. } => 1,
        ElementModel::Block { block, .. } => alts_size(block.alts),
        ElementModel::CharSet { .. } => 1,
    }
}

pub open spec fn elements_size(es: Seq<ElementModel>) -> nat
    decreases es,
{
    if es.len() == 0 {
        1
    } else {
        elements_size(es.drop_last()) + element_size(es.last())
    }
}

pub open spec fn alts_size(alts: Seq<AltModel>) -> nat
    decreases alts,
{
    if alts.len() == 0 {
        1
    } else {
        alts_size(alts.drop_last()) + elements_size(alts.last().elements)
    }
}

/// A fragment built from a grammar: it starts at its first state, no state
/// lists a transition, and every transition joins two of its states.
pub open spec fn built_wf(f: FragmentModel) -> bool {
    &&& f.start == 0
    &&& f.states.len() >= 1
    &&& forall|i: int| 0 <= i < f.states.len() ==> #[trigger] f.states[i] == Set::<int>::empty()
    &&& forall|i: int|
        0 <= i < f.transitions.len() ==> 0 <= #[trigger] f.transitions[i].source() < f.states.len()
            && 0 <= f.transitions[i].target() < f.states.len()
}

/// A built piece has the size its grammar gives it.
pub open spec fn gen_sized(g: Gen, size: nat) -> bool {
    g matches Gen::Done(f) ==> built_wf(f) && f.states.len() == size
}

proof fn lemma_appended(f: FragmentModel, g: FragmentModel)
    requires
        built_wf(f),
        built_wf(g),
    ensures
        built_wf(appended(f, g)),
        appended(f, g).states.len() == f.states.len() + g.states.len(),
{
    let a = appended(f, g);
    let by = f.transitions.len() as int;
    assert forall|i: int| 0 <= i < a.states.len() implies #[trigger] a.states[i] == Set::<int>::empty() by {
        if i >= f.states.len() {
            let k = i - f.states.len();
            assert(a.states[i] == crate::atn::shift_set(g.states[k], by));
            assert(g.states[k] == Set::<int>::empty());
            assert(crate::atn::shift_set(g.states[k], by) =~= Set::<int>::empty());
        }
    }
    let n = f.states.len() as int;
    assert forall|i: int| 0 <= i < a.transitions.len() implies 0 <= #[trigger] a.transitions[i].source()
        < a.states.len() && 0 <= a.transitions[i].target() < a.states.len() by {
        if f.transitions.len() <= i < a.transitions.len() - 1 {
            let k = i - f.transitions.len();
            assert(a.transitions[i] == g.transitions[k].shifted(n));
            assert(0 <= g.transitions[k].source() < g.states.len());
            match g.transitions[k] {
                TransitionModel::Epsilon { .. } => {},
                TransitionModel::Atom { .. } => {},
                TransitionModel::Range { .. } => {},
                TransitionModel::CharSet { .. } => {},
                TransitionModel::NotSet { .. } => {},
            }
        }
    }
}

proof fn lemma_gen_then(acc: Gen, next: Gen, n1: nat, n2: nat)
    requires
        gen_sized(acc, n1),
        gen_sized(next, n2),
    ensures
        gen_sized(gen_then(acc, next), n1 + n2),
{
    if let Gen::Done(f) = acc {
        if let Gen::Done(g) = next {
            lemma_appended(f, g);
        }
    }
}

/// What `append_fragment` needs: the pieces joined stay within a machine word.
proof fn lemma_fits(f: FragmentModel, g: FragmentModel)
    requires
        built_wf(f),
        built_wf(g),
        f.states.len() + g.states.len() <= usize::MAX,
    ensures
        crate::atn::offset_fits(g, f.states.len() as int, f.transitions.len() as int),
{
    assert forall|i: int| 0 <= i < g.transitions.len() implies #[trigger] g.transitions[i].source()
        + f.states.len() <= usize::MAX && g.transitions[i].target() + f.states.len()
        <= usize::MAX by {
        assert(0 <= g.transitions[i].source() < g.states.len());
    }
    assert forall|i: int, t: int| 0 <= i < g.states.len() && #[trigger] g.states[i].contains(t) implies t
        + f.transitions.len() <= usize::MAX by {
        assert(g.states[i] == Set::<int>::empty());
    }
}

proof fn lemma_element_sized(t: SymbolTableView, e: ElementModel)
    ensures
        gen_sized(element_gen(t, e), element_size(e)),
    decreases e,
{
    match e {
        ElementModel::Block { block, .. } => {
            lemma_alts_sized(t, block.alts);
        },
        _ => {},
    }
}

proof fn lemma_elements_sized(t: SymbolTableView, es: Seq<ElementModel>)
    ensures
        gen_sized(elements_gen(t, es), elements_size(es)),
    decreases es,
{
    if es.len() > 0 {
        lemma_elements_sized(t, es.drop_last());
        lemma_element_sized(t, es.last());
        lemma_gen_then(
            elements_gen(t, es.drop_last()),
            element_gen(t, es.last()),
            elements_size(es.drop_last()),
            element_size(es.last()),
        );
    }
}

proof fn lemma_alts_sized(t: SymbolTableView, alts: Seq<AltModel>)
    ensures
        gen_sized(alts_gen(t, alts), alts_size(alts)),
    decreases alts,
{
    if alts.len() > 0 {
        lemma_alts_sized(t, alts.drop_last());
        lemma_elements_sized(t, alts.last().elements);
        lemma_gen_then(
            alts_gen(t, alts.drop_last()),
            alt_gen(t, alts.last()),
            alts_size(alts.drop_last()),
            elements_size(alts.last().elements),
        );
    }
}

proof fn lemma_gen_prefix_elements(t: SymbolTableView, es: Seq<ElementModel>, i: int)
    requires
        0 <= i <= es.len(),
    ensures
        !(elements_gen(t, es.take(i)) is Done) ==> elements_gen(t, es) == elements_gen(t, es.take(i)),
        elements_size(es.take(i)) <= elements_size(es),
    decreases es.len() - i,
{
    if i == es.len() {
        assert(es.take(i) =~= es);
    } else {
        assert(es.take(i + 1).drop_last() =~= es.take(i));
        assert(es.take(i + 1).last() == es[i]);
        lemma_gen_prefix_elements(t, es, i + 1);
    }
}

proof fn lemma_gen_prefix_alts(t: SymbolTableView, alts: Seq<AltModel>, i: int)
    requires
        0 <= i <= alts.len(),
    ensures
        !(alts_gen(t, alts.take(i)) is Done) ==> alts_gen(t, alts) == alts_gen(t, alts.take(i)),
        alts_size(alts.take(i)) <= alts_size(alts),
    decreases alts.len() - i,
{
    if i == alts.len() {
        assert(alts.take(i) =~= alts);
    } else {
        assert(alts.take(i + 1).drop_last() =~= alts.take(i));
        assert(alts.take(i + 1).last() == alts[i]);
        lemma_gen_prefix_alts(t, alts, i + 1);
    }
}

impl Atom {
    /// The network of an atom: a literal is a transition on its token.
    pub fn codegen(&self, table: &SymbolTable) -> (r: Result<ATNFragment, AnalysisErr>)
        ensures
            match r {
                Ok(f) => atom_gen(table@, self@) == Gen::Done(f@),
                Err(e) => atom_gen(table@, self@) == Gen::Fails(err_view(e)),
            },
    {
        let mut fragment = ATNFragment::new();
        match self {
            Atom::StringLit(s) => {
                let id = match table.get_token_id(s.clone()) {
                    Some(id) => id,
                    None => return Err(AnalysisErr::Undefined { name: s.clone() }),
                };
                fragment.push_state(State::new());
                fragment.push_transition(
                    Transition::Atom { source: StateRef(0), target: StateRef(1), input: id },
                );
                assert(fragment@.states =~= seq![Set::<int>::empty(), Set::<int>::empty()]);
                assert(fragment@.transitions =~= seq![
                    TransitionModel::Atom { source: 0, target: 1, input: id as int },
                ]);
            },
            Atom::ID(_) => {},
        }
        Ok(fragment)
    }
}

impl Element {
    /// The network of an element; a character set has none yet.
    pub fn codegen(&self, table: &SymbolTable) -> (r: Result<ATNFragment, AnalysisErr>)
        requires
            element_gen(table@, self@) != Gen::Stops,
            element_size(self@) <= usize::MAX,
        ensures
            match r {
                Ok(f) => element_gen(table@, self@) == Gen::Done(f@),
                Err(e) => element_gen(table@, self@) == Gen::Fails(err_view(e)),
            },
        decreases self@, 0nat,
    {
        match self {
            Element::Atom { atom, .. } => atom.codegen(table),
            Element::Block { block, .. } => {
                assert(block@ == block.0@);
                block.codegen(table)
            },
            Element::CharSet { .. } => {
                assert(false);
                Err(AnalysisErr::AltLabels)
            },
        }
    }
}

impl Block {
    pub fn codegen(&self, table: &SymbolTable) -> (r: Result<ATNFragment, AnalysisErr>)
        requires
            list_gen(table@, self@) != Gen::Stops,
            alts_size(self@.alts) <= usize::MAX,
        ensures
            match r {
                Ok(f) => list_gen(table@, self@) == Gen::Done(f@),
                Err(e) => list_gen(table@, self@) == Gen::Fails(err_view(e)),
            },
        decreases self@, 1nat,
    {
        self.0.codegen(table)
    }
}

impl AltList {
    /// The network of a list of alternatives, each reached by an epsilon
    /// transition from the first state; refused unless all or none of the
    /// alternatives are labelled.
    pub fn codegen(&self, table: &SymbolTable) -> (r: Result<ATNFragment, AnalysisErr>)
        requires
            list_gen(table@, self@) != Gen::Stops,
            alts_size(self@.alts) <= usize::MAX,
        ensures
            match r {
                Ok(f) => list_gen(table@, self@) == Gen::Done(f@),
                Err(e) => list_gen(table@, self@) == Gen::Fails(err_view(e)),
            },
        decreases self@, 0nat,
    {
        let alts = self.alts();
        let ghost bs = self@.alts;
        let mut ands = true;
        let mut ors = false;
        let mut i: usize = 0;
        while i < alts.len()
            invariant
                alts_view(alts@) == bs,
                i <= alts.len(),
                ands == (forall|k: int| 0 <= k < i ==> (#[trigger] bs[k]).label is Some),
                ors == (exists|k: int| 0 <= k < i && (#[trigger] bs[k]).label is Some),
            decreases alts.len() - i,
        {
            assert(alts@[i as int]@ == bs[i as int]);
            let labeled = alts[i].label().is_some();
            ands = ands && labeled;
            ors = ors || labeled;
            i += 1;
        }
        assert(ands == all_labeled(bs));
        assert(ors == any_labeled(bs));
        if ands != ors {
            return Err(AnalysisErr::AltLabels);
        }
        let ghost t = table@;
        let mut fragment = ATNFragment::new();
        let mut i: usize = 0;
        assert(bs.take(0) =~= Seq::<AltModel>::empty());
        while i < alts.len()
            invariant
                alts_view(alts@) == bs,
                bs == self@.alts,
                t == table@,
                alts_gen(t, bs) != Gen::Stops,
                all_labeled(bs) == any_labeled(bs),
                alts_size(bs) <= usize::MAX,
                i <= alts.len(),
                alts_gen(t, bs.take(i as int)) == Gen::Done(fragment@),
                built_wf(fragment@),
                fragment@.states.len() == alts_size(bs.take(i as int)),
            decreases alts.len() - i,
        {
            proof {
                assert(bs.take(i + 1).drop_last() =~= bs.take(i as int));
                assert(bs.take(i + 1).last() == bs[i as int]);
                lemma_gen_prefix_alts(t, bs, i + 1);
                lemma_elements_sized(t, bs[i as int].elements);
            }
            assert(alts@[i as int]@ == bs[i as int]);
            match alts[i].codegen(table) {
                Ok(g) => {
                    proof {
                        lemma_fits(fragment@, g@);
                        lemma_appended(fragment@, g@);
                    }
                    fragment.append_fragment(StateRef(0), g);
                },
                Err(e) => {
                    return Err(e);
                },
            }
            i += 1;
        }
        assert(bs.take(alts.len() as int) =~= bs);
        Ok(fragment)
    }
}

impl Alt {
    /// The network of an alternative: each element's reached by an epsilon
    /// transition from the first state.
    pub fn codegen(&self, table: &SymbolTable) -> (r: Result<ATNFragment, AnalysisErr>)
        requires
            alt_gen(table@, self@) != Gen::Stops,
            elements_size(self@.elements) <= usize::MAX,
        ensures
            match r {
                Ok(f) => alt_gen(table@, self@) == Gen::Done(f@),
                Err(e) => alt_gen(table@, self@) == Gen::Fails(err_view(e)),
            },
        decreases self@, 0nat,
    {
        let ghost t = table@;
        let elements = self.elements();
        let ghost es = self@.elements;
        let mut fragment = ATNFragment::new();
        let mut i: usize = 0;
        assert(es.take(0) =~= Seq::<ElementModel>::empty());
        while i < elements.len()
            invariant
                elements_view(elements@) == es,
                es == self@.elements,
                t == table@,
                elements_gen(t, es) != Gen::Stops,
                elements_size(es) <= usize::MAX,
                i <= elements.len(),
                elements_gen(t, es.take(i as int)) == Gen::Done(fragment@),
                built_wf(fragment@),
                fragment@.states.len() == elements_size(es.take(i as int)),
            decreases elements.len() - i,
        {
            proof {
                assert(es.take(i + 1).drop_last() =~= es.take(i as int));
                assert(es.take(i + 1).last() == es[i as int]);
                lemma_gen_prefix_elements(t, es, i + 1);
                lemma_element_sized(t, es[i as int]);
            }
            assert(elements@[i as int]@ == es[i as int]);
            match elements[i].codegen(table) {
                Ok(g) => {
                    proof {
                        lemma_fits(fragment@, g@);
                        lemma_appended(fragment@, g@);
                    }
                    fragment.append_fragment(StateRef(0), g);
                },
                Err(e) => {
                    return Err(e);
                },
            }
            i += 1;
        }
        assert(es.take(elements.len() as int) =~= es);
        Ok(fragment)
    }
}

impl Rule {
    /// The network of a parser rule: that of its alternatives.
    pub fn codegen(&self, table: &SymbolTable) -> (r: Result<ATNFragment, AnalysisErr>)
        requires
            list_gen(table@, self@.alt_list) != Gen::Stops,
            alts_size(self@.alt_list.alts) <= usize::MAX,
        ensures
            match r {
                Ok(f) => list_gen(table@, self@.alt_list) == Gen::Done(f@),
                Err(e) => list_gen(table@, self@.alt_list) == Gen::Fails(err_view(e)),
            },
    {
        self.alt_list().codegen(table)
    }
}

impl TokenRule {
    /// The network of a token rule: that of its alternatives.
    pub fn codegen(&self, table: &SymbolTable) -> (r: Result<ATNFragment, AnalysisErr>)
        requires
            list_gen(table@, self@.alt_list) != Gen::Stops,
            alts_size(self@.alt_list.alts) <= usize::MAX,
        ensures
            match r {
                Ok(f) => list_gen(table@, self@.alt_list) == Gen::Done(f@),
                Err(e) => list_gen(table@, self@.alt_list) == Gen::Fails(err_view(e)),
            },
    {
        self.alt_list().codegen(table)
    }
}

/// Every network built from a list of alternatives starts at its first state,
/// lists no transition in any state, joins only its own states, and has as many
/// states as the list's size.
pub proof fn law_network_well_formed(t: SymbolTableView, l: AltListModel)
    ensures
        list_gen(t, l) matches Gen::Done(f) ==> built_wf(f) && f.states.len() == alts_size(l.alts),
{
    lemma_alts_sized(t, l.alts);
}


/// The network of a string literal whose token is known has two states and
/// one transition, on that token, which leaves the start state for the other
/// state; a literal with no token fails with its name.
pub proof fn law_literal_leaves_start(t: SymbolTableView, s: Seq<char>)
    ensures
        name_lookup(t.strlits, s) is Some ==> (atom_gen(t, AtomModel::StringLit(s)) matches Gen::Done(f)
            && f.states.len() == 2 && 0 <= f.start < f.states.len() && f.transitions.len() == 1
            && (f.transitions[0] matches TransitionModel::Atom { source, target, input }
            && source == f.start && target != f.start && 0 <= target < f.states.len()
            && input == name_lookup(t.strlits, s)->Some_0 as int)),
        name_lookup(t.strlits, s) is None ==> atom_gen(t, AtomModel::StringLit(s))
            == Gen::Fails(AnalysisErrView::Undefined { name: s }),
{
}

} // verus!
