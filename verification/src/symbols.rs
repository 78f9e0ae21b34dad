use vstd::prelude::*;
use vstd::string::StringExecFns;

use crate::ast::{
    alts_view, elements_view, ANTLRAst, Alt, AltModel, AstModel, Atom, AtomModel, Element,
    ElementModel, Rule, RuleModel, TokenRule, TokenRuleModel,
};

verus! {

pub open spec fn alt_strlits(a: AltModel) -> Seq<Seq<char>>
    decreases a,
{
    elements_strlits(a.elements)
}

pub open spec fn elements_strlits(es: Seq<ElementModel>) -> Seq<Seq<char>>
    decreases es,
{
    if es.len() == 0 {
        Seq::empty()
    } else {
        elements_strlits(es.drop_last()) + element_strlits(es.last())
    }
}

pub open spec fn element_strlits(e: ElementModel) -> Seq<Seq<char>>
    decreases e,
{
    match e {
        ElementModel::Atom { atom: AtomModel::StringLit(s), .. } => seq![s],
        ElementModel::Block { block, .. } => alts_strlits(block.alts),
        _ => Seq::empty(),
    }
}

pub open spec fn alts_strlits(alts: Seq<AltModel>) -> Seq<Seq<char>>
    decreases alts,
{
    if alts.len() == 0 {
        Seq::empty()
    } else {
        alts_strlits(alts.drop_last()) + alt_strlits(alts.last())
    }
}

/// The views of a list of strings.
pub open spec fn strings_view(v: Seq<String>) -> Seq<Seq<char>> {
    v.map_values(|s: String| s@)
}

/// The string literals of an alternative, in the order they are written, nested
/// blocks included.
pub fn get_strlits(alt: &Alt) -> (out: Vec<String>)
    ensures
        strings_view(out@) == alt_strlits(alt@),
    decreases alt@,
{
    let mut out: Vec<String> = Vec::new();
    let elements = alt.elements();
    let ghost es = alt@.elements;
    let mut i: usize = 0;
    while i < elements.len()
        invariant
            elements_view(elements@) == es,
            es == alt@.elements,
            i <= elements.len(),
            strings_view(out@) == elements_strlits(es.take(i as int)),
        decreases elements.len() - i,
    {
        let element = &elements[i];
        assert(element@ == es[i as int]);
        assert(es.take(i + 1).drop_last() =~= es.take(i as int));
        let ghost before = out@;
        match element {
            Element::Atom { atom: Atom::StringLit(s), .. } => {
                out.push(s.clone());
                assert(strings_view(out@) =~= strings_view(before) + seq![s@]);
                assert(element_strlits(element@) == seq![s@]);
            },
            Element::Block { block, .. } => {
                let alts = block.0.alts();
                let ghost bs = alts_view(alts@);
                let mut j: usize = 0;
                while j < alts.len()
                    invariant
                        bs == alts_view(alts@),
                        element@ == es[i as int],
                        es == alt@.elements,
                        0 <= i < es.len(),
                        element@ matches ElementModel::Block { block: b, .. } && b.alts == bs,
                        j <= alts.len(),
                        strings_view(out@) == strings_view(before) + alts_strlits(bs.take(j as int)),
                    decreases alts.len() - j,
                {
                    let inner = &alts[j];
                    assert(inner@ == bs[j as int]);
                    assert(bs.take(j + 1).drop_last() =~= bs.take(j as int));
                    let ghost mid = out@;
                    let mut sub = get_strlits(inner);
                    out.append(&mut sub);
                    assert(strings_view(out@) =~= strings_view(mid) + alt_strlits(inner@));
                    assert(bs.take(j + 1).last() == bs[j as int]);
                    assert(alts_strlits(bs.take(j + 1)) == alts_strlits(bs.take(j as int))
                        + alt_strlits(bs[j as int]));
                    j += 1;
                }
                assert(bs.take(alts.len() as int) =~= bs);
                assert(element_strlits(element@) == alts_strlits(bs));
            },
            _ => {
                assert(element_strlits(element@) =~= Seq::<Seq<char>>::empty());
                assert(strings_view(out@) =~= strings_view(before) + Seq::<Seq<char>>::empty());
            },
        }
        assert(strings_view(out@) == strings_view(before) + element_strlits(es[i as int]));
        assert(es.take(i + 1).last() == es[i as int]);
        assert(elements_strlits(es.take(i + 1)) == elements_strlits(es.take(i as int))
            + element_strlits(es[i as int]));
        i += 1;
    }
    assert(es.take(elements.len() as int) =~= es);
    out
}

/// A problem found while resolving the names of a grammar.
#[derive(Debug)]
pub enum AnalysisErr {
    Undefined { name: String },
    Redefinition { of: String },
    AltLabels,
}

/// The view of a list of named ids.
pub open spec fn entries_view(v: Seq<(String, usize)>) -> Seq<(Seq<char>, usize)> {
    v.map_values(|e: (String, usize)| (e.0@, e.1))
}

/// The id last recorded for `name`.
pub open spec fn name_lookup(s: Seq<(Seq<char>, usize)>, name: Seq<char>) -> Option<usize>
    decreases s.len(),
{
    if s.len() == 0 {
        None
    } else if s.last().0 == name {
        Some(s.last().1)
    } else {
        name_lookup(s.drop_last(), name)
    }
}

/// The name last recorded with `id`.
pub open spec fn id_lookup(s: Seq<(Seq<char>, usize)>, id: usize) -> Option<Seq<char>>
    decreases s.len(),
{
    if s.len() == 0 {
        None
    } else if s.last().1 == id {
        Some(s.last().0)
    } else {
        id_lookup(s.drop_last(), id)
    }
}

/// No name is recorded twice.
pub open spec fn distinct_names(s: Seq<(Seq<char>, usize)>) -> bool {
    forall|i: int, j: int| 0 <= i < j < s.len() ==> s[i].0 != s[j].0
}

/// Ids grow strictly along the list.
pub open spec fn increasing_ids(s: Seq<(Seq<char>, usize)>) -> bool {
    forall|i: int, j: int| 0 <= i < j < s.len() ==> s[i].1 < s[j].1
}

/// The abstract state of a symbol table: the named ids of the parser rules, of the
/// token rules and of the string literals, in the order they were recorded.
pub struct SymbolTableView {
    pub rules: Seq<(Seq<char>, usize)>,
    pub tokens: Seq<(Seq<char>, usize)>,
    pub strlits: Seq<(Seq<char>, usize)>,
}

/// Names are unique in each list, and every literal's id is below the next one
/// to be handed out, so literal ids never repeat.
pub open spec fn table_wf(t: SymbolTableView) -> bool {
    &&& distinct_names(t.rules)
    &&& distinct_names(t.tokens)
    &&& distinct_names(t.strlits)
    &&& increasing_ids(t.strlits)
    &&& forall|i: int|
        0 <= i < t.strlits.len() ==> #[trigger] t.strlits[i].1 < t.tokens.len() + t.strlits.len()
}

/// What recording a literal does: a new literal gets the next id, the number of
/// tokens and literals known so far; a known one changes nothing.
pub open spec fn strlit_inserted(t: SymbolTableView, name: Seq<char>) -> SymbolTableView {
    if name_lookup(t.strlits, name) is Some {
        t
    } else {
        SymbolTableView {
            strlits: t.strlits.push((name, (t.tokens.len() + t.strlits.len()) as usize)),
            ..t
        }
    }
}

/// Recording a list of literals in order.
pub open spec fn strlits_inserted(t: SymbolTableView, names: Seq<Seq<char>>) -> SymbolTableView
    decreases names.len(),
{
    if names.len() == 0 {
        t
    } else {
        strlit_inserted(strlits_inserted(t, names.drop_last()), names.last())
    }
}

/// The string literals of a list of parser rules, rule by rule.
pub open spec fn rules_strlits(rs: Seq<RuleModel>) -> Seq<Seq<char>>
    decreases rs.len(),
{
    if rs.len() == 0 {
        Seq::empty()
    } else {
        rules_strlits(rs.drop_last()) + alts_strlits(rs.last().alt_list.alts)
    }
}

/// The string literals of a list of token rules, rule by rule.
pub open spec fn token_rules_strlits(rs: Seq<TokenRuleModel>) -> Seq<Seq<char>>
    decreases rs.len(),
{
    if rs.len() == 0 {
        Seq::empty()
    } else {
        token_rules_strlits(rs.drop_last()) + alts_strlits(rs.last().alt_list.alts)
    }
}

/// Every string literal of a grammar: those of the parser rules, then those of
/// the token rules.
pub open spec fn ast_strlits(a: AstModel) -> Seq<Seq<char>> {
    rules_strlits(a.rules) + token_rules_strlits(a.token_rules)
}

/// The table built for a grammar: its literals numbered in order of first
/// appearance, and the end-of-file token with the largest id.
pub open spec fn table_of(a: AstModel) -> SymbolTableView {
    let t = strlits_inserted(
        SymbolTableView { rules: Seq::empty(), tokens: Seq::empty(), strlits: Seq::empty() },
        ast_strlits(a),
    );
    SymbolTableView { tokens: t.tokens.push(("EOF"@, usize::MAX)), ..t }
}

pub(crate) proof fn lemma_lookup_some(s: Seq<(Seq<char>, usize)>, name: Seq<char>)
    ensures
        name_lookup(s, name) is Some <==> exists|i: int| 0 <= i < s.len() && s[i].0 == name,
        name_lookup(s, name) is Some ==> exists|i: int|
            0 <= i < s.len() && s[i].0 == name && s[i].1 == name_lookup(s, name)->Some_0,
    decreases s.len(),
{
    if s.len() > 0 {
        lemma_lookup_some(s.drop_last(), name);
        if name_lookup(s.drop_last(), name) is Some {
            let i = choose|i: int|
                0 <= i < s.drop_last().len() && s.drop_last()[i].0 == name && s.drop_last()[i].1
                    == name_lookup(s.drop_last(), name)->Some_0;
            assert(s[i] == s.drop_last()[i]);
        }
        if exists|i: int| 0 <= i < s.len() && s[i].0 == name {
            let i = choose|i: int| 0 <= i < s.len() && s[i].0 == name;
            if i < s.len() - 1 {
                assert(s.drop_last()[i] == s[i]);
            }
        }
    }
}

proof fn lemma_lookup_unique(s: Seq<(Seq<char>, usize)>, i: int)
    requires
        distinct_names(s),
        0 <= i < s.len(),
    ensures
        name_lookup(s, s[i].0) == Some(s[i].1),
    decreases s.len(),
{
    if i < s.len() - 1 {
        assert(s.drop_last()[i] == s[i]);
        lemma_lookup_unique(s.drop_last(), i);
    }
}

proof fn lemma_id_lookup_unique(s: Seq<(Seq<char>, usize)>, i: int)
    requires
        increasing_ids(s),
        0 <= i < s.len(),
    ensures
        id_lookup(s, s[i].1) == Some(s[i].0),
    decreases s.len(),
{
    if i < s.len() - 1 {
        assert(s.drop_last()[i] == s[i]);
        lemma_id_lookup_unique(s.drop_last(), i);
    }
}

pub(crate) proof fn lemma_strlits_inserted_bounds(t: SymbolTableView, names: Seq<Seq<char>>)
    ensures
        strlits_inserted(t, names).strlits.len() <= t.strlits.len() + names.len(),
        strlits_inserted(t, names).tokens == t.tokens,
        strlits_inserted(t, names).rules == t.rules,
    decreases names.len(),
{
    if names.len() > 0 {
        lemma_strlits_inserted_bounds(t, names.drop_last());
    }
}

/// The table before anything is recorded.
pub open spec fn empty_table() -> SymbolTableView {
    SymbolTableView { rules: Seq::empty(), tokens: Seq::empty(), strlits: Seq::empty() }
}

pub(crate) proof fn lemma_alts_strlits_step(bs: Seq<AltModel>, j: int)
    requires
        0 <= j < bs.len(),
    ensures
        alts_strlits(bs.take(j + 1)) == alts_strlits(bs.take(j)) + alt_strlits(bs[j]),
{
    assert(bs.take(j + 1).drop_last() =~= bs.take(j));
    assert(bs.take(j + 1).last() == bs[j]);
}

pub(crate) proof fn lemma_alts_strlits_prefix(bs: Seq<AltModel>, j: int)
    requires
        0 <= j <= bs.len(),
    ensures
        alts_strlits(bs.take(j)).len() <= alts_strlits(bs).len(),
    decreases bs.len() - j,
{
    if j == bs.len() {
        assert(bs.take(j) =~= bs);
    } else {
        lemma_alts_strlits_step(bs, j);
        lemma_alts_strlits_prefix(bs, j + 1);
    }
}

proof fn lemma_rules_strlits_step(rs: Seq<RuleModel>, i: int)
    requires
        0 <= i < rs.len(),
    ensures
        rules_strlits(rs.take(i + 1)) == rules_strlits(rs.take(i)) + alts_strlits(
            rs[i].alt_list.alts,
        ),
{
    assert(rs.take(i + 1).drop_last() =~= rs.take(i));
    assert(rs.take(i + 1).last() == rs[i]);
}

proof fn lemma_rules_strlits_prefix(rs: Seq<RuleModel>, i: int)
    requires
        0 <= i <= rs.len(),
    ensures
        rules_strlits(rs.take(i)).len() <= rules_strlits(rs).len(),
    decreases rs.len() - i,
{
    if i == rs.len() {
        assert(rs.take(i) =~= rs);
    } else {
        lemma_rules_strlits_step(rs, i);
        lemma_rules_strlits_prefix(rs, i + 1);
    }
}

proof fn lemma_token_rules_strlits_step(rs: Seq<TokenRuleModel>, i: int)
    requires
        0 <= i < rs.len(),
    ensures
        token_rules_strlits(rs.take(i + 1)) == token_rules_strlits(rs.take(i)) + alts_strlits(
            rs[i].alt_list.alts,
        ),
{
    assert(rs.take(i + 1).drop_last() =~= rs.take(i));
    assert(rs.take(i + 1).last() == rs[i]);
}

proof fn lemma_token_rules_strlits_prefix(rs: Seq<TokenRuleModel>, i: int)
    requires
        0 <= i <= rs.len(),
    ensures
        token_rules_strlits(rs.take(i)).len() <= token_rules_strlits(rs).len(),
    decreases rs.len() - i,
{
    if i == rs.len() {
        assert(rs.take(i) =~= rs);
    } else {
        lemma_token_rules_strlits_step(rs, i);
        lemma_token_rules_strlits_prefix(rs, i + 1);
    }
}

/// Find the names of a list of rules' literals and record them in order.
fn record_alts(table: &mut SymbolTable, alts: &Vec<Alt>, Ghost(base): Ghost<Seq<Seq<char>>>, Ghost(total): Ghost<nat>)
    requires
        table_wf(old(table)@),
        old(table)@ == strlits_inserted(empty_table(), base),
        base.len() + alts_strlits(alts_view(alts@)).len() <= total,
        total < usize::MAX,
    ensures
        table_wf(final(table)@),
        final(table)@ == strlits_inserted(empty_table(), base + alts_strlits(alts_view(alts@))),
{
    let ghost bs = alts_view(alts@);
    let mut j: usize = 0;
    assert(base + alts_strlits(bs.take(0)) =~= base);
    while j < alts.len()
        invariant
            bs == alts_view(alts@),
            j <= alts.len(),
            table_wf(table@),
            table@ == strlits_inserted(empty_table(), base + alts_strlits(bs.take(j as int))),
            base.len() + alts_strlits(bs).len() <= total,
            total < usize::MAX,
        decreases alts.len() - j,
    {
        proof {
            lemma_alts_strlits_step(bs, j as int);
            lemma_alts_strlits_prefix(bs, j + 1);
        }
        let strs = get_strlits(&alts[j]);
        assert(alts[j as int]@ == bs[j as int]);
        let ghost p = base + alts_strlits(bs.take(j as int));
        let mut k: usize = 0;
        assert(p + strings_view(strs@).take(0) =~= p);
        while k < strs.len()
            invariant
                strings_view(strs@) == alt_strlits(bs[j as int]),
                p.len() + strings_view(strs@).len() <= total,
                total < usize::MAX,
                k <= strs.len(),
                table_wf(table@),
                table@ == strlits_inserted(empty_table(), p + strings_view(strs@).take(k as int)),
            decreases strs.len() - k,
        {
            proof {
                lemma_strlits_inserted_bounds(empty_table(), p + strings_view(strs@).take(k as int));
            }
            let ghost q = p + strings_view(strs@).take(k as int);
            table.insert_strlit(strs[k].clone());
            proof {
                assert(p + strings_view(strs@).take(k + 1) =~= q.push(strs@[k as int]@));
                assert(q.push(strs@[k as int]@).drop_last() =~= q);
            }
            k += 1;
        }
        assert(strings_view(strs@).take(strs.len() as int) =~= strings_view(strs@));
        assert(p + alt_strlits(bs[j as int]) =~= base + alts_strlits(bs.take(j + 1)));
        j += 1;
    }
    assert(bs.take(alts.len() as int) =~= bs);
}

/// A name recorded last is found under the id it was recorded with, and that id
/// leads back to it.
pub proof fn law_lookup_after_record(s: Seq<(Seq<char>, usize)>, name: Seq<char>, id: usize)
    ensures
        name_lookup(s.push((name, id)), name) == Some(id),
        id_lookup(s.push((name, id)), id) == Some(name),
{
    assert(s.push((name, id)).last() == (name, id));
}

/// In a well-formed table, the id of a known literal leads back to that literal.
pub proof fn law_strlit_round_trip(t: SymbolTableView, name: Seq<char>)
    requires
        table_wf(t),
        name_lookup(t.strlits, name) is Some,
    ensures
        id_lookup(t.strlits, name_lookup(t.strlits, name)->Some_0) == Some(name),
{
    lemma_lookup_some(t.strlits, name);
    let i = choose|i: int|
        0 <= i < t.strlits.len() && t.strlits[i].0 == name && t.strlits[i].1 == name_lookup(
            t.strlits,
            name,
        )->Some_0;
    lemma_id_lookup_unique(t.strlits, i);
}

/// Recording a literal makes it known, and recording a known literal again keeps
/// its id.
pub proof fn law_recorded_strlit_known(t: SymbolTableView, name: Seq<char>)
    ensures
        name_lookup(strlit_inserted(t, name).strlits, name) is Some,
        name_lookup(t.strlits, name) is Some ==> name_lookup(strlit_inserted(t, name).strlits, name)
            == name_lookup(t.strlits, name),
{
    if name_lookup(t.strlits, name) is None {
        law_lookup_after_record(t.strlits, name, (t.tokens.len() + t.strlits.len()) as usize);
    }
}

proof fn lemma_known_stays_known(t: SymbolTableView, name: Seq<char>, n: Seq<char>)
    requires
        name_lookup(t.strlits, n) is Some,
    ensures
        name_lookup(strlit_inserted(t, name).strlits, n) is Some,
{
    if name_lookup(t.strlits, name) is None {
        let s = t.strlits.push((name, (t.tokens.len() + t.strlits.len()) as usize));
        assert(s.drop_last() =~= t.strlits);
    }
}

proof fn lemma_inserted_known(t: SymbolTableView, names: Seq<Seq<char>>, n: Seq<char>)
    requires
        names.contains(n) || name_lookup(t.strlits, n) is Some,
    ensures
        name_lookup(strlits_inserted(t, names).strlits, n) is Some,
    decreases names.len(),
{
    if names.len() > 0 {
        let rest = names.drop_last();
        if names.last() == n {
            law_recorded_strlit_known(strlits_inserted(t, rest), n);
        } else {
            let i = if names.contains(n) {
                choose|i: int| 0 <= i < names.len() && names[i] == n
            } else {
                0
            };
            if names.contains(n) {
                assert(rest[i] == n);
            }
            lemma_inserted_known(t, rest, n);
            lemma_known_stays_known(strlits_inserted(t, rest), names.last(), n);
        }
    }
}

/// Every string literal written in a grammar has an id in the grammar's table.
pub proof fn law_grammar_strlits_known(a: AstModel, n: Seq<char>)
    requires
        ast_strlits(a).contains(n),
    ensures
        name_lookup(table_of(a).strlits, n) is Some,
{
    lemma_inserted_known(empty_table(), ast_strlits(a), n);
}

/// The table of a grammar is well formed.
pub proof fn law_grammar_table_wf(a: AstModel)
    requires
        ast_strlits(a).len() < usize::MAX,
    ensures
        table_wf(table_of(a)),
{
    lemma_inserted_wf(empty_table(), ast_strlits(a));
    lemma_strlits_inserted_bounds(empty_table(), ast_strlits(a));
    let t = strlits_inserted(empty_table(), ast_strlits(a));
    let u = table_of(a);
    assert forall|i: int| 0 <= i < u.strlits.len() implies #[trigger] u.strlits[i].1 < u.tokens.len()
        + u.strlits.len() by {
        assert(t.strlits[i].1 < t.tokens.len() + t.strlits.len());
    }
}

proof fn lemma_inserted_wf(t: SymbolTableView, names: Seq<Seq<char>>)
    requires
        table_wf(t),
        t.tokens.len() + t.strlits.len() + names.len() < usize::MAX,
    ensures
        table_wf(strlits_inserted(t, names)),
    decreases names.len(),
{
    if names.len() > 0 {
        lemma_inserted_wf(t, names.drop_last());
        lemma_strlits_inserted_bounds(t, names.drop_last());
        let u = strlits_inserted(t, names.drop_last());
        let name = names.last();
        if name_lookup(u.strlits, name) is None {
            lemma_lookup_some(u.strlits, name);
        }
    }
}

/// The id of `name` in a list of named ids.
fn find_name(entries: &Vec<(String, usize)>, name: &String) -> (r: Option<usize>)
    ensures
        r == name_lookup(entries_view(entries@), name@),
{
    let ghost v = entries_view(entries@);
    let mut k: usize = entries.len();
    assert(v.take(k as int) =~= v);
    while k > 0
        invariant
            v == entries_view(entries@),
            k <= entries.len(),
            name_lookup(v, name@) == name_lookup(v.take(k as int), name@),
        decreases k,
    {
        assert(v.take(k as int).last() == v[k - 1]);
        assert(v.take(k as int).drop_last() =~= v.take(k - 1));
        if entries[k - 1].0 == *name {
            return Some(entries[k - 1].1);
        }
        k -= 1;
    }
    assert(v.take(0) =~= Seq::<(Seq<char>, usize)>::empty());
    None
}

/// The name recorded last with `id` in a list of named ids.
fn find_id(entries: &Vec<(String, usize)>, id: usize) -> (r: Option<String>)
    ensures
        match r {
            Some(n) => id_lookup(entries_view(entries@), id) == Some(n@),
            None => id_lookup(entries_view(entries@), id) is None,
        },
{
    let ghost v = entries_view(entries@);
    let mut k: usize = entries.len();
    assert(v.take(k as int) =~= v);
    while k > 0
        invariant
            v == entries_view(entries@),
            k <= entries.len(),
            id_lookup(v, id) == id_lookup(v.take(k as int), id),
        decreases k,
    {
        assert(v.take(k as int).last() == v[k - 1]);
        assert(v.take(k as int).drop_last() =~= v.take(k - 1));
        if entries[k - 1].1 == id {
            return Some(entries[k - 1].0.clone());
        }
        k -= 1;
    }
    assert(v.take(0) =~= Seq::<(Seq<char>, usize)>::empty());
    None
}

/// The names of a grammar's rules, tokens and string literals, each with its id.
#[derive(Debug, Clone)]
pub struct SymbolTable {
    rule_map: Vec<(String, usize)>,
    token_map: Vec<(String, usize)>,
    strlit_map: Vec<(String, usize)>,
}

impl View for SymbolTable {
    type V = SymbolTableView;

    closed spec fn view(&self) -> SymbolTableView {
        SymbolTableView {
            rules: entries_view(self.rule_map@),
            tokens: entries_view(self.token_map@),
            strlits: entries_view(self.strlit_map@),
        }
    }
}

impl SymbolTable {
    /// A table with no names in it.
    pub fn empty() -> (t: SymbolTable)
        ensures
            table_wf(t@),
            t@.rules == Seq::<(Seq<char>, usize)>::empty(),
            t@.tokens == Seq::<(Seq<char>, usize)>::empty(),
            t@.strlits == Seq::<(Seq<char>, usize)>::empty(),
    {
        let t = SymbolTable { rule_map: Vec::new(), token_map: Vec::new(), strlit_map: Vec::new() };
        assert(t@.rules =~= Seq::<(Seq<char>, usize)>::empty());
        assert(t@.tokens =~= Seq::<(Seq<char>, usize)>::empty());
        assert(t@.strlits =~= Seq::<(Seq<char>, usize)>::empty());
        t
    }

    /// The table of a grammar: its string literals, in order of first appearance
    /// (parser rules first, then token rules), numbered from zero, and the
    /// end-of-file token with the largest id.
    pub fn new(ast: &ANTLRAst) -> (t: SymbolTable)
        requires
            ast_strlits(ast@).len() < usize::MAX,
        ensures
            table_wf(t@),
            t@ == table_of(ast@),
    {
        let mut table = SymbolTable::empty();
        let ghost total = ast_strlits(ast@).len();
        let rules = ast.rules();
        let ghost rs = ast@.rules;
        let mut i: usize = 0;
        assert(table@ =~= strlits_inserted(empty_table(), rules_strlits(rs.take(0))));
        while i < rules.len()
            invariant
                rules@.map_values(|x: Rule| x@) == rs,
                rs == ast@.rules,
                total == ast_strlits(ast@).len(),
                total < usize::MAX,
                i <= rules.len(),
                table_wf(table@),
                table@ == strlits_inserted(empty_table(), rules_strlits(rs.take(i as int))),
            decreases rules.len() - i,
        {
            proof {
                lemma_rules_strlits_step(rs, i as int);
                lemma_rules_strlits_prefix(rs, i + 1);
                assert(rules@[i as int]@ == rs[i as int]);
            }
            let alts = rules[i].alts();
            record_alts(&mut table, alts, Ghost(rules_strlits(rs.take(i as int))), Ghost(total));
            i += 1;
        }
        assert(rs.take(rules.len() as int) =~= rs);
        let token_rules = ast.token_rules();
        let ghost ts = ast@.token_rules;
        let ghost base = rules_strlits(rs);
        let mut i: usize = 0;
        assert(base + token_rules_strlits(ts.take(0)) =~= base);
        while i < token_rules.len()
            invariant
                token_rules@.map_values(|x: TokenRule| x@) == ts,
                ts == ast@.token_rules,
                base == rules_strlits(ast@.rules),
                total == ast_strlits(ast@).len(),
                total < usize::MAX,
                i <= token_rules.len(),
                table_wf(table@),
                table@ == strlits_inserted(empty_table(), base + token_rules_strlits(ts.take(i as int))),
            decreases token_rules.len() - i,
        {
            proof {
                lemma_token_rules_strlits_step(ts, i as int);
                lemma_token_rules_strlits_prefix(ts, i + 1);
                assert(token_rules@[i as int]@ == ts[i as int]);
                assert(base + token_rules_strlits(ts.take(i + 1)) =~= base + token_rules_strlits(
                    ts.take(i as int),
                ) + alts_strlits(ts[i as int].alt_list.alts));
            }
            let alts = token_rules[i].alts();
            record_alts(
                &mut table,
                alts,
                Ghost(base + token_rules_strlits(ts.take(i as int))),
                Ghost(total),
            );
            i += 1;
        }
        assert(ts.take(token_rules.len() as int) =~= ts);
        proof {
            lemma_strlits_inserted_bounds(empty_table(), ast_strlits(ast@));
        }
        let eof = String::from_str("EOF");
        let _ = table.insert_token_rule(eof, usize::MAX);
        table
    }

    pub fn get_rule_id(&self, name: &String) -> (r: Option<usize>)
        ensures
            r == name_lookup(self@.rules, name@),
    {
        find_name(&self.rule_map, name)
    }

    pub fn get_rule_name(&self, id: usize) -> (r: Option<String>)
        ensures
            match r {
                Some(n) => id_lookup(self@.rules, id) == Some(n@),
                None => id_lookup(self@.rules, id) is None,
            },
    {
        find_id(&self.rule_map, id)
    }

    pub fn get_token_id(&self, name: &String) -> (r: Option<usize>)
        ensures
            r == name_lookup(self@.tokens, name@),
    {
        find_name(&self.token_map, name)
    }

    pub fn get_token_name(&self, id: usize) -> (r: Option<String>)
        ensures
            match r {
                Some(n) => id_lookup(self@.tokens, id) == Some(n@),
                None => id_lookup(self@.tokens, id) is None,
            },
    {
        find_id(&self.token_map, id)
    }

    pub fn get_strlit_id(&self, name: &String) -> (r: Option<usize>)
        ensures
            r == name_lookup(self@.strlits, name@),
    {
        find_name(&self.strlit_map, name)
    }

    pub fn get_strlit_name(&self, id: usize) -> (r: Option<String>)
        ensures
            match r {
                Some(n) => id_lookup(self@.strlits, id) == Some(n@),
                None => id_lookup(self@.strlits, id) is None,
            },
    {
        find_id(&self.strlit_map, id)
    }

    /// How many parser rules are recorded.
    pub fn rule_count(&self) -> (n: usize)
        ensures
            n == self@.rules.len(),
    {
        self.rule_map.len()
    }

    pub fn insert_rule(&mut self, name: String, index: usize) -> (r: Result<(), AnalysisErr>)
        requires
            table_wf(old(self)@),
        ensures
            table_wf(final(self)@),
            final(self)@.tokens == old(self)@.tokens,
            final(self)@.strlits == old(self)@.strlits,
            match r {
                Ok(()) => name_lookup(old(self)@.rules, name@) is None
                    && final(self)@.rules == old(self)@.rules.push((name@, index)),
                Err(e) => name_lookup(old(self)@.rules, name@) is Some
                    && final(self)@.rules == old(self)@.rules
                    && (e matches AnalysisErr::Redefinition { of } && of@ == name@),
            },
    {
        if find_name(&self.rule_map, &name).is_some() {
            return Err(AnalysisErr::Redefinition { of: name });
        }
        proof {
            lemma_lookup_some(self@.rules, name@);
        }
        let ghost before = self.rule_map@;
        self.rule_map.push((name, index));
        assert(entries_view(self.rule_map@) =~= entries_view(before).push((name@, index)));
        Ok(())
    }

    pub fn insert_token_rule(&mut self, name: String, index: usize) -> (r: Result<(), AnalysisErr>)
        requires
            table_wf(old(self)@),
        ensures
            table_wf(final(self)@),
            final(self)@.rules == old(self)@.rules,
            final(self)@.strlits == old(self)@.strlits,
            match r {
                Ok(()) => name_lookup(old(self)@.tokens, name@) is None
                    && final(self)@.tokens == old(self)@.tokens.push((name@, index)),
                Err(e) => name_lookup(old(self)@.tokens, name@) is Some
                    && final(self)@.tokens == old(self)@.tokens
                    && (e matches AnalysisErr::Redefinition { of } && of@ == name@),
            },
    {
        if find_name(&self.token_map, &name).is_some() {
            return Err(AnalysisErr::Redefinition { of: name });
        }
        proof {
            lemma_lookup_some(self@.tokens, name@);
        }
        let ghost before = self.token_map@;
        self.token_map.push((name, index));
        assert(entries_view(self.token_map@) =~= entries_view(before).push((name@, index)));
        Ok(())
    }

    pub fn insert_strlit(&mut self, name: String)
        requires
            table_wf(old(self)@),
            old(self)@.tokens.len() + old(self)@.strlits.len() < usize::MAX,
        ensures
            table_wf(final(self)@),
            final(self)@ == strlit_inserted(old(self)@, name@),
    {
        if find_name(&self.strlit_map, &name).is_some() {
            return;
        }
        proof {
            lemma_lookup_some(self@.strlits, name@);
        }
        let id = self.token_map.len() + self.strlit_map.len();
        let ghost before = self.strlit_map@;
        self.strlit_map.push((name, id));
        assert(entries_view(self.strlit_map@) =~= entries_view(before).push((name@, id)));
    }
}

} // verus!
