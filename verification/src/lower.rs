use vstd::prelude::*;
use vstd::string::StringExecFns;

use crate::ast::{
    alts_view, elements_view, Alt, AltListModel, AltModel, Atom, AtomModel, Block, Element,
    ElementModel, Rule, TokenRule,
};
use crate::ir::{alts_ir_view, rules_ir_view, AltIR, AltIRModel, AntlrIR, ElementIR, ElementIRModel, RuleIR, RuleIRModel};
use crate::symbols::{
    alt_strlits, alts_strlits, ast_strlits, element_strlits, elements_strlits, name_lookup,
    rules_strlits, table_of, token_rules_strlits, SymbolTable, SymbolTableView,
};
use crate::ast::{ANTLRAst, AstModel, RuleModel, TokenRuleModel};
use crate::text::{decimal, decimal_string};
use crate::util::{arena_set, arena_wf, landing, law_landing_is_first_free, slot_taken, taken_prefix, taken_prefix_filled, Arena, ArenaView, HashArc};

verus! {

/// How lowering a piece of grammar ends: it goes through, it fails with a
/// message, or it stops on a string literal that the table does not know.
pub enum Outcome {
    Done,
    Fails(Seq<char>),
    Stops,
}

/// The outcome of lowering one piece, then another if the first went through.
pub open spec fn followed_by(first: Outcome, second: Outcome) -> Outcome {
    match first {
        Outcome::Done => second,
        _ => first,
    }
}

/// The message for a name that is neither a rule nor a token.
pub open spec fn missing_id_message(name: Seq<char>) -> Seq<char> {
    "No rule found for id "@ + name
}

/// The message for a rule or block without alternatives.
pub open spec fn empty_alts_message() -> Seq<char> {
    "There are no nonempty alts"@
}

/// The name given to the rule made from a block.
pub open spec fn anonymous_rule_name(id: usize) -> Seq<char> {
    "__anonymous_rule_"@ + decimal(id as nat)
}

/// A name lowers when it is a rule or a token.
pub open spec fn id_resolves(t: SymbolTableView, name: Seq<char>) -> bool {
    name_lookup(t.rules, name) is Some || name_lookup(t.tokens, name) is Some
}

pub open spec fn alt_outcome(t: SymbolTableView, a: AltModel) -> Outcome
    decreases a,
{
    elements_outcome(t, a.elements)
}

pub open spec fn elements_outcome(t: SymbolTableView, es: Seq<ElementModel>) -> Outcome
    decreases es,
{
    if es.len() == 0 {
        Outcome::Done
    } else {
        followed_by(elements_outcome(t, es.drop_last()), element_outcome(t, es.last()))
    }
}

pub open spec fn element_outcome(t: SymbolTableView, e: ElementModel) -> Outcome
    decreases e,
{
    match e {
        ElementModel::Atom { atom: AtomModel::ID(n), .. } => if id_resolves(t, n) {
            Outcome::Done
        } else {
            Outcome::Fails(missing_id_message(n))
        },
        ElementModel::Atom { atom: AtomModel::StringLit(s), .. } => if name_lookup(
            t.strlits,
            s,
        ) is Some {
            Outcome::Done
        } else {
            Outcome::Stops
        },
        ElementModel::Block { block, .. } => block_outcome(t, block),
        ElementModel::CharSet { .. } => Outcome::Done,
    }
}

pub open spec fn block_outcome(t: SymbolTableView, b: AltListModel) -> Outcome
    decreases b,
{
    if b.alts.len() == 0 {
        Outcome::Fails(empty_alts_message())
    } else {
        alts_outcome(t, b.alts)
    }
}

pub open spec fn alts_outcome(t: SymbolTableView, alts: Seq<AltModel>) -> Outcome
    decreases alts,
{
    if alts.len() == 0 {
        Outcome::Done
    } else {
        followed_by(alts_outcome(t, alts.drop_last()), alt_outcome(t, alts.last()))
    }
}

/// How many blocks an alternative holds, nested ones included.
pub open spec fn alt_blocks(a: AltModel) -> nat
    decreases a,
{
    elements_blocks(a.elements)
}

pub open spec fn elements_blocks(es: Seq<ElementModel>) -> nat
    decreases es,
{
    if es.len() == 0 {
        0
    } else {
        elements_blocks(es.drop_last()) + element_blocks(es.last())
    }
}

pub open spec fn element_blocks(e: ElementModel) -> nat
    decreases e,
{
    match e {
        ElementModel::Block { block, .. } => block_blocks(block),
        _ => 0,
    }
}

pub open spec fn block_blocks(b: AltListModel) -> nat
    decreases b,
{
    1 + alts_blocks(b.alts)
}

pub open spec fn alts_blocks(alts: Seq<AltModel>) -> nat
    decreases alts,
{
    if alts.len() == 0 {
        0
    } else {
        alts_blocks(alts.drop_last()) + alt_blocks(alts.last())
    }
}

/// An alternative and its lowered form agree: same label and channel, and each
/// element lowered in place. `base` is the mask of the arena before lowering
/// began; the rules made from blocks sit in slots that were free then.
pub open spec fn alt_lowered(
    t: SymbolTableView,
    a: AltModel,
    x: AltIRModel,
    arena: ArenaView<RuleIR>,
    base: Seq<bool>,
) -> bool
    decreases a,
{
    &&& x.label == a.label
    &&& x.channel == a.channel
    &&& x.elements.len() == a.elements.len()
    &&& forall|i: int|
        0 <= i < a.elements.len() ==> element_lowered(t, a.elements[i], #[trigger] x.elements[i], arena, base)
}

/// A name becomes a reference to its rule, or else to its token; a string
/// literal a reference to its token; a character set stays as it is; a block a
/// reference to the anonymous rule made from it.
pub open spec fn element_lowered(
    t: SymbolTableView,
    e: ElementModel,
    x: ElementIRModel,
    arena: ArenaView<RuleIR>,
    base: Seq<bool>,
) -> bool
    decreases e,
{
    match e {
        ElementModel::Atom { atom: AtomModel::ID(n), suffix } => match name_lookup(t.rules, n) {
            Some(id) => x == ElementIRModel::RuleAtom { id, suffix },
            None => match name_lookup(t.tokens, n) {
                Some(id) => x == ElementIRModel::TokenAtom { id, suffix },
                None => false,
            },
        },
        ElementModel::Atom { atom: AtomModel::StringLit(s), suffix } => match name_lookup(
            t.strlits,
            s,
        ) {
            Some(id) => x == ElementIRModel::TokenAtom { id, suffix },
            None => false,
        },
        ElementModel::CharSet { inverted, set, suffix } => x == ElementIRModel::CharSet {
            inverted,
            set,
            suffix,
        },
        ElementModel::Block { block, suffix } => match x {
            ElementIRModel::RuleAtom { id, suffix: s } => s == suffix && block_lowered(
                t,
                block,
                id,
                arena,
                base,
            ),
            _ => false,
        },
    }
}

/// The slot `id` was free before lowering, sits past the named rules and now
/// holds the anonymous rule made from the block: named after its slot, optional
/// as the block is, with the block's alternatives lowered in order.
pub open spec fn block_lowered(
    t: SymbolTableView,
    b: AltListModel,
    id: usize,
    arena: ArenaView<RuleIR>,
    base: Seq<bool>,
) -> bool
    decreases b,
{
    let r = arena.items[id as int]->Some_0@;
    &&& id >= t.rules.len()
    &&& !slot_taken(base, id as int)
    &&& slot_taken(arena.mask, id as int)
    &&& arena.items[id as int] is Some
    &&& r.id == id
    &&& r.is_block
    &&& r.name == anonymous_rule_name(id)
    &&& r.optional == b.optional
    &&& r.alts.len() == b.alts.len()
    &&& forall|j: int|
        0 <= j < b.alts.len() ==> {
            &&& (#[trigger] r.alts[j]).index == j
            &&& r.alts[j].parent_rule == Some(id)
            &&& alt_lowered(t, b.alts[j], r.alts[j], arena, base)
        }
}

/// The slots taken in `a1` that were free in `base` are taken in `a2` too and
/// hold the same rules.
pub open spec fn keeps_new_slots(a1: ArenaView<RuleIR>, a2: ArenaView<RuleIR>, base: Seq<bool>) -> bool {
    forall|j: int|
        slot_taken(a1.mask, j) && !slot_taken(base, j) ==> #[trigger] slot_taken(a2.mask, j)
            && a2.items[j] == a1.items[j]
}

/// Every slot taken in `small` is taken in `large`.
pub open spec fn mask_within(small: Seq<bool>, large: Seq<bool>) -> bool {
    forall|j: int| slot_taken(small, j) ==> #[trigger] slot_taken(large, j)
}

/// What lowering may do to the arena: it stays well formed and tight, grows by
/// at most one slot per block, and every taken slot keeps its rule.
pub open spec fn arena_grows(
    old: ArenaView<RuleIR>,
    new: ArenaView<RuleIR>,
    start: nat,
    blocks: nat,
) -> bool {
    &&& arena_wf(new)
    &&& new.capacity == new.mask.len()
    &&& old.mask.len() <= new.mask.len()
    &&& new.mask.len() <= (if old.mask.len() > start {
        old.mask.len()
    } else {
        start
    }) + blocks
    &&& forall|j: int|
        slot_taken(old.mask, j) ==> #[trigger] slot_taken(new.mask, j) && new.items[j]
            == old.items[j]
}

/// The arena has room for `blocks` more rules past slot `start`.
pub open spec fn arena_fits(a: ArenaView<RuleIR>, start: nat, blocks: nat) -> bool {
    &&& arena_wf(a)
    &&& a.capacity == a.mask.len()
    &&& (if a.mask.len() > start {
        a.mask.len()
    } else {
        start
    }) + blocks < usize::MAX
}

proof fn lemma_elements_step(t: SymbolTableView, es: Seq<ElementModel>, i: int)
    requires
        0 <= i < es.len(),
    ensures
        elements_outcome(t, es.take(i + 1)) == followed_by(
            elements_outcome(t, es.take(i)),
            element_outcome(t, es[i]),
        ),
        elements_blocks(es.take(i + 1)) == elements_blocks(es.take(i)) + element_blocks(es[i]),
{
    assert(es.take(i + 1).drop_last() =~= es.take(i));
    assert(es.take(i + 1).last() == es[i]);
}

proof fn lemma_elements_prefix(t: SymbolTableView, es: Seq<ElementModel>, i: int)
    requires
        0 <= i <= es.len(),
    ensures
        elements_outcome(t, es.take(i)) != Outcome::Done ==> elements_outcome(t, es)
            == elements_outcome(t, es.take(i)),
        elements_blocks(es.take(i)) <= elements_blocks(es),
    decreases es.len() - i,
{
    if i == es.len() {
        assert(es.take(i) =~= es);
    } else {
        lemma_elements_step(t, es, i);
        lemma_elements_prefix(t, es, i + 1);
    }
}

proof fn lemma_alts_step(t: SymbolTableView, alts: Seq<AltModel>, j: int)
    requires
        0 <= j < alts.len(),
    ensures
        alts_outcome(t, alts.take(j + 1)) == followed_by(
            alts_outcome(t, alts.take(j)),
            alt_outcome(t, alts[j]),
        ),
        alts_blocks(alts.take(j + 1)) == alts_blocks(alts.take(j)) + alt_blocks(alts[j]),
{
    assert(alts.take(j + 1).drop_last() =~= alts.take(j));
    assert(alts.take(j + 1).last() == alts[j]);
}

proof fn lemma_alts_prefix(t: SymbolTableView, alts: Seq<AltModel>, j: int)
    requires
        0 <= j <= alts.len(),
    ensures
        alts_outcome(t, alts.take(j)) != Outcome::Done ==> alts_outcome(t, alts) == alts_outcome(
            t,
            alts.take(j),
        ),
        alts_blocks(alts.take(j)) <= alts_blocks(alts),
    decreases alts.len() - j,
{
    if j == alts.len() {
        assert(alts.take(j) =~= alts);
    } else {
        lemma_alts_step(t, alts, j);
        lemma_alts_prefix(t, alts, j + 1);
    }
}

/// Every slot taken in `b` that was not taken in `a` holds a rule.
pub open spec fn fills(a: ArenaView<RuleIR>, b: ArenaView<RuleIR>) -> bool {
    forall|j: int| slot_taken(b.mask, j) && !slot_taken(a.mask, j) ==> (#[trigger] b.items[j]) is Some
}

proof fn lemma_fills_trans(
    a: ArenaView<RuleIR>,
    b: ArenaView<RuleIR>,
    c: ArenaView<RuleIR>,
    start: nat,
    k: nat,
)
    requires
        fills(a, b),
        fills(b, c),
        arena_grows(b, c, start, k),
    ensures
        fills(a, c),
{
    assert forall|j: int| slot_taken(c.mask, j) && !slot_taken(a.mask, j) implies (#[trigger] c.items[j]) is Some by {
        if slot_taken(b.mask, j) {
            assert(c.items[j] == b.items[j]);
        }
    }
}

proof fn lemma_grows_trans(
    a: ArenaView<RuleIR>,
    b: ArenaView<RuleIR>,
    c: ArenaView<RuleIR>,
    start: nat,
    k1: nat,
    k2: nat,
)
    requires
        arena_grows(a, b, start, k1),
        arena_grows(b, c, start, k2),
    ensures
        arena_grows(a, c, start, k1 + k2),
{
}

proof fn lemma_grows_set(
    a: ArenaView<RuleIR>,
    b: ArenaView<RuleIR>,
    start: nat,
    k: nat,
    id: int,
    item: RuleIR,
)
    requires
        arena_grows(a, b, start, k),
        !slot_taken(a.mask, id),
        0 <= id < b.items.len(),
    ensures
        arena_grows(a, arena_set(b, id, item), start, k),
{
    let c = arena_set(b, id, item);
    assert forall|j: int| slot_taken(a.mask, j) implies #[trigger] slot_taken(c.mask, j)
        && c.items[j] == a.items[j] by {
        assert(slot_taken(b.mask, j));
    }
}

proof fn lemma_grows_more(a: ArenaView<RuleIR>, b: ArenaView<RuleIR>, start: nat, k1: nat, k2: nat)
    requires
        arena_grows(a, b, start, k1),
        k1 <= k2,
    ensures
        arena_grows(a, b, start, k2),
{
}

proof fn lemma_landing_bound(mask: Seq<bool>, index: int)
    requires
        0 <= index,
    ensures
        landing(mask, index) <= (if mask.len() > index {
            mask.len() as int
        } else {
            index
        }),
    decreases mask.len() - index,
{
    if 0 <= index < mask.len() && mask[index] {
        lemma_landing_bound(mask, index + 1);
    }
}

proof fn lemma_alt_stable(
    t: SymbolTableView,
    a: AltModel,
    x: AltIRModel,
    a1: ArenaView<RuleIR>,
    a2: ArenaView<RuleIR>,
    base: Seq<bool>,
)
    requires
        alt_lowered(t, a, x, a1, base),
        keeps_new_slots(a1, a2, base),
    ensures
        alt_lowered(t, a, x, a2, base),
    decreases a,
{
    assert forall|i: int| 0 <= i < a.elements.len() implies element_lowered(
        t,
        a.elements[i],
        #[trigger] x.elements[i],
        a2,
        base,
    ) by {
        lemma_element_stable(t, a.elements[i], x.elements[i], a1, a2, base);
    }
}

proof fn lemma_element_stable(
    t: SymbolTableView,
    e: ElementModel,
    x: ElementIRModel,
    a1: ArenaView<RuleIR>,
    a2: ArenaView<RuleIR>,
    base: Seq<bool>,
)
    requires
        element_lowered(t, e, x, a1, base),
        keeps_new_slots(a1, a2, base),
    ensures
        element_lowered(t, e, x, a2, base),
    decreases e,
{
    if let ElementModel::Block { block, .. } = e {
        if let ElementIRModel::RuleAtom { id, .. } = x {
            lemma_block_stable(t, block, id, a1, a2, base);
        }
    }
}

proof fn lemma_block_stable(
    t: SymbolTableView,
    b: AltListModel,
    id: usize,
    a1: ArenaView<RuleIR>,
    a2: ArenaView<RuleIR>,
    base: Seq<bool>,
)
    requires
        block_lowered(t, b, id, a1, base),
        keeps_new_slots(a1, a2, base),
    ensures
        block_lowered(t, b, id, a2, base),
    decreases b,
{
    assert(slot_taken(a2.mask, id as int) && a2.items[id as int] == a1.items[id as int]);
    let r = a2.items[id as int]->Some_0@;
    assert forall|j: int| 0 <= j < b.alts.len() implies {
        &&& (#[trigger] r.alts[j]).index == j
        &&& r.alts[j].parent_rule == Some(id)
        &&& alt_lowered(t, b.alts[j], r.alts[j], a2, base)
    } by {
        lemma_alt_stable(t, b.alts[j], r.alts[j], a1, a2, base);
    }
}

proof fn lemma_alt_base(
    t: SymbolTableView,
    a: AltModel,
    x: AltIRModel,
    arena: ArenaView<RuleIR>,
    base: Seq<bool>,
    wider: Seq<bool>,
)
    requires
        alt_lowered(t, a, x, arena, wider),
        mask_within(base, wider),
    ensures
        alt_lowered(t, a, x, arena, base),
    decreases a,
{
    assert forall|i: int| 0 <= i < a.elements.len() implies element_lowered(
        t,
        a.elements[i],
        #[trigger] x.elements[i],
        arena,
        base,
    ) by {
        lemma_element_base(t, a.elements[i], x.elements[i], arena, base, wider);
    }
}

proof fn lemma_element_base(
    t: SymbolTableView,
    e: ElementModel,
    x: ElementIRModel,
    arena: ArenaView<RuleIR>,
    base: Seq<bool>,
    wider: Seq<bool>,
)
    requires
        element_lowered(t, e, x, arena, wider),
        mask_within(base, wider),
    ensures
        element_lowered(t, e, x, arena, base),
    decreases e,
{
    if let ElementModel::Block { block, .. } = e {
        if let ElementIRModel::RuleAtom { id, .. } = x {
            lemma_block_base(t, block, id, arena, base, wider);
        }
    }
}

proof fn lemma_block_base(
    t: SymbolTableView,
    b: AltListModel,
    id: usize,
    arena: ArenaView<RuleIR>,
    base: Seq<bool>,
    wider: Seq<bool>,
)
    requires
        block_lowered(t, b, id, arena, wider),
        mask_within(base, wider),
    ensures
        block_lowered(t, b, id, arena, base),
    decreases b,
{
    let r = arena.items[id as int]->Some_0@;
    assert forall|j: int| 0 <= j < b.alts.len() implies {
        &&& (#[trigger] r.alts[j]).index == j
        &&& r.alts[j].parent_rule == Some(id)
        &&& alt_lowered(t, b.alts[j], r.alts[j], arena, base)
    } by {
        lemma_alt_base(t, b.alts[j], r.alts[j], arena, base, wider);
    }
}

fn clone_label(s: Option<&String>) -> (r: Option<String>)
    ensures
        match s {
            Some(x) => r == Some(*x),
            None => r is None,
        },
{
    match s {
        Some(x) => Some(x.clone()),
        None => None,
    }
}

impl AltIR {
    /// Lowers an alternative of a grammar: names become references to their rule,
    /// or else their token; string literals references to their token; blocks
    /// anonymous rules in `rules`; character sets stay. Fails on the first name
    /// that is neither a rule nor a token, or block without alternatives.
    pub fn from_alt(
        alt: &Alt,
        index: usize,
        parent_rule: usize,
        table: &SymbolTable,
        rules: &mut Arena<RuleIR>,
    ) -> (r: Result<AltIR, String>)
        requires
            arena_fits(old(rules)@, table@.rules.len(), alt_blocks(alt@)),
            alt_outcome(table@, alt@) != Outcome::Stops,
        ensures
            arena_grows(old(rules)@, final(rules)@, table@.rules.len(), alt_blocks(alt@)),
            match r {
                Ok(x) => alt_outcome(table@, alt@) == Outcome::Done && alt_lowered(
                    table@,
                    alt@,
                    x@,
                    final(rules)@,
                    old(rules)@.mask,
                ) && x@.index == index && x@.parent_rule == Some(parent_rule),
                Err(m) => alt_outcome(table@, alt@) == Outcome::Fails(m@),
            },
            r is Ok ==> fills(old(rules)@, final(rules)@),
        decreases alt@,
    {
        let ghost t = table@;
        let ghost rc = table@.rules.len();
        let ghost start = rules@;
        let ghost base = rules@.mask;
        let label = clone_label(alt.label());
        let channel = clone_label(alt.channel());
        let elements = alt.elements();
        let ghost es = alt@.elements;
        let mut out: Vec<ElementIR> = Vec::new();
        let mut i: usize = 0;
        assert(es.take(0) =~= Seq::<ElementModel>::empty());
        while i < elements.len()
            invariant
                elements_view(elements@) == es,
                es == alt@.elements,
                t == table@,
                rc == t.rules.len(),
                base == start.mask,
                start == old(rules)@,
                arena_fits(start, rc, alt_blocks(alt@)),
                alt_outcome(t, alt@) != Outcome::Stops,
                i <= elements.len(),
                arena_grows(start, rules@, rc, elements_blocks(es.take(i as int))),
                fills(start, rules@),
                elements_outcome(t, es.take(i as int)) == Outcome::Done,
                out@.len() == i,
                forall|k: int|
                    0 <= k < i ==> element_lowered(t, es[k], #[trigger] out@[k]@, rules@, base),
            decreases elements.len() - i,
        {
            proof {
                lemma_elements_step(t, es, i as int);
                lemma_elements_prefix(t, es, i + 1);
            }
            let element = &elements[i];
            assert(element@ == es[i as int]);
            let lowered = match element {
                Element::Atom { atom: Atom::ID(n), suffix } => {
                    match table.get_rule_id(n) {
                        Some(id) => ElementIR::RuleAtom { id, suffix: *suffix },
                        None => match table.get_token_id(n) {
                            Some(id) => ElementIR::TokenAtom { id, suffix: *suffix },
                            None => {
                                proof {
                                    lemma_elements_prefix(t, es, i as int);
                                    lemma_grows_more(
                                        start,
                                        rules@,
                                        rc,
                                        elements_blocks(es.take(i as int)),
                                        alt_blocks(alt@),
                                    );
                                }
                                let mut m = String::from_str("No rule found for id ");
                                m.append(n.as_str());
                                return Err(m);
                            },
                        },
                    }
                },
                Element::Atom { atom: Atom::StringLit(n), suffix } => {
                    match table.get_strlit_id(n) {
                        Some(id) => ElementIR::TokenAtom { id, suffix: *suffix },
                        None => {
                            assert(false);
                            return Err(String::new());
                        },
                    }
                },
                Element::CharSet { inverted, set, suffix } => ElementIR::CharSet {
                    inverted: *inverted,
                    set: set.duplicate(),
                    suffix: *suffix,
                },
                Element::Block { block, suffix } => {
                    let ghost before = rules@;
                    assert(block@ == block.0@);
                    assert(element_blocks(es[i as int]) == block_blocks(block@));
                    assert(element_outcome(t, es[i as int]) == block_outcome(t, block@));
                    match RuleIR::from_block(parent_rule, block, table, rules) {
                        Ok(id) => {
                            proof {
                                lemma_grows_trans(
                                    start,
                                    before,
                                    rules@,
                                    rc,
                                    elements_blocks(es.take(i as int)),
                                    element_blocks(es[i as int]),
                                );
                                assert forall|k: int| 0 <= k < i implies element_lowered(
                                    t,
                                    es[k],
                                    #[trigger] out@[k]@,
                                    rules@,
                                    base,
                                ) by {
                                    lemma_element_stable(t, es[k], out@[k]@, before, rules@, base);
                                }
                                lemma_block_base(t, block@, id, rules@, base, before.mask);
                                lemma_fills_trans(start, before, rules@, rc, element_blocks(es[i as int]));
                            }
                            ElementIR::RuleAtom { id, suffix: *suffix }
                        },
                        Err(m) => {
                            proof {
                                lemma_grows_trans(
                                    start,
                                    before,
                                    rules@,
                                    rc,
                                    elements_blocks(es.take(i as int)),
                                    element_blocks(es[i as int]),
                                );
                                lemma_grows_more(
                                    start,
                                    rules@,
                                    rc,
                                    elements_blocks(es.take(i + 1)),
                                    alt_blocks(alt@),
                                );
                            }
                            return Err(m);
                        },
                    }
                },
            };
            out.push(lowered);
            i += 1;
        }
        assert(es.take(elements.len() as int) =~= es);
        Ok(AltIR::with_parts(index, Some(parent_rule), label, out, channel))
    }
}

impl RuleIR {
    /// Lowers a block into an anonymous rule, placed in the first free slot of
    /// `rules` from the number of named rules on, and gives back that slot.
    pub fn from_block(
        parent_rule: usize,
        block: &Block,
        table: &SymbolTable,
        rules: &mut Arena<RuleIR>,
    ) -> (r: Result<usize, String>)
        requires
            arena_fits(old(rules)@, table@.rules.len(), block_blocks(block@)),
            block_outcome(table@, block@) != Outcome::Stops,
        ensures
            arena_grows(old(rules)@, final(rules)@, table@.rules.len(), block_blocks(block@)),
            match r {
                Ok(id) => block_outcome(table@, block@) == Outcome::Done && block_lowered(
                    table@,
                    block@,
                    id,
                    final(rules)@,
                    old(rules)@.mask,
                ),
                Err(m) => block_outcome(table@, block@) == Outcome::Fails(m@),
            },
            r is Ok ==> fills(old(rules)@, final(rules)@),
        decreases block@,
    {
        let ghost t = table@;
        let ghost rc = table@.rules.len();
        let ghost start = rules@;
        let optional = block.0.optional();
        let count = table.rule_count();
        proof {
            lemma_landing_bound(rules@.mask, count as int);
            law_landing_is_first_free(rules@.mask, count as int);
        }
        let id = rules.push_index_landing_location(count);
        rules.mask(id);
        let ghost marked = rules@;
        assert(arena_grows(start, marked, rc, 1));
        assert(!slot_taken(start.mask, id as int));
        let alts_src = block.0.alts();
        let ghost bs = block@.alts;
        if alts_src.len() == 0 {
            proof {
                lemma_grows_more(start, marked, rc, 1, block_blocks(block@));
            }
            return Err(String::from_str("There are no nonempty alts"));
        }
        assert(alts_view(alts_src@) == bs);
        let alts = match lower_alts(alts_src, id, table, rules) {
            Ok(alts) => alts,
            Err(m) => {
                proof {
                    lemma_grows_trans(start, marked, rules@, rc, 1, alts_blocks(bs));
                }
                return Err(m);
            },
        };
        let mut name = String::from_str("__anonymous_rule_");
        let digits = decimal_string(id);
        name.append(digits.as_str());
        let ghost av = alts_ir_view(alts@);
        let rule = RuleIR::with_parts(id, true, name, optional, alts);
        let ghost filled = rules@;
        assert(slot_taken(filled.mask, id as int));
        let ghost rule_view = rule@;
        let ghost rule_item = rule;
        rules.set(id, rule);
        assert(rules@.items[id as int]->Some_0@ == rule_view);
        proof {
            lemma_grows_trans(start, marked, filled, rc, 1, alts_blocks(bs));
            lemma_grows_set(start, filled, rc, block_blocks(block@), id as int, rule_item);
            assert(keeps_new_slots(filled, rules@, marked.mask));
            let r = rules@.items[id as int]->Some_0@;
            assert(r.alts == av);
            assert forall|k: int| 0 <= k < bs.len() implies {
                &&& (#[trigger] r.alts[k]).index == k
                &&& r.alts[k].parent_rule == Some(id)
                &&& alt_lowered(t, bs[k], r.alts[k], rules@, start.mask)
            } by {
                lemma_alt_stable(t, bs[k], r.alts[k], filled, rules@, marked.mask);
                lemma_alt_base(t, bs[k], r.alts[k], rules@, start.mask, marked.mask);
            }
            assert forall|j: int| slot_taken(rules@.mask, j) && !slot_taken(start.mask, j) implies (#[trigger] rules@.items[j]) is Some by {
                if j != id {
                    assert(slot_taken(filled.mask, j));
                    if slot_taken(marked.mask, j) {
                        assert(slot_taken(start.mask, j));
                    }
                    assert(filled.items[j] is Some);
                }
            }
        }
        Ok(id)
    }
}

/// The alternatives of a rule with id `id` are lowered in order, each knowing its
/// position and its rule.
pub open spec fn alts_lowered(
    t: SymbolTableView,
    alts: Seq<AltModel>,
    xs: Seq<AltIRModel>,
    id: usize,
    arena: ArenaView<RuleIR>,
    base: Seq<bool>,
) -> bool {
    &&& xs.len() == alts.len()
    &&& forall|j: int|
        0 <= j < alts.len() ==> {
            &&& (#[trigger] xs[j]).index == j
            &&& xs[j].parent_rule == Some(id)
            &&& alt_lowered(t, alts[j], xs[j], arena, base)
        }
}

/// Lowers the alternatives of the rule with id `id`, in order.
fn lower_alts(alts_src: &Vec<Alt>, id: usize, table: &SymbolTable, rules: &mut Arena<RuleIR>) -> (r:
    Result<Vec<HashArc<AltIR>>, String>)
    requires
        arena_fits(old(rules)@, table@.rules.len(), alts_blocks(alts_view(alts_src@))),
        alts_outcome(table@, alts_view(alts_src@)) != Outcome::Stops,
    ensures
        arena_grows(
            old(rules)@,
            final(rules)@,
            table@.rules.len(),
            alts_blocks(alts_view(alts_src@)),
        ),
        match r {
            Ok(v) => alts_outcome(table@, alts_view(alts_src@)) == Outcome::Done && alts_lowered(
                table@,
                alts_view(alts_src@),
                alts_ir_view(v@),
                id,
                final(rules)@,
                old(rules)@.mask,
            ),
            Err(m) => alts_outcome(table@, alts_view(alts_src@)) == Outcome::Fails(m@),
        },
        r is Ok ==> fills(old(rules)@, final(rules)@),
    decreases alts_view(alts_src@),
{
    let ghost t = table@;
    let ghost rc = table@.rules.len();
    let ghost start = rules@;
    let ghost bs = alts_view(alts_src@);
    let mut alts: Vec<HashArc<AltIR>> = Vec::new();
    let mut j: usize = 0;
    assert(bs.take(0) =~= Seq::<AltModel>::empty());
    while j < alts_src.len()
        invariant
            alts_view(alts_src@) == bs,
            t == table@,
            rc == t.rules.len(),
            start == old(rules)@,
            arena_fits(start, rc, alts_blocks(bs)),
            alts_outcome(t, bs) != Outcome::Stops,
            j <= alts_src.len(),
            arena_grows(start, rules@, rc, alts_blocks(bs.take(j as int))),
            fills(start, rules@),
            alts_outcome(t, bs.take(j as int)) == Outcome::Done,
            alts_ir_view(alts@).len() == j,
            forall|k: int|
                0 <= k < j ==> {
                    &&& (#[trigger] alts_ir_view(alts@)[k]).index == k
                    &&& alts_ir_view(alts@)[k].parent_rule == Some(id)
                    &&& alt_lowered(t, bs[k], alts_ir_view(alts@)[k], rules@, start.mask)
                },
        decreases alts_src.len() - j,
    {
        proof {
            lemma_alts_step(t, bs, j as int);
            lemma_alts_prefix(t, bs, j + 1);
        }
        let ghost before = rules@;
        assert(alts_src@[j as int]@ == bs[j as int]);
        match AltIR::from_alt(&alts_src[j], j, id, table, rules) {
            Ok(a) => {
                let ghost av = alts_ir_view(alts@);
                alts.push(HashArc::new(a));
                assert(alts_ir_view(alts@) =~= av.push(a@));
                proof {
                    lemma_fills_trans(start, before, rules@, rc, alt_blocks(bs[j as int]));
                    lemma_grows_trans(
                        start,
                        before,
                        rules@,
                        rc,
                        alts_blocks(bs.take(j as int)),
                        alt_blocks(bs[j as int]),
                    );
                    assert forall|k: int| 0 <= k < j + 1 implies {
                        &&& (#[trigger] alts_ir_view(alts@)[k]).index == k
                        &&& alts_ir_view(alts@)[k].parent_rule == Some(id)
                        &&& alt_lowered(t, bs[k], alts_ir_view(alts@)[k], rules@, start.mask)
                    } by {
                        if k < j {
                            assert(alts_ir_view(alts@)[k] == av[k]);
                            lemma_alt_stable(t, bs[k], av[k], before, rules@, start.mask);
                        } else {
                            lemma_alt_base(t, bs[k], a@, rules@, start.mask, before.mask);
                        }
                    }
                }
            },
            Err(m) => {
                proof {
                    lemma_grows_trans(
                        start,
                        before,
                        rules@,
                        rc,
                        alts_blocks(bs.take(j as int)),
                        alt_blocks(bs[j as int]),
                    );
                    lemma_grows_more(start, rules@, rc, alts_blocks(bs.take(j + 1)), alts_blocks(bs));
                }
                return Err(m);
            },
        }
        j += 1;
    }
    assert(bs.take(alts_src.len() as int) =~= bs);
    Ok(alts)
}

impl RuleIR {
    /// Lowers a parser rule, which the table must know by name when it has
    /// alternatives; its blocks become anonymous rules in `rules`.
    pub fn new(rule: &Rule, table: &SymbolTable, rules: &mut Arena<RuleIR>) -> (r: Result<RuleIR, String>)
        requires
            rule@.alt_list.alts.len() > 0 ==> name_lookup(table@.rules, rule@.name) is Some,
            arena_fits(old(rules)@, table@.rules.len(), alts_blocks(rule@.alt_list.alts)),
            block_outcome(table@, rule@.alt_list) != Outcome::Stops,
        ensures
            arena_grows(
                old(rules)@,
                final(rules)@,
                table@.rules.len(),
                alts_blocks(rule@.alt_list.alts),
            ),
            match r {
                Ok(x) => {
                    &&& block_outcome(table@, rule@.alt_list) == Outcome::Done
                    &&& Some(x@.id) == name_lookup(table@.rules, rule@.name)
                    &&& !x@.is_block
                    &&& x@.name == rule@.name
                    &&& x@.optional == rule@.alt_list.optional
                    &&& alts_lowered(
                        table@,
                        rule@.alt_list.alts,
                        x@.alts,
                        x@.id,
                        final(rules)@,
                        old(rules)@.mask,
                    )
                },
                Err(m) => block_outcome(table@, rule@.alt_list) == Outcome::Fails(m@),
            },
            r is Ok ==> fills(old(rules)@, final(rules)@),
    {
        let name = rule.name().clone();
        let optional = rule.alt_list().optional();
        let alts_src = rule.alts();
        if alts_src.len() == 0 {
            return Err(String::from_str("There are no nonempty alts"));
        }
        let id = match table.get_rule_id(&name) {
            Some(id) => id,
            None => {
                assert(false);
                return Err(String::new());
            },
        };
        match lower_alts(alts_src, id, table, rules) {
            Ok(alts) => Ok(RuleIR::with_parts(id, false, name, optional, alts)),
            Err(m) => Err(m),
        }
    }

    /// Lowers a token rule, which the table must know by name when it has
    /// alternatives.
    pub fn new_tokenrule(rule: &TokenRule, table: &SymbolTable, rules: &mut Arena<RuleIR>) -> (r:
        Result<RuleIR, String>)
        requires
            rule@.alt_list.alts.len() > 0 ==> name_lookup(table@.tokens, rule@.name) is Some,
            arena_fits(old(rules)@, table@.rules.len(), alts_blocks(rule@.alt_list.alts)),
            block_outcome(table@, rule@.alt_list) != Outcome::Stops,
        ensures
            arena_grows(
                old(rules)@,
                final(rules)@,
                table@.rules.len(),
                alts_blocks(rule@.alt_list.alts),
            ),
            match r {
                Ok(x) => {
                    &&& block_outcome(table@, rule@.alt_list) == Outcome::Done
                    &&& Some(x@.id) == name_lookup(table@.tokens, rule@.name)
                    &&& !x@.is_block
                    &&& x@.name == rule@.name
                    &&& x@.optional == rule@.alt_list.optional
                    &&& alts_lowered(
                        table@,
                        rule@.alt_list.alts,
                        x@.alts,
                        x@.id,
                        final(rules)@,
                        old(rules)@.mask,
                    )
                },
                Err(m) => block_outcome(table@, rule@.alt_list) == Outcome::Fails(m@),
            },
            r is Ok ==> fills(old(rules)@, final(rules)@),
    {
        let name = rule.name().clone();
        let optional = rule.alt_list().optional();
        let alts_src = rule.alts();
        if alts_src.len() == 0 {
            return Err(String::from_str("There are no nonempty alts"));
        }
        let id = match table.get_token_id(&name) {
            Some(id) => id,
            None => {
                assert(false);
                return Err(String::new());
            },
        };
        match lower_alts(alts_src, id, table, rules) {
            Ok(alts) => Ok(RuleIR::with_parts(id, false, name, optional, alts)),
            Err(m) => Err(m),
        }
    }
}

/// How many blocks the first `k` parser rules hold.
pub open spec fn rules_blocks(rs: Seq<RuleModel>, k: int) -> nat
    decreases k,
{
    if k <= 0 || k > rs.len() {
        0
    } else {
        rules_blocks(rs, k - 1) + alts_blocks(rs[k - 1].alt_list.alts)
    }
}

/// How many blocks the first `k` token rules hold.
pub open spec fn token_rules_blocks(rs: Seq<TokenRuleModel>, k: int) -> nat
    decreases k,
{
    if k <= 0 || k > rs.len() {
        0
    } else {
        token_rules_blocks(rs, k - 1) + alts_blocks(rs[k - 1].alt_list.alts)
    }
}

proof fn lemma_rules_blocks_mono(rs: Seq<RuleModel>, i: int, k: int)
    requires
        0 <= i <= k <= rs.len(),
    ensures
        rules_blocks(rs, i) <= rules_blocks(rs, k),
    decreases k - i,
{
    if i < k {
        lemma_rules_blocks_mono(rs, i, k - 1);
    }
}

proof fn lemma_token_rules_blocks_mono(rs: Seq<TokenRuleModel>, i: int, k: int)
    requires
        0 <= i <= k <= rs.len(),
    ensures
        token_rules_blocks(rs, i) <= token_rules_blocks(rs, k),
    decreases k - i,
{
    if i < k {
        lemma_token_rules_blocks_mono(rs, i, k - 1);
    }
}

/// A grammar the table can lower: every rule with alternatives is named in it
/// (parser rules among the rules, token rules among the tokens), no string
/// literal is unknown, and the rules and the anonymous rules made from blocks
/// fit in memory.
pub open spec fn ast_lowerable(t: SymbolTableView, a: AstModel) -> bool {
    &&& forall|i: int|
        0 <= i < a.rules.len() ==> ((#[trigger] a.rules[i]).alt_list.alts.len() > 0 ==> name_lookup(
            t.rules,
            a.rules[i].name,
        ) is Some) && block_outcome(t, a.rules[i].alt_list) != Outcome::Stops
    &&& forall|i: int|
        0 <= i < a.token_rules.len() ==> ((#[trigger] a.token_rules[i]).alt_list.alts.len() > 0
            ==> name_lookup(t.tokens, a.token_rules[i].name) is Some) && block_outcome(
            t,
            a.token_rules[i].alt_list,
        ) != Outcome::Stops
    &&& (if a.rules.len() > t.rules.len() {
        a.rules.len()
    } else {
        t.rules.len()
    }) + rules_blocks(a.rules, a.rules.len() as int) + token_rules_blocks(
        a.token_rules,
        a.token_rules.len() as int,
    ) < usize::MAX
}

/// `x` is a named rule lowered from `name` and `alt_list`, with id `id`: its
/// name and optional mark kept, and each alternative at its position, in the
/// rule, with its label, its channel and as many elements.
pub open spec fn rule_lowered(name: Seq<char>, alt_list: AltListModel, id: Option<usize>, x: RuleIRModel) -> bool {
    &&& id == Some(x.id)
    &&& !x.is_block
    &&& x.name == name
    &&& x.optional == alt_list.optional
    &&& x.alts.len() == alt_list.alts.len()
    &&& forall|j: int|
        0 <= j < x.alts.len() ==> {
            &&& (#[trigger] x.alts[j]).index == j
            &&& x.alts[j].parent_rule == Some(x.id)
            &&& x.alts[j].label == alt_list.alts[j].label
            &&& x.alts[j].channel == alt_list.alts[j].channel
            &&& x.alts[j].elements.len() == alt_list.alts[j].elements.len()
        }
}

/// The first `j` token rules of `rs` are lowered, in order, as `xs`.
pub open spec fn tokens_lowered(t: SymbolTableView, rs: Seq<TokenRuleModel>, xs: Seq<RuleIR>, j: int) -> bool {
    forall|k: int| 0 <= k < j ==> token_rule_lowered(t, rs[k], #[trigger] xs[k])
}

/// `x` is the token rule `r` lowered.
pub open spec fn token_rule_lowered(t: SymbolTableView, r: TokenRuleModel, x: RuleIR) -> bool {
    token_model_lowered(t, r, x@)
}

/// The token rule `r` lowers without failing, to `x`.
pub open spec fn token_model_lowered(t: SymbolTableView, r: TokenRuleModel, x: RuleIRModel) -> bool {
    block_outcome(t, r.alt_list) == Outcome::Done && rule_lowered(
        r.name,
        r.alt_list,
        name_lookup(t.tokens, r.name),
        x,
    )
}

/// The parser rule `r` lowers without failing, to `x`.
pub open spec fn named_rule_lowered(t: SymbolTableView, r: RuleModel, x: RuleIRModel) -> bool {
    block_outcome(t, r.alt_list) == Outcome::Done && rule_lowered(
        r.name,
        r.alt_list,
        name_lookup(t.rules, r.name),
        x,
    )
}

proof fn lemma_tokens_push(t: SymbolTableView, rs: Seq<TokenRuleModel>, xs: Seq<RuleIR>, j: int, x: RuleIR)
    requires
        0 <= j < rs.len(),
        xs.len() == j,
        tokens_lowered(t, rs, xs, j),
        block_outcome(t, rs[j].alt_list) == Outcome::Done,
        rule_lowered(rs[j].name, rs[j].alt_list, name_lookup(t.tokens, rs[j].name), x@),
    ensures
        tokens_lowered(t, rs, xs.push(x), j + 1),
{
    assert forall|k: int| 0 <= k < j + 1 implies token_rule_lowered(t, rs[k], #[trigger] xs.push(x)[k]) by {
        if k < j {
            assert(xs.push(x)[k] == xs[k]);
        }
    }
}

/// Every taken slot holds a rule.
pub open spec fn all_filled(a: ArenaView<RuleIR>) -> bool {
    forall|j: int| slot_taken(a.mask, j) ==> (#[trigger] a.items[j]) is Some
}

proof fn lemma_all_filled_prefix(a: ArenaView<RuleIR>, i: int)
    requires
        all_filled(a),
    ensures
        taken_prefix_filled(a, i),
    decreases a.mask.len() - i,
{
    if 0 <= i < a.mask.len() && a.mask[i] {
        assert(slot_taken(a.mask, i));
        lemma_all_filled_prefix(a, i + 1);
    }
}

/// With the slots `i..n` taken, the items from `i` on begin with theirs.
proof fn lemma_prefix_covers(a: ArenaView<RuleIR>, i: int, n: int)
    requires
        0 <= i <= n,
        forall|j: int| i <= j < n ==> #[trigger] slot_taken(a.mask, j),
    ensures
        taken_prefix(a, i).len() >= n - i,
        forall|k: int| 0 <= k < n - i ==> #[trigger] taken_prefix(a, i)[k] == a.items[i + k],
    decreases n - i,
{
    if i < n {
        assert(slot_taken(a.mask, i));
        lemma_prefix_covers(a, i + 1, n);
        let rest = taken_prefix(a, i + 1);
        assert(taken_prefix(a, i) == seq![a.items[i]] + rest);
        assert forall|k: int| 0 <= k < n - i implies #[trigger] taken_prefix(a, i)[k] == a.items[i + k] by {
            if k > 0 {
                assert(taken_prefix(a, i)[k] == rest[k - 1]);
            }
        }
    }
}

/// A lowered rule keeps each alternative at its position, in the rule, with
/// its label, its channel and as many elements.
pub proof fn law_lowering_keeps_alternatives(t: SymbolTableView, alt_list: AltListModel, x: RuleIRModel, arena: ArenaView<RuleIR>, base: Seq<bool>)
    requires
        alts_lowered(t, alt_list.alts, x.alts, x.id, arena, base),
    ensures
        forall|j: int|
            0 <= j < x.alts.len() ==> {
                &&& (#[trigger] x.alts[j]).index == j
                &&& x.alts[j].parent_rule == Some(x.id)
                &&& x.alts[j].label == alt_list.alts[j].label
                &&& x.alts[j].channel == alt_list.alts[j].channel
                &&& x.alts[j].elements.len() == alt_list.alts[j].elements.len()
            },
{
    assert forall|j: int| 0 <= j < x.alts.len() implies {
        &&& (#[trigger] x.alts[j]).index == j
        &&& x.alts[j].parent_rule == Some(x.id)
        &&& x.alts[j].label == alt_list.alts[j].label
        &&& x.alts[j].channel == alt_list.alts[j].channel
        &&& x.alts[j].elements.len() == alt_list.alts[j].elements.len()
    } by {
        assert(alt_lowered(t, alt_list.alts[j], x.alts[j], arena, base));
    }
}

impl AntlrIR {
    /// Lowers a grammar with its symbol table: each parser rule at its own
    /// position, after them the anonymous rules made from blocks, and the token
    /// rules in order. The first rule whose lowering fails gives its message.
    pub fn from_ast(ast: &ANTLRAst, table: SymbolTable) -> (r: Result<AntlrIR, String>)
        requires
            ast_lowerable(table@, ast@),
        ensures
            match r {
                Ok(ir) => grammar_lowered(table@, ast@, ir@),
                Err(m) => grammar_fails(table@, ast@, m@),
            },
    {
        let ghost t = table@;
        let ghost a = ast@;
        let ghost rc = t.rules.len();
        let rules_src = ast.rules();
        let n = rules_src.len();
        let ghost top: nat = if n > rc { n as nat } else { rc };
        let mut arena: Arena<RuleIR> = Arena::new();
        arena.reserve(n);
        assert(arena@.mask.len() == n);
        assert forall|j: int| slot_taken(arena@.mask, j) implies (#[trigger] arena@.items[j]) is Some by {
            assert(arena@.mask[j] == false);
        }
        let mut i: usize = 0;
        while i < n
            invariant
                t == table@,
                a == ast@,
                rc == t.rules.len(),
                ast_lowerable(t, a),
                rules_src@.map_values(|x: Rule| x@) == a.rules,
                n == a.rules.len(),
                top == (if n > rc { n as nat } else { rc }),
                i <= n,
                arena_wf(arena@),
                arena@.capacity == arena@.mask.len(),
                n <= arena@.mask.len() <= top + rules_blocks(a.rules, i as int),
                all_filled(arena@),
                forall|k: int|
                    0 <= k < i ==> #[trigger] slot_taken(arena@.mask, k) && named_rule_lowered(
                        t,
                        a.rules[k],
                        arena@.items[k]->Some_0@,
                    ),
            decreases n - i,
        {
            assert(rules_src@[i as int]@ == a.rules[i as int]);
            proof {
                lemma_rules_blocks_mono(a.rules, i + 1, n as int);
            }
            let ghost before = arena@;
            let lowered = match RuleIR::new(&rules_src[i], &table, &mut arena) {
                Ok(x) => x,
                Err(m) => {
                    return Err(m);
                },
            };
            proof {
                law_lowering_keeps_alternatives(t, a.rules[i as int].alt_list, lowered@, arena@, before.mask);
                assert forall|j: int| slot_taken(arena@.mask, j) implies (#[trigger] arena@.items[j]) is Some by {
                    if slot_taken(before.mask, j) {
                        assert(arena@.items[j] == before.items[j]);
                    }
                }
            }
            let ghost mid = arena@;
            let ghost lv = lowered@;
            assert(i < mid.items.len());
            arena.set(i, lowered);
            proof {
                assert(arena@.items[i as int] == Some(lowered));
                assert(arena@.items[i as int]->Some_0@ == lv);
                assert(rule_lowered(
                    a.rules[i as int].name,
                    a.rules[i as int].alt_list,
                    name_lookup(t.rules, a.rules[i as int].name),
                    lv,
                ));
                assert forall|k: int| 0 <= k < i + 1 implies #[trigger] slot_taken(arena@.mask, k) && named_rule_lowered(
                    t,
                    a.rules[k],
                    arena@.items[k]->Some_0@,
                ) by {
                    if k < i {
                        assert(slot_taken(before.mask, k));
                        assert(slot_taken(mid.mask, k));
                        assert(mid.items[k] == before.items[k]);
                        assert(arena@.items[k] == mid.items[k]);
                    } else {
                        assert(k == i);
                    }
                }
                assert forall|j: int| slot_taken(arena@.mask, j) implies (#[trigger] arena@.items[j]) is Some by {
                    if j != i {
                        assert(slot_taken(mid.mask, j));
                    }
                }
            }
            i += 1;
        }
        let token_src = ast.token_rules();
        let m = token_src.len();
        let mut token_rules: Vec<RuleIR> = Vec::new();
        let mut j: usize = 0;
        proof {
            lemma_rules_blocks_mono(a.rules, n as int, n as int);
        }
        while j < m
            invariant
                t == table@,
                a == ast@,
                rc == t.rules.len(),
                ast_lowerable(t, a),
                token_src@.map_values(|x: TokenRule| x@) == a.token_rules,
                n == a.rules.len(),
                m == a.token_rules.len(),
                top == (if n > rc { n as nat } else { rc }),
                j <= m,
                arena_wf(arena@),
                arena@.capacity == arena@.mask.len(),
                n <= arena@.mask.len() <= top + rules_blocks(a.rules, n as int) + token_rules_blocks(a.token_rules, j as int),
                all_filled(arena@),
                forall|k: int|
                    0 <= k < n ==> #[trigger] slot_taken(arena@.mask, k) && named_rule_lowered(
                        t,
                        a.rules[k],
                        arena@.items[k]->Some_0@,
                    ),
                token_rules@.len() == j,
                tokens_lowered(t, a.token_rules, token_rules@, j as int),
            decreases m - j,
        {
            assert(token_src@[j as int]@ == a.token_rules[j as int]);
            proof {
                lemma_token_rules_blocks_mono(a.token_rules, j + 1, m as int);
            }
            let ghost before = arena@;
            let lowered = match RuleIR::new_tokenrule(&token_src[j], &table, &mut arena) {
                Ok(x) => x,
                Err(e) => {
                    return Err(e);
                },
            };
            proof {
                law_lowering_keeps_alternatives(t, a.token_rules[j as int].alt_list, lowered@, arena@, before.mask);
                assert forall|q: int| slot_taken(arena@.mask, q) implies (#[trigger] arena@.items[q]) is Some by {
                    if slot_taken(before.mask, q) {
                        assert(arena@.items[q] == before.items[q]);
                    }
                }
                assert forall|k: int| 0 <= k < n implies #[trigger] slot_taken(arena@.mask, k) && named_rule_lowered(
                    t,
                    a.rules[k],
                    arena@.items[k]->Some_0@,
                ) by {
                    assert(slot_taken(before.mask, k));
                    assert(slot_taken(arena@.mask, k));
                    assert(arena@.items[k] == before.items[k]);
                }
                assert(token_rules_blocks(a.token_rules, j + 1) == token_rules_blocks(a.token_rules, j as int)
                    + alts_blocks(a.token_rules[j as int].alt_list.alts));
                assert(rc <= top);
            }
            let ghost tb = token_rules@;
            let ghost lv = lowered@;
            assert(rule_lowered(
                a.token_rules[j as int].name,
                a.token_rules[j as int].alt_list,
                name_lookup(t.tokens, a.token_rules[j as int].name),
                lv,
            ));
            proof {
                lemma_tokens_push(t, a.token_rules, tb, j as int, lowered);
            }
            token_rules.push(lowered);
            j += 1;
        }
        let ghost fin = arena@;
        proof {
            lemma_all_filled_prefix(fin, 0);
            assert forall|q: int| 0 <= q < n implies #[trigger] slot_taken(fin.mask, q) by {}
            lemma_prefix_covers(fin, 0, n as int);
        }
        let rules = arena.finalize();
        let ir = AntlrIR::from_parts(rules, token_rules, table);
        proof {
            let items = taken_prefix(fin, 0);
            assert forall|k: int| 0 <= k < n implies #[trigger] ir@.rules[k] == fin.items[k]->Some_0@ by {
                assert(items[k] == fin.items[0 + k]);
                assert(rules@[k] == items[k]->Some_0);
                assert(ir@.rules[k] == rules@[k]@);
            }
            assert forall|k: int| 0 <= k < m implies token_model_lowered(t, a.token_rules[k], #[trigger] ir@.token_rules[k]) by {
                assert(ir@.token_rules[k] == token_rules@[k]@);
                assert(token_rule_lowered(t, a.token_rules[k], token_rules@[k]));
            }
            assert forall|k: int| 0 <= k < n implies named_rule_lowered(t, a.rules[k], #[trigger] ir@.rules[k]) by {
                assert(ir@.rules[k] == fin.items[k]->Some_0@);
                assert(slot_taken(fin.mask, k));
            }
        }
        Ok(ir)
    }
}

/// The names of a grammar's parser rules, in order.
pub open spec fn rule_names(a: AstModel) -> Seq<Seq<char>> {
    a.rules.map_values(|r: RuleModel| r.name)
}

/// The names of a grammar's token rules, in order.
pub open spec fn token_names(a: AstModel) -> Seq<Seq<char>> {
    a.token_rules.map_values(|r: TokenRuleModel| r.name)
}

/// Each name with its position as its id.
pub open spec fn positional(names: Seq<Seq<char>>) -> Seq<(Seq<char>, usize)> {
    Seq::new(names.len(), |k: int| (names[k], k as usize))
}

/// The first name of `names` that is already in `seen` or earlier in `names`.
pub open spec fn first_repeat(seen: Seq<Seq<char>>, names: Seq<Seq<char>>) -> Option<Seq<char>>
    decreases names.len(),
{
    if names.len() == 0 {
        None
    } else if seen.contains(names[0]) {
        Some(names[0])
    } else {
        first_repeat(seen.push(names[0]), names.drop_first())
    }
}

/// The first name that a grammar defines twice: among its parser rules, or
/// else among its token rules, where the end-of-file token counts as defined.
pub open spec fn redefined_name(a: AstModel) -> Option<Seq<char>> {
    match first_repeat(Seq::empty(), rule_names(a)) {
        Some(n) => Some(n),
        None => first_repeat(seq!["EOF"@], token_names(a)),
    }
}

/// The table of a grammar with each parser rule and each token rule recorded
/// under its position.
pub open spec fn named_table(a: AstModel) -> SymbolTableView {
    SymbolTableView {
        rules: positional(rule_names(a)),
        tokens: table_of(a).tokens + positional(token_names(a)),
        strlits: table_of(a).strlits,
    }
}

/// `ir` is `a` lowered against `t`: each parser rule at its position, each
/// token rule in order, with the table kept.
pub open spec fn grammar_lowered(t: SymbolTableView, a: AstModel, ir: crate::ir::AntlrIRModel) -> bool {
    &&& ir.symbols == t
    &&& ir.rules.len() >= a.rules.len()
    &&& forall|i: int|
        0 <= i < a.rules.len() ==> named_rule_lowered(t, a.rules[i], #[trigger] ir.rules[i])
    &&& ir.token_rules.len() == a.token_rules.len()
    &&& forall|i: int|
        0 <= i < a.token_rules.len() ==> token_model_lowered(t, a.token_rules[i], #[trigger] ir.token_rules[i])
}

/// Lowering some rule of `a` against `t` fails with `m`.
pub open spec fn grammar_fails(t: SymbolTableView, a: AstModel, m: Seq<char>) -> bool {
    (exists|i: int|
        0 <= i < a.rules.len() && block_outcome(t, (#[trigger] a.rules[i]).alt_list) == Outcome::Fails(m))
        || (exists|i: int|
        0 <= i < a.token_rules.len() && block_outcome(t, (#[trigger] a.token_rules[i]).alt_list)
            == Outcome::Fails(m))
}

proof fn lemma_lookup_names(s: Seq<(Seq<char>, usize)>, n: Seq<char>)
    ensures
        name_lookup(s, n) is Some <==> s.map_values(|e: (Seq<char>, usize)| e.0).contains(n),
{
    crate::symbols::lemma_lookup_some(s, n);
    let f = s.map_values(|e: (Seq<char>, usize)| e.0);
    if f.contains(n) {
        let k = choose|k: int| 0 <= k < f.len() && f[k] == n;
        assert(s[k].0 == n);
    }
    if name_lookup(s, n) is Some {
        let k = choose|k: int| 0 <= k < s.len() && s[k].0 == n;
        assert(f[k] == n);
    }
}

proof fn lemma_positional_names(pre: Seq<(Seq<char>, usize)>, names: Seq<Seq<char>>)
    ensures
        (pre + positional(names)).map_values(|e: (Seq<char>, usize)| e.0)
            == pre.map_values(|e: (Seq<char>, usize)| e.0) + names,
{
    assert((pre + positional(names)).map_values(|e: (Seq<char>, usize)| e.0)
        =~= pre.map_values(|e: (Seq<char>, usize)| e.0) + names);
}

/// One step of `first_repeat` along `names`, from position `i`.
proof fn lemma_first_repeat_step(seen: Seq<Seq<char>>, names: Seq<Seq<char>>, i: int)
    requires
        0 <= i < names.len(),
    ensures
        first_repeat(seen + names.take(i), names.skip(i)) == if (seen + names.take(i)).contains(
            names[i],
        ) {
            Some(names[i])
        } else {
            first_repeat(seen + names.take(i + 1), names.skip(i + 1))
        },
{
    assert(names.skip(i)[0] == names[i]);
    assert(names.skip(i).drop_first() =~= names.skip(i + 1));
    assert((seen + names.take(i)).push(names[i]) =~= seen + names.take(i + 1));
}

/// The table of a grammar holds no rule names and only the end-of-file token.
proof fn lemma_table_of_names(a: AstModel)
    ensures
        table_of(a).rules.len() == 0,
        table_of(a).tokens == seq![("EOF"@, usize::MAX)],
        table_of(a).tokens.map_values(|e: (Seq<char>, usize)| e.0) == seq!["EOF"@],
{
    crate::symbols::lemma_strlits_inserted_bounds(crate::symbols::empty_table(), ast_strlits(a));
    assert(table_of(a).tokens =~= seq![("EOF"@, usize::MAX)]);
    assert(table_of(a).tokens.map_values(|e: (Seq<char>, usize)| e.0) =~= seq!["EOF"@]);
}

/// A grammar can be lowered against its table with the rules named by
/// position, as long as its rules and blocks fit in the machine's indices.
proof fn lemma_named_table_lowerable(a: AstModel)
    requires
        a.rules.len() + rules_blocks(a.rules, a.rules.len() as int) + token_rules_blocks(
            a.token_rules,
            a.token_rules.len() as int,
        ) < usize::MAX,
    ensures
        ast_lowerable(named_table(a), a),
{
    let t = named_table(a);
    lemma_table_of_names(a);
    lemma_positional_names(Seq::empty(), rule_names(a));
    assert(Seq::<(Seq<char>, usize)>::empty() + positional(rule_names(a)) =~= positional(rule_names(a)));
    assert(Seq::<(Seq<char>, usize)>::empty().map_values(|e: (Seq<char>, usize)| e.0) + rule_names(a)
        =~= rule_names(a));
    lemma_positional_names(table_of(a).tokens, token_names(a));
    assert forall|i: int| 0 <= i < a.rules.len() implies ((#[trigger] a.rules[i]).alt_list.alts.len()
        > 0 ==> name_lookup(t.rules, a.rules[i].name) is Some) && block_outcome(
        t,
        a.rules[i].alt_list,
    ) != Outcome::Stops by {
        lemma_lookup_names(t.rules, a.rules[i].name);
        assert(rule_names(a)[i] == a.rules[i].name);
        law_rule_lowering_never_stops(a, t, i);
    }
    assert forall|i: int| 0 <= i < a.token_rules.len() implies ((
    #[trigger] a.token_rules[i]).alt_list.alts.len() > 0 ==> name_lookup(
        t.tokens,
        a.token_rules[i].name,
    ) is Some) && block_outcome(t, a.token_rules[i].alt_list) != Outcome::Stops by {
        lemma_lookup_names(t.tokens, a.token_rules[i].name);
        assert((seq!["EOF"@] + token_names(a))[i + 1] == a.token_rules[i].name);
        law_token_rule_lowering_never_stops(a, t, i);
    }
}

impl AntlrIR {
    /// Lowers a grammar: builds its table, records each parser rule and each
    /// token rule under its position, and lowers it against that table. A name
    /// defined twice is refused with "Redefinition of " and the name.
    pub fn new(ast: &ANTLRAst) -> (r: Result<AntlrIR, String>)
        requires
            ast_strlits(ast@).len() < usize::MAX,
            ast@.rules.len() + rules_blocks(ast@.rules, ast@.rules.len() as int) + token_rules_blocks(
                ast@.token_rules,
                ast@.token_rules.len() as int,
            ) < usize::MAX,
        ensures
            match redefined_name(ast@) {
                Some(n) => r matches Err(m) && m@ == "Redefinition of "@ + n,
                None => match r {
                    Ok(ir) => grammar_lowered(named_table(ast@), ast@, ir@),
                    Err(m) => grammar_fails(named_table(ast@), ast@, m@),
                },
            },
    {
        let ghost a = ast@;
        let mut table = SymbolTable::new(ast);
        proof {
            lemma_table_of_names(a);
        }
        let rules = ast.rules();
        let ghost names = rule_names(a);
        let mut i: usize = 0;
        assert(Seq::<Seq<char>>::empty() + names.take(0) =~= Seq::<Seq<char>>::empty());
        assert(names.skip(0) =~= names);
        assert(positional(names.take(0)) =~= Seq::<(Seq<char>, usize)>::empty());
        while i < rules.len()
            invariant
                a == ast@,
                names == rule_names(a),
                rules@.map_values(|x: Rule| x@) == a.rules,
                i <= rules.len(),
                crate::symbols::table_wf(table@),
                table@.strlits == table_of(a).strlits,
                table@.tokens == table_of(a).tokens,
                table@.rules == positional(names.take(i as int)),
                first_repeat(Seq::empty(), names) == first_repeat(
                    Seq::<Seq<char>>::empty() + names.take(i as int),
                    names.skip(i as int),
                ),
            decreases rules.len() - i,
        {
            assert(rules@[i as int]@ == a.rules[i as int]);
            assert(names[i as int] == a.rules[i as int].name);
            proof {
                lemma_first_repeat_step(Seq::empty(), names, i as int);
                lemma_lookup_names(table@.rules, names[i as int]);
                lemma_positional_names(Seq::empty(), names.take(i as int));
                assert(Seq::<(Seq<char>, usize)>::empty() + positional(names.take(i as int))
                    =~= positional(names.take(i as int)));
                assert(Seq::<(Seq<char>, usize)>::empty().map_values(|e: (Seq<char>, usize)| e.0)
                    + names.take(i as int) =~= Seq::<Seq<char>>::empty() + names.take(i as int));
            }
            let name = rules[i].name().clone();
            match table.insert_rule(name, i) {
                Ok(()) => {},
                Err(_) => {
                    let m = String::from_str("Redefinition of ").concat(rules[i].name().as_str());
                    return Err(m);
                },
            }
            assert(positional(names.take(i + 1)) =~= positional(names.take(i as int)).push(
                (names[i as int], i),
            ));
            i += 1;
        }
        assert(names.take(rules.len() as int) =~= names);
        assert(names.skip(rules.len() as int) =~= Seq::<Seq<char>>::empty());
        let token_rules = ast.token_rules();
        let ghost tnames = token_names(a);
        let ghost eof = seq!["EOF"@];
        let mut j: usize = 0;
        assert(eof + tnames.take(0) =~= eof);
        assert(tnames.skip(0) =~= tnames);
        assert(table_of(a).tokens + positional(tnames.take(0)) =~= table_of(a).tokens);
        while j < token_rules.len()
            invariant
                a == ast@,
                tnames == token_names(a),
                eof == seq!["EOF"@],
                table_of(a).tokens.map_values(|e: (Seq<char>, usize)| e.0) == eof,
                token_rules@.map_values(|x: TokenRule| x@) == a.token_rules,
                j <= token_rules.len(),
                first_repeat(Seq::empty(), rule_names(a)) is None,
                crate::symbols::table_wf(table@),
                table@.strlits == table_of(a).strlits,
                table@.rules == positional(rule_names(a)),
                table@.tokens == table_of(a).tokens + positional(tnames.take(j as int)),
                first_repeat(eof, tnames) == first_repeat(eof + tnames.take(j as int), tnames.skip(j as int)),
            decreases token_rules.len() - j,
        {
            assert(token_rules@[j as int]@ == a.token_rules[j as int]);
            assert(tnames[j as int] == a.token_rules[j as int].name);
            proof {
                lemma_first_repeat_step(eof, tnames, j as int);
                lemma_lookup_names(table@.tokens, tnames[j as int]);
                lemma_positional_names(table_of(a).tokens, tnames.take(j as int));
            }
            let name = token_rules[j].name().clone();
            match table.insert_token_rule(name, j) {
                Ok(()) => {},
                Err(_) => {
                    let m = String::from_str("Redefinition of ").concat(token_rules[j].name().as_str());
                    return Err(m);
                },
            }
            assert(table_of(a).tokens + positional(tnames.take(j + 1)) =~= (table_of(a).tokens
                + positional(tnames.take(j as int))).push((tnames[j as int], j)));
            j += 1;
        }
        assert(tnames.take(token_rules.len() as int) =~= tnames);
        assert(tnames.skip(token_rules.len() as int) =~= Seq::<Seq<char>>::empty());
        assert(table@ == named_table(a));
        proof {
            lemma_named_table_lowerable(a);
        }
        AntlrIR::from_ast(ast, table)
    }
}

/// A lowered alternative keeps its label and its elements, position by
/// position, each with its suffix: a name that names a rule becomes a
/// reference to that rule's id, any other name a reference to its token's id,
/// and a string literal a reference to the literal's id.
pub proof fn law_alt_lowering_maps_elements(
    t: SymbolTableView,
    a: AltModel,
    x: AltIRModel,
    arena: ArenaView<RuleIR>,
    base: Seq<bool>,
)
    requires
        alt_lowered(t, a, x, arena, base),
    ensures
        x.label == a.label,
        x.elements.len() == a.elements.len(),
        forall|i: int|
            0 <= i < a.elements.len() ==> (#[trigger] x.elements[i]).suffix() == a.elements[i].suffix(),
        forall|i: int|
            0 <= i < a.elements.len() ==> match a.elements[i] {
                ElementModel::Atom { atom: AtomModel::ID(n), suffix } => if name_lookup(t.rules, n) is Some {
                    #[trigger] x.elements[i] == ElementIRModel::RuleAtom { id: name_lookup(t.rules, n)->Some_0, suffix }
                } else {
                    &&& name_lookup(t.tokens, n) is Some
                    &&& x.elements[i] == ElementIRModel::TokenAtom { id: name_lookup(t.tokens, n)->Some_0, suffix }
                },
                ElementModel::Atom { atom: AtomModel::StringLit(l), suffix } => {
                    &&& name_lookup(t.strlits, l) is Some
                    &&& x.elements[i] == ElementIRModel::TokenAtom { id: name_lookup(t.strlits, l)->Some_0, suffix }
                },
                _ => true,
            },
{
    assert forall|i: int| 0 <= i < a.elements.len() implies (#[trigger] x.elements[i]).suffix()
        == a.elements[i].suffix() by {
        assert(element_lowered(t, a.elements[i], x.elements[i], arena, base));
    }
    assert forall|i: int| 0 <= i < a.elements.len() implies match a.elements[i] {
        ElementModel::Atom { atom: AtomModel::ID(n), suffix } => if name_lookup(t.rules, n) is Some {
            #[trigger] x.elements[i] == ElementIRModel::RuleAtom { id: name_lookup(t.rules, n)->Some_0, suffix }
        } else {
            &&& name_lookup(t.tokens, n) is Some
            &&& x.elements[i] == ElementIRModel::TokenAtom { id: name_lookup(t.tokens, n)->Some_0, suffix }
        },
        ElementModel::Atom { atom: AtomModel::StringLit(l), suffix } => {
            &&& name_lookup(t.strlits, l) is Some
            &&& x.elements[i] == ElementIRModel::TokenAtom { id: name_lookup(t.strlits, l)->Some_0, suffix }
        },
        _ => true,
    } by {
        assert(element_lowered(t, a.elements[i], x.elements[i], arena, base));
    }
}

/// A rule that lowers has at least one alternative: one without any fails.
pub proof fn law_lowered_rule_has_alternatives(t: SymbolTableView, alt_list: AltListModel)
    requires
        block_outcome(t, alt_list) == Outcome::Done,
    ensures
        alt_list.alts.len() >= 1,
{
}

/// Every string literal of `names` has an id in `t`.
pub open spec fn all_known(t: SymbolTableView, names: Seq<Seq<char>>) -> bool {
    forall|n: Seq<char>| names.contains(n) ==> #[trigger] name_lookup(t.strlits, n) is Some
}

proof fn lemma_known_split(t: SymbolTableView, a: Seq<Seq<char>>, b: Seq<Seq<char>>)
    requires
        all_known(t, a + b),
    ensures
        all_known(t, a),
        all_known(t, b),
{
    assert forall|n: Seq<char>| a.contains(n) implies #[trigger] name_lookup(t.strlits, n) is Some by {
        let i = choose|i: int| 0 <= i < a.len() && a[i] == n;
        assert((a + b)[i] == n);
    }
    assert forall|n: Seq<char>| b.contains(n) implies #[trigger] name_lookup(t.strlits, n) is Some by {
        let i = choose|i: int| 0 <= i < b.len() && b[i] == n;
        assert((a + b)[a.len() + i] == n);
    }
}

proof fn lemma_alt_never_stops(t: SymbolTableView, a: AltModel)
    requires
        all_known(t, alt_strlits(a)),
    ensures
        alt_outcome(t, a) != Outcome::Stops,
    decreases a,
{
    lemma_elements_never_stop(t, a.elements);
}

proof fn lemma_elements_never_stop(t: SymbolTableView, es: Seq<ElementModel>)
    requires
        all_known(t, elements_strlits(es)),
    ensures
        elements_outcome(t, es) != Outcome::Stops,
    decreases es,
{
    if es.len() > 0 {
        lemma_known_split(t, elements_strlits(es.drop_last()), element_strlits(es.last()));
        lemma_elements_never_stop(t, es.drop_last());
        lemma_element_never_stops(t, es.last());
    }
}

proof fn lemma_element_never_stops(t: SymbolTableView, e: ElementModel)
    requires
        all_known(t, element_strlits(e)),
    ensures
        element_outcome(t, e) != Outcome::Stops,
    decreases e,
{
    match e {
        ElementModel::Atom { atom: AtomModel::StringLit(s), .. } => {
            assert(element_strlits(e)[0] == s);
        },
        ElementModel::Block { block, .. } => {
            if block.alts.len() > 0 {
                lemma_alts_never_stop(t, block.alts);
            }
        },
        _ => {},
    }
}

proof fn lemma_alts_never_stop(t: SymbolTableView, alts: Seq<AltModel>)
    requires
        all_known(t, alts_strlits(alts)),
    ensures
        alts_outcome(t, alts) != Outcome::Stops,
    decreases alts,
{
    if alts.len() > 0 {
        lemma_known_split(t, alts_strlits(alts.drop_last()), alt_strlits(alts.last()));
        lemma_alts_never_stop(t, alts.drop_last());
        lemma_alt_never_stops(t, alts.last());
    }
}

proof fn lemma_rules_strlits_contain(rs: Seq<crate::ast::RuleModel>, i: int, n: Seq<char>)
    requires
        0 <= i < rs.len(),
        alts_strlits(rs[i].alt_list.alts).contains(n),
    ensures
        rules_strlits(rs).contains(n),
    decreases rs.len(),
{
    let k = choose|k: int| 0 <= k < alts_strlits(rs[i].alt_list.alts).len() && alts_strlits(
        rs[i].alt_list.alts,
    )[k] == n;
    let pre = rules_strlits(rs.drop_last());
    if i == rs.len() - 1 {
        assert((pre + alts_strlits(rs.last().alt_list.alts))[pre.len() + k] == n);
    } else {
        assert(rs.drop_last()[i] == rs[i]);
        lemma_rules_strlits_contain(rs.drop_last(), i, n);
        let m = choose|m: int| 0 <= m < pre.len() && pre[m] == n;
        assert((pre + alts_strlits(rs.last().alt_list.alts))[m] == n);
    }
}

proof fn lemma_token_rules_strlits_contain(
    rs: Seq<crate::ast::TokenRuleModel>,
    i: int,
    n: Seq<char>,
)
    requires
        0 <= i < rs.len(),
        alts_strlits(rs[i].alt_list.alts).contains(n),
    ensures
        token_rules_strlits(rs).contains(n),
    decreases rs.len(),
{
    let k = choose|k: int| 0 <= k < alts_strlits(rs[i].alt_list.alts).len() && alts_strlits(
        rs[i].alt_list.alts,
    )[k] == n;
    let pre = token_rules_strlits(rs.drop_last());
    if i == rs.len() - 1 {
        assert((pre + alts_strlits(rs.last().alt_list.alts))[pre.len() + k] == n);
    } else {
        assert(rs.drop_last()[i] == rs[i]);
        lemma_token_rules_strlits_contain(rs.drop_last(), i, n);
        let m = choose|m: int| 0 <= m < pre.len() && pre[m] == n;
        assert((pre + alts_strlits(rs.last().alt_list.alts))[m] == n);
    }
}

/// Lowering a parser rule of a grammar against a table that holds the
/// grammar's own literals never stops on a string literal: the table knows
/// them all.
pub proof fn law_rule_lowering_never_stops(a: AstModel, t: SymbolTableView, i: int)
    requires
        0 <= i < a.rules.len(),
        t.strlits == table_of(a).strlits,
    ensures
        block_outcome(t, a.rules[i].alt_list) != Outcome::Stops,
{
    let alts = a.rules[i].alt_list.alts;
    assert forall|n: Seq<char>| alts_strlits(alts).contains(n) implies #[trigger] name_lookup(
        t.strlits,
        n,
    ) is Some by {
        lemma_rules_strlits_contain(a.rules, i, n);
        let k = choose|k: int| 0 <= k < rules_strlits(a.rules).len() && rules_strlits(a.rules)[k]
            == n;
        assert(ast_strlits(a)[k] == n);
        crate::symbols::law_grammar_strlits_known(a, n);
    }
    if alts.len() > 0 {
        lemma_alts_never_stop(t, alts);
    }
}

/// The same for a token rule of the grammar.
pub proof fn law_token_rule_lowering_never_stops(a: AstModel, t: SymbolTableView, i: int)
    requires
        0 <= i < a.token_rules.len(),
        t.strlits == table_of(a).strlits,
    ensures
        block_outcome(t, a.token_rules[i].alt_list) != Outcome::Stops,
{
    let alts = a.token_rules[i].alt_list.alts;
    assert forall|n: Seq<char>| alts_strlits(alts).contains(n) implies #[trigger] name_lookup(
        t.strlits,
        n,
    ) is Some by {
        lemma_token_rules_strlits_contain(a.token_rules, i, n);
        let k = choose|k: int| 0 <= k < token_rules_strlits(a.token_rules).len()
            && token_rules_strlits(a.token_rules)[k] == n;
        let pre = rules_strlits(a.rules);
        assert(ast_strlits(a)[pre.len() + k] == n);
        crate::symbols::law_grammar_strlits_known(a, n);
    }
    if alts.len() > 0 {
        lemma_alts_never_stop(t, alts);
    }
}

} // verus!
