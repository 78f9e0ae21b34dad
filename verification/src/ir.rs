use vstd::prelude::*;

use crate::ast::EBNFSuffix;
use crate::codeset::CodeSet;
use crate::symbols::{SymbolTable, SymbolTableView};
use crate::util::HashArc;

verus! {

/// An element of a lowered alternative: a reference to a parser rule or to a
/// token by id, or a set of characters.
#[derive(Debug)]
pub enum ElementIR {
    RuleAtom { id: usize, suffix: Option<EBNFSuffix> },
    TokenAtom { id: usize, suffix: Option<EBNFSuffix> },
    CharSet { inverted: bool, set: CodeSet, suffix: Option<EBNFSuffix> },
}

/// The abstract value of a lowered element.
pub enum ElementIRModel {
    RuleAtom { id: usize, suffix: Option<EBNFSuffix> },
    TokenAtom { id: usize, suffix: Option<EBNFSuffix> },
    CharSet { inverted: bool, set: Set<usize>, suffix: Option<EBNFSuffix> },
}

impl ElementIRModel {
    pub open spec fn id(self) -> Option<usize> {
        match self {
            ElementIRModel::RuleAtom { id, .. } => Some(id),
            ElementIRModel::TokenAtom { id, .. } => Some(id),
            ElementIRModel::CharSet { .. } => None,
        }
    }

    pub open spec fn suffix(self) -> Option<EBNFSuffix> {
        match self {
            ElementIRModel::RuleAtom { suffix, .. } => suffix,
            ElementIRModel::TokenAtom { suffix, .. } => suffix,
            ElementIRModel::CharSet { suffix, .. } => suffix,
        }
    }

    /// The same element with the suffix `s`.
    pub open spec fn with_suffix(self, s: Option<EBNFSuffix>) -> ElementIRModel {
        match self {
            ElementIRModel::RuleAtom { id, .. } => ElementIRModel::RuleAtom { id, suffix: s },
            ElementIRModel::TokenAtom { id, .. } => ElementIRModel::TokenAtom { id, suffix: s },
            ElementIRModel::CharSet { inverted, set, .. } => ElementIRModel::CharSet { inverted, set, suffix: s },
        }
    }
}

impl View for ElementIR {
    type V = ElementIRModel;

    open spec fn view(&self) -> ElementIRModel {
        match self {
            ElementIR::RuleAtom { id, suffix } => ElementIRModel::RuleAtom { id: *id, suffix: *suffix },
            ElementIR::TokenAtom { id, suffix } => ElementIRModel::TokenAtom {
                id: *id,
                suffix: *suffix,
            },
            ElementIR::CharSet { inverted, set, suffix } => ElementIRModel::CharSet {
                inverted: *inverted,
                set: set@,
                suffix: *suffix,
            },
        }
    }
}

impl ElementIR {
    /// The id a rule or token reference points to.
    pub fn id(&self) -> (r: Option<usize>)
        ensures
            r == self@.id(),
    {
        match self {
            ElementIR::RuleAtom { id, .. } => Some(*id),
            ElementIR::TokenAtom { id, .. } => Some(*id),
            ElementIR::CharSet { .. } => None,
        }
    }

    pub fn suffix(&self) -> (r: Option<EBNFSuffix>)
        ensures
            r == self@.suffix(),
    {
        match self {
            ElementIR::RuleAtom { suffix, .. } => *suffix,
            ElementIR::TokenAtom { suffix, .. } => *suffix,
            ElementIR::CharSet { suffix, .. } => *suffix,
        }
    }

    /// Whether the two elements are equal.
    pub fn same(&self, other: &ElementIR) -> (b: bool)
        ensures
            b == (self@ == other@),
    {
        match (self, other) {
            (
                ElementIR::RuleAtom { id, suffix },
                ElementIR::RuleAtom { id: id2, suffix: suffix2 },
            ) => *id == *id2 && same_suffix(*suffix, *suffix2),
            (
                ElementIR::TokenAtom { id, suffix },
                ElementIR::TokenAtom { id: id2, suffix: suffix2 },
            ) => *id == *id2 && same_suffix(*suffix, *suffix2),
            (
                ElementIR::CharSet { inverted, set, suffix },
                ElementIR::CharSet { inverted: inverted2, set: set2, suffix: suffix2 },
            ) => *inverted == *inverted2 && same_suffix(*suffix, *suffix2) && set.same(set2),
            _ => false,
        }
    }

    /// An equal element.
    pub fn duplicate(&self) -> (e: ElementIR)
        ensures
            e@ == self@,
    {
        match self {
            ElementIR::RuleAtom { id, suffix } => ElementIR::RuleAtom { id: *id, suffix: *suffix },
            ElementIR::TokenAtom { id, suffix } => ElementIR::TokenAtom { id: *id, suffix: *suffix },
            ElementIR::CharSet { inverted, set, suffix } => ElementIR::CharSet {
                inverted: *inverted,
                set: set.duplicate(),
                suffix: *suffix,
            },
        }
    }
}

fn same_suffix(a: Option<EBNFSuffix>, b: Option<EBNFSuffix>) -> (r: bool)
    ensures
        r == (a == b),
{
    match (a, b) {
        (None, None) => true,
        (Some(x), Some(y)) => x == y,
        _ => false,
    }
}

/// The views of a list of lowered elements.
pub open spec fn elements_ir_view(v: Seq<ElementIR>) -> Seq<ElementIRModel> {
    v.map_values(|e: ElementIR| e@)
}

/// A lowered alternative: its position in its rule, the rule it belongs to, its
/// label, its elements and its channel.
#[derive(Debug)]
pub struct AltIR {
    index: usize,
    parent_rule: Option<usize>,
    label: Option<String>,
    elements: Vec<ElementIR>,
    channel: Option<String>,
}

/// The abstract value of a lowered alternative.
pub struct AltIRModel {
    pub index: usize,
    pub parent_rule: Option<usize>,
    pub label: Option<Seq<char>>,
    pub elements: Seq<ElementIRModel>,
    pub channel: Option<Seq<char>>,
}

pub open spec fn opt_view(o: Option<String>) -> Option<Seq<char>> {
    match o {
        Some(s) => Some(s@),
        None => None,
    }
}

impl View for AltIR {
    type V = AltIRModel;

    closed spec fn view(&self) -> AltIRModel {
        AltIRModel {
            index: self.index,
            parent_rule: self.parent_rule,
            label: opt_view(self.label),
            elements: elements_ir_view(self.elements@),
            channel: opt_view(self.channel),
        }
    }
}

impl AltIR {
    /// An alternative at the first position of no particular rule.
    pub fn new(label: Option<String>, elements: Vec<ElementIR>, channel: Option<String>) -> (a: AltIR)
        ensures
            a@ == (AltIRModel {
                index: 0,
                parent_rule: None,
                label: opt_view(label),
                elements: elements_ir_view(elements@),
                channel: opt_view(channel),
            }),
    {
        AltIR { index: 0, parent_rule: None, label, elements, channel }
    }

    /// An alternative with every part given.
    pub fn with_parts(
        index: usize,
        parent_rule: Option<usize>,
        label: Option<String>,
        elements: Vec<ElementIR>,
        channel: Option<String>,
    ) -> (a: AltIR)
        ensures
            a@ == (AltIRModel {
                index,
                parent_rule,
                label: opt_view(label),
                elements: elements_ir_view(elements@),
                channel: opt_view(channel),
            }),
    {
        AltIR { index, parent_rule, label, elements, channel }
    }

    pub fn label(&self) -> (l: Option<&String>)
        ensures
            match l {
                Some(s) => self@.label == Some(s@),
                None => self@.label is None,
            },
    {
        self.label.as_ref()
    }

    pub fn elements(&self) -> (e: &Vec<ElementIR>)
        ensures
            elements_ir_view(e@) == self@.elements,
    {
        &self.elements
    }

    pub fn channel(&self) -> (c: Option<&String>)
        ensures
            match c {
                Some(s) => self@.channel == Some(s@),
                None => self@.channel is None,
            },
    {
        self.channel.as_ref()
    }

    /// The position of the alternative in its rule.
    pub fn index(&self) -> (i: usize)
        ensures
            i == self@.index,
    {
        self.index
    }

    /// The rule the alternative belongs to.
    pub fn parent(&self) -> (p: Option<usize>)
        ensures
            p == self@.parent_rule,
    {
        self.parent_rule
    }
}

/// A lowered parser rule, or an anonymous rule made from a block.
#[derive(Debug)]
pub struct RuleIR {
    id: usize,
    is_block: bool,
    name: String,
    optional: bool,
    alts: Vec<HashArc<AltIR>>,
}

/// The abstract value of a lowered rule.
pub struct RuleIRModel {
    pub id: usize,
    pub is_block: bool,
    pub name: Seq<char>,
    pub optional: bool,
    pub alts: Seq<AltIRModel>,
}

/// The views of a list of shared lowered alternatives.
pub open spec fn alts_ir_view(v: Seq<HashArc<AltIR>>) -> Seq<AltIRModel> {
    v.map_values(|a: HashArc<AltIR>| a@@)
}

impl View for RuleIR {
    type V = RuleIRModel;

    closed spec fn view(&self) -> RuleIRModel {
        RuleIRModel {
            id: self.id,
            is_block: self.is_block,
            name: self.name@,
            optional: self.optional,
            alts: alts_ir_view(self.alts@),
        }
    }
}

impl RuleIR {
    pub fn with_parts(
        id: usize,
        is_block: bool,
        name: String,
        optional: bool,
        alts: Vec<HashArc<AltIR>>,
    ) -> (r: RuleIR)
        ensures
            r@ == (RuleIRModel { id, is_block, name: name@, optional, alts: alts_ir_view(alts@) }),
    {
        RuleIR { id, is_block, name, optional, alts }
    }

    pub fn name(&self) -> (n: &String)
        ensures
            n@ == self@.name,
    {
        &self.name
    }

    pub fn alts(&self) -> (a: &Vec<HashArc<AltIR>>)
        ensures
            alts_ir_view(a@) == self@.alts,
    {
        &self.alts
    }

    pub fn alts_mut(&mut self) -> (a: &mut Vec<HashArc<AltIR>>)
        ensures
            alts_ir_view(a@) == old(self)@.alts,
            alts_ir_view(final(a)@) == final(self)@.alts,
            final(self)@.id == old(self)@.id,
            final(self)@.is_block == old(self)@.is_block,
            final(self)@.name == old(self)@.name,
            final(self)@.optional == old(self)@.optional,
    {
        &mut self.alts
    }

    pub fn id(&self) -> (i: usize)
        ensures
            i == self@.id,
    {
        self.id
    }

    pub fn is_block(&self) -> (b: bool)
        ensures
            b == self@.is_block,
    {
        self.is_block
    }

    pub fn optional(&self) -> (b: bool)
        ensures
            b == self@.optional,
    {
        self.optional
    }
}

/// A lowered token rule.
#[derive(Debug)]
pub struct TokenRuleIR {
    is_fragment: bool,
    name: String,
    is_optional: bool,
    alts: Vec<AltIR>,
}

impl TokenRuleIR {
    pub fn new(is_fragment: bool, name: String, is_optional: bool, alts: Vec<AltIR>) -> (r: TokenRuleIR)
        ensures
            r.spec_is_fragment() == is_fragment,
            r.spec_name() == name@,
            r.spec_is_optional() == is_optional,
            r.spec_alts() == alts@.map_values(|a: AltIR| a@),
    {
        TokenRuleIR { is_fragment, name, is_optional, alts }
    }

    pub closed spec fn spec_is_fragment(&self) -> bool {
        self.is_fragment
    }

    pub closed spec fn spec_name(&self) -> Seq<char> {
        self.name@
    }

    pub closed spec fn spec_is_optional(&self) -> bool {
        self.is_optional
    }

    pub closed spec fn spec_alts(&self) -> Seq<AltIRModel> {
        self.alts@.map_values(|a: AltIR| a@)
    }

    pub fn name(&self) -> (n: &String)
        ensures
            n@ == self.spec_name(),
    {
        &self.name
    }

    pub fn alts(&self) -> (a: &Vec<AltIR>)
        ensures
            a@.map_values(|x: AltIR| x@) == self.spec_alts(),
    {
        &self.alts
    }
}

/// A block of alternatives inside an alternative.
#[derive(Debug)]
pub struct BlockIR(pub Vec<AltIR>);

/// A reference to a token or to a rule, by id.
#[derive(Debug, Clone, Copy, PartialEq, Eq, Structural)]
pub enum AtomIR {
    TokenID(usize),
    RuleID(usize),
}

/// Compares two lookahead elements; the comparison has no result and no effect.
pub fn matches(e: ElementIR, with: ElementIR) {
}

/// A lookahead tree: for each element that can come next, what follows it.
#[derive(Debug)]
pub struct LookAhead {
    pub tree: Vec<(ElementIR, LookAheadNode)>,
}

#[derive(Debug)]
pub enum LookAheadNode {
    Continues(LookAhead),
    Terminal {
        alt: usize,  // The alt to pick
        continue_from: usize,  // The element that needs to next be matched
    },
}

/// The views of a list of lowered rules.
pub open spec fn rules_ir_view(v: Seq<RuleIR>) -> Seq<RuleIRModel> {
    v.map_values(|r: RuleIR| r@)
}

/// A lowered grammar: its parser rules (named ones first, then the anonymous
/// rules made from blocks), its token rules and its symbol table.
#[derive(Debug)]
pub struct AntlrIR {
    rules: Vec<RuleIR>,
    token_rules: Vec<RuleIR>,
    symbol_table: SymbolTable,
}

/// The abstract value of a lowered grammar.
pub struct AntlrIRModel {
    pub rules: Seq<RuleIRModel>,
    pub token_rules: Seq<RuleIRModel>,
    pub symbols: SymbolTableView,
}

impl View for AntlrIR {
    type V = AntlrIRModel;

    closed spec fn view(&self) -> AntlrIRModel {
        AntlrIRModel {
            rules: rules_ir_view(self.rules@),
            token_rules: rules_ir_view(self.token_rules@),
            symbols: self.symbol_table@,
        }
    }
}

impl AntlrIR {
    pub fn from_parts(rules: Vec<RuleIR>, token_rules: Vec<RuleIR>, symbol_table: SymbolTable) -> (ir:
        AntlrIR)
        ensures
            ir@ == (AntlrIRModel {
                rules: rules_ir_view(rules@),
                token_rules: rules_ir_view(token_rules@),
                symbols: symbol_table@,
            }),
    {
        AntlrIR { rules, token_rules, symbol_table }
    }

    pub fn rules(&self) -> (r: &Vec<RuleIR>)
        ensures
            rules_ir_view(r@) == self@.rules,
    {
        &self.rules
    }

    /// The rule with the given id, if there is one.
    pub fn get_rule(&self, rule: usize) -> (r: Option<&RuleIR>)
        ensures
            match r {
                Some(x) => rule < self@.rules.len() && x@ == self@.rules[rule as int],
                None => rule >= self@.rules.len(),
            },
    {
        if rule < self.rules.len() {
            Some(&self.rules[rule])
        } else {
            None
        }
    }

    /// The alternative `alt` of the rule with id `rule`, if both exist.
    pub fn get_alt(&self, rule: usize, alt: usize) -> (r: Option<HashArc<AltIR>>)
        ensures
            match r {
                Some(x) => rule < self@.rules.len() && alt < self@.rules[rule as int].alts.len()
                    && x@@ == self@.rules[rule as int].alts[alt as int],
                None => rule >= self@.rules.len() || alt >= self@.rules[rule as int].alts.len(),
            },
    {
        if rule < self.rules.len() {
            let alts = self.rules[rule].alts();
            if alt < alts.len() {
                return Some(alts[alt].share());
            }
        }
        None
    }

    /// The alternative `alt` of the rule with id `rule`, if both exist.
    pub fn get_rule_alt(&self, rule: usize, alt: usize) -> (r: Option<HashArc<AltIR>>)
        ensures
            match r {
                Some(x) => rule < self@.rules.len() && alt < self@.rules[rule as int].alts.len()
                    && x@@ == self@.rules[rule as int].alts[alt as int],
                None => rule >= self@.rules.len() || alt >= self@.rules[rule as int].alts.len(),
            },
    {
        if rule < self.rules.len() {
            let alts = self.rules[rule].alts();
            if alt < alts.len() {
                return Some(alts[alt].share());
            }
        }
        None
    }

    pub fn token_rules(&self) -> (r: &Vec<RuleIR>)
        ensures
            rules_ir_view(r@) == self@.token_rules,
    {
        &self.token_rules
    }

    pub fn symbols(&self) -> (t: &SymbolTable)
        ensures
            t@ == self@.symbols,
    {
        &self.symbol_table
    }
}

/// A decision tree for parsing a rule: look at the next token and go by its
/// type, match one element and go on, or finish an alternative.
#[derive(Debug)]
pub enum MatchNode {
    Peek { peek: Vec<(usize, MatchNode)>, fallback: Option<Box<MatchNode>> },
    Element { alt: HashArc<AltIR>, element_idx: usize, element: ElementIR, next: Box<MatchNode> },
    Finish { alt: HashArc<AltIR> },
}

/// The abstract value of a decision tree.
pub enum MatchNodeModel {
    Peek { peek: Seq<(usize, MatchNodeModel)>, fallback: Option<Box<MatchNodeModel>> },
    Element {
        alt: AltIRModel,
        element_idx: usize,
        element: ElementIRModel,
        next: Box<MatchNodeModel>,
    },
    Finish { alt: AltIRModel },
}

impl MatchNode {
    pub open spec fn model(&self) -> MatchNodeModel
        decreases self,
    {
        match self {
            MatchNode::Peek { peek, fallback } => MatchNodeModel::Peek {
                peek: Seq::new(
                    peek@.len(),
                    |i: int|
                        if 0 <= i < peek@.len() {
                            (peek@[i].0, peek@[i].1.model())
                        } else {
                            arbitrary()
                        },
                ),
                fallback: match fallback {
                    Some(b) => Some(Box::new(b.model())),
                    None => None,
                },
            },
            MatchNode::Element { alt, element_idx, element, next } => MatchNodeModel::Element {
                alt: alt@@,
                element_idx: *element_idx,
                element: element@,
                next: Box::new(next.model()),
            },
            MatchNode::Finish { alt } => MatchNodeModel::Finish { alt: alt@@ },
        }
    }
}

impl View for MatchNode {
    type V = MatchNodeModel;

    open spec fn view(&self) -> MatchNodeModel {
        self.model()
    }
}

/// The views of the entries of a look-ahead table.
pub open spec fn peek_view(peek: Seq<(usize, MatchNode)>) -> Seq<(usize, MatchNodeModel)> {
    peek.map_values(|e: (usize, MatchNode)| (e.0, e.1@))
}

} // verus!
