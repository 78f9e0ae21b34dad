use std::marker::PhantomData;

use vstd::prelude::*;

use crate::codeset::CodeSet;

verus! {

/// The repetition written after an element.
#[derive(Clone, Copy, Debug, PartialEq, Eq, Hash, Structural)]
pub enum EBNFSuffix {
    Optional,
    Star,
    // StarOptional, just star
    Plus,
    // PlusOptional, just plus
}

impl View for EBNFSuffix {
    type V = EBNFSuffix;

    open spec fn view(&self) -> EBNFSuffix {
        *self
    }
}

/// A parsed grammar: its parser rules and its token rules.
#[derive(Debug)]
pub struct ANTLRAst {
    rules: Vec<Rule>,
    token_rules: Vec<TokenRule>,
}

/// A list of parser rules.
pub struct GrammarSpec {
    rule: Vec<Rule>,
}

#[derive(Debug)]
pub struct TokenRule {
    is_fragment: bool,
    name: String,
    alt_list: AltList,
}

#[derive(Debug)]
pub struct Rule {
    name: String,
    alt_list: AltList,
}

// Should Element really have PartialEq/Eq derived?
#[derive(Debug, Eq, PartialEq, Hash)]
pub enum Element {
    Atom { atom: Atom, suffix: Option<EBNFSuffix> },
    Block { block: Block, suffix: Option<EBNFSuffix> },
    CharSet { inverted: bool, set: CodeSet, suffix: Option<EBNFSuffix> },
}

#[derive(Debug, Eq, PartialEq, Hash)]
pub struct Block(pub AltList);

#[derive(Debug, Clone, Eq, PartialEq, Hash)]
pub enum Atom {
    StringLit(String),
    ID(String),
}

#[derive(Debug, Eq, PartialEq, Hash)]
pub struct Alt {
    label: Option<String>,
    options: PhantomData<()>,
    elements: Vec<Element>,
    channel: Option<String>,
}

// AltList is a necessary struct because it can represent an anonymous alt list inside a block
#[derive(Debug, Eq, PartialEq, Hash)]
pub struct AltList {
    optional: bool,
    alts: Vec<Alt>,
}

// ---------------------------------------------------------------------------
// The abstract syntax as mathematical values.
// ---------------------------------------------------------------------------

pub enum AtomModel {
    StringLit(Seq<char>),
    ID(Seq<char>),
}

pub enum ElementModel {
    Atom { atom: AtomModel, suffix: Option<EBNFSuffix> },
    Block { block: AltListModel, suffix: Option<EBNFSuffix> },
    CharSet { inverted: bool, set: Set<usize>, suffix: Option<EBNFSuffix> },
}

pub struct AltModel {
    pub label: Option<Seq<char>>,
    pub elements: Seq<ElementModel>,
    pub channel: Option<Seq<char>>,
}

pub struct AltListModel {
    pub optional: bool,
    pub alts: Seq<AltModel>,
}

pub struct RuleModel {
    pub name: Seq<char>,
    pub alt_list: AltListModel,
}

pub struct TokenRuleModel {
    pub is_fragment: bool,
    pub name: Seq<char>,
    pub alt_list: AltListModel,
}

pub struct AstModel {
    pub rules: Seq<RuleModel>,
    pub token_rules: Seq<TokenRuleModel>,
}

pub open spec fn opt_string_view(o: Option<String>) -> Option<Seq<char>> {
    match o {
        Some(s) => Some(s@),
        None => None,
    }
}

impl ElementModel {
    pub open spec fn suffix(self) -> Option<EBNFSuffix> {
        match self {
            ElementModel::Atom { suffix, .. } => suffix,
            ElementModel::Block { suffix, .. } => suffix,
            ElementModel::CharSet { suffix, .. } => suffix,
        }
    }
}

impl View for Atom {
    type V = AtomModel;

    open spec fn view(&self) -> AtomModel {
        match self {
            Atom::StringLit(s) => AtomModel::StringLit(s@),
            Atom::ID(s) => AtomModel::ID(s@),
        }
    }
}

impl Element {
    pub open spec fn model(&self) -> ElementModel
        decreases self,
    {
        match self {
            Element::Atom { atom, suffix } => ElementModel::Atom { atom: atom@, suffix: *suffix },
            Element::Block { block, suffix } => ElementModel::Block {
                block: block.0.model(),
                suffix: *suffix,
            },
            Element::CharSet { inverted, set, suffix } => ElementModel::CharSet {
                inverted: *inverted,
                set: set@,
                suffix: *suffix,
            },
        }
    }
}

impl AltList {
    pub closed spec fn model(&self) -> AltListModel
        decreases self,
    {
        AltListModel {
            optional: self.optional,
            alts: Seq::new(
                self.alts@.len(),
                |i: int|
                    if 0 <= i < self.alts@.len() {
                        self.alts@[i].model()
                    } else {
                        arbitrary()
                    },
            ),
        }
    }
}

impl Alt {
    pub closed spec fn model(&self) -> AltModel
        decreases self,
    {
        AltModel {
            label: opt_string_view(self.label),
            elements: Seq::new(
                self.elements@.len(),
                |i: int|
                    if 0 <= i < self.elements@.len() {
                        self.elements@[i].model()
                    } else {
                        arbitrary()
                    },
            ),
            channel: opt_string_view(self.channel),
        }
    }
}

impl View for Element {
    type V = ElementModel;

    open spec fn view(&self) -> ElementModel {
        self.model()
    }
}

impl View for AltList {
    type V = AltListModel;

    open spec fn view(&self) -> AltListModel {
        self.model()
    }
}

impl View for Alt {
    type V = AltModel;

    open spec fn view(&self) -> AltModel {
        self.model()
    }
}

impl View for Block {
    type V = AltListModel;

    open spec fn view(&self) -> AltListModel {
        self.0.model()
    }
}

impl View for Rule {
    type V = RuleModel;

    closed spec fn view(&self) -> RuleModel {
        RuleModel { name: self.name@, alt_list: self.alt_list@ }
    }
}

impl View for TokenRule {
    type V = TokenRuleModel;

    closed spec fn view(&self) -> TokenRuleModel {
        TokenRuleModel { is_fragment: self.is_fragment, name: self.name@, alt_list: self.alt_list@ }
    }
}

impl View for ANTLRAst {
    type V = AstModel;

    closed spec fn view(&self) -> AstModel {
        AstModel {
            rules: self.rules@.map_values(|r: Rule| r@),
            token_rules: self.token_rules@.map_values(|r: TokenRule| r@),
        }
    }
}

/// The views of the alternatives of a list, as stored.
pub open spec fn alts_view(alts: Seq<Alt>) -> Seq<AltModel> {
    alts.map_values(|a: Alt| a@)
}

/// The views of a list of elements, as stored.
pub open spec fn elements_view(elements: Seq<Element>) -> Seq<ElementModel> {
    elements.map_values(|e: Element| e@)
}

proof fn lemma_alt_list_view(l: &AltList)
    ensures
        l@.alts == alts_view(l.alts@),
        l@.optional == l.optional,
{
    assert(l@.alts =~= alts_view(l.alts@));
}

proof fn lemma_alt_view(a: &Alt)
    ensures
        a@.elements == elements_view(a.elements@),
        a@.label == opt_string_view(a.label),
        a@.channel == opt_string_view(a.channel),
{
    assert(a@.elements =~= elements_view(a.elements@));
}

impl ANTLRAst {
    pub fn new(rules: Vec<Rule>, token_rules: Vec<TokenRule>) -> (a: ANTLRAst)
        ensures
            a@.rules == rules@.map_values(|r: Rule| r@),
            a@.token_rules == token_rules@.map_values(|r: TokenRule| r@),
    {
        ANTLRAst { rules, token_rules }
    }

    pub fn rules(&self) -> (r: &Vec<Rule>)
        ensures
            r@.map_values(|x: Rule| x@) == self@.rules,
    {
        &self.rules
    }

    pub fn token_rules(&self) -> (r: &Vec<TokenRule>)
        ensures
            r@.map_values(|x: TokenRule| x@) == self@.token_rules,
    {
        &self.token_rules
    }
}

impl TokenRule {
    pub fn new(is_fragment: bool, name: String, alt_list: AltList) -> (r: TokenRule)
        ensures
            r@ == (TokenRuleModel { is_fragment, name: name@, alt_list: alt_list@ }),
    {
        TokenRule { is_fragment, name, alt_list }
    }

    pub fn is_fragment(&self) -> (b: bool)
        ensures
            b == self@.is_fragment,
    {
        self.is_fragment
    }

    pub fn name(&self) -> (n: &String)
        ensures
            n@ == self@.name,
    {
        &self.name
    }

    pub fn alt_list(&self) -> (l: &AltList)
        ensures
            l@ == self@.alt_list,
    {
        &self.alt_list
    }

    pub fn alts(&self) -> (alts: &Vec<Alt>)
        ensures
            alts_view(alts@) == self@.alt_list.alts,
    {
        proof {
            lemma_alt_list_view(&self.alt_list);
        }
        self.alt_list.alts()
    }
}

impl Rule {
    pub fn new(name: String, alt_list: AltList) -> (r: Rule)
        ensures
            r@ == (RuleModel { name: name@, alt_list: alt_list@ }),
    {
        Rule { name, alt_list }
    }

    pub fn name(&self) -> (n: &String)
        ensures
            n@ == self@.name,
    {
        &self.name
    }

    pub fn alt_list(&self) -> (l: &AltList)
        ensures
            l@ == self@.alt_list,
    {
        &self.alt_list
    }

    pub fn alts(&self) -> (alts: &Vec<Alt>)
        ensures
            alts_view(alts@) == self@.alt_list.alts,
    {
        proof {
            lemma_alt_list_view(&self.alt_list);
        }
        self.alt_list.alts()
    }
}

impl Element {
    pub fn suffix(&self) -> (s: Option<EBNFSuffix>)
        ensures
            s == self@.suffix(),
    {
        match self {
            Element::Atom { suffix, .. } => *suffix,
            Element::Block { suffix, .. } => *suffix,
            Element::CharSet { suffix, .. } => *suffix,
        }
    }
}

impl Alt {
    pub fn new(label: Option<String>, elements: Vec<Element>, channel: Option<String>) -> (a: Alt)
        ensures
            a@ == (AltModel {
                label: opt_string_view(label),
                elements: elements_view(elements@),
                channel: opt_string_view(channel),
            }),
    {
        let a = Alt { label, elements, options: PhantomData, channel };
        proof {
            lemma_alt_view(&a);
        }
        a
    }

    pub fn label(&self) -> (l: Option<&String>)
        ensures
            match l {
                Some(s) => self@.label == Some(s@),
                None => self@.label is None,
            },
    {
        proof {
            lemma_alt_view(self);
        }
        self.label.as_ref()
    }

    pub fn channel(&self) -> (c: Option<&String>)
        ensures
            match c {
                Some(s) => self@.channel == Some(s@),
                None => self@.channel is None,
            },
    {
        proof {
            lemma_alt_view(self);
        }
        self.channel.as_ref()
    }

    pub fn elements(&self) -> (e: &Vec<Element>)
        ensures
            elements_view(e@) == self@.elements,
    {
        proof {
            lemma_alt_view(self);
        }
        &self.elements
    }
}

impl AltList {
    pub fn new(optional: bool, alts: Vec<Alt>) -> (l: AltList)
        ensures
            l@ == (AltListModel { optional, alts: alts_view(alts@) }),
    {
        let l = AltList { optional, alts };
        proof {
            lemma_alt_list_view(&l);
        }
        l
    }

    pub fn optional(&self) -> (b: bool)
        ensures
            b == self@.optional,
    {
        proof {
            lemma_alt_list_view(self);
        }
        self.optional
    }

    pub fn alts(&self) -> (a: &Vec<Alt>)
        ensures
            alts_view(a@) == self@.alts,
    {
        proof {
            lemma_alt_list_view(self);
        }
        &self.alts
    }
}

} // verus!
