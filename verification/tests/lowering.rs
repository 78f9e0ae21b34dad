use antlr_gen::ast::{ANTLRAst, Alt, AltList, Atom, Block, EBNFSuffix, Element, Rule, TokenRule};
use antlr_gen::codeset::CodeSet;
use antlr_gen::ir::{AltIR, AntlrIR, ElementIR, RuleIR};
use antlr_gen::symbols::SymbolTable;
use antlr_gen::util::Arena;

fn lit(s: &str) -> Element {
    Element::Atom { atom: Atom::StringLit(s.to_string()), suffix: None }
}

fn id(s: &str, suffix: Option<EBNFSuffix>) -> Element {
    Element::Atom { atom: Atom::ID(s.to_string()), suffix }
}

fn table() -> SymbolTable {
    let mut t = SymbolTable::empty();
    t.insert_rule("s".to_string(), 0).unwrap();
    t.insert_rule("x".to_string(), 1).unwrap();
    t.insert_token_rule("A".to_string(), 0).unwrap();
    t.insert_strlit("a".to_string());
    t
}

fn describe(e: &ElementIR) -> (char, Option<usize>, Option<EBNFSuffix>) {
    let kind = match e {
        ElementIR::RuleAtom { .. } => 'r',
        ElementIR::TokenAtom { .. } => 't',
        ElementIR::CharSet { .. } => 'c',
    };
    (kind, e.id(), e.suffix())
}

#[test]
fn names_literals_and_sets_are_lowered_in_place() {
    let t = table();
    let mut rules: Arena<RuleIR> = Arena::new();
    let mut set = CodeSet::new();
    set.insert(99);
    let alt = Alt::new(
        Some("first".to_string()),
        vec![
            id("x", Some(EBNFSuffix::Star)),
            id("A", None),
            lit("a"),
            Element::CharSet { inverted: true, set, suffix: Some(EBNFSuffix::Optional) },
        ],
        Some("HIDDEN".to_string()),
    );
    let ir = AltIR::from_alt(&alt, 3, 0, &t, &mut rules).unwrap();
    assert_eq!(ir.index(), 3);
    assert_eq!(ir.parent(), Some(0));
    assert_eq!(ir.label(), Some(&"first".to_string()));
    assert_eq!(ir.channel(), Some(&"HIDDEN".to_string()));
    let got: Vec<_> = ir.elements().iter().map(describe).collect();
    assert_eq!(
        got,
        vec![
            ('r', Some(1), Some(EBNFSuffix::Star)),
            ('t', Some(0), None),
            ('t', Some(1), None),
            ('c', None, Some(EBNFSuffix::Optional)),
        ]
    );
    match &ir.elements()[3] {
        ElementIR::CharSet { inverted, set, .. } => {
            assert!(*inverted);
            assert_eq!(set.codes(), vec![99]);
        },
        _ => panic!("expected a set"),
    }
    // nothing was placed in the arena
    assert!(rules.finalize().is_empty());
}

#[test]
fn unknown_name_fails_with_its_name() {
    let t = table();
    let mut rules: Arena<RuleIR> = Arena::new();
    let alt = Alt::new(None, vec![id("x", None), id("nowhere", None)], None);
    match AltIR::from_alt(&alt, 0, 0, &t, &mut rules) {
        Err(m) => assert_eq!(m, "No rule found for id nowhere"),
        Ok(_) => panic!("expected an error"),
    }
}

#[test]
fn blocks_become_anonymous_rules_past_the_named_ones() {
    let t = table();
    let mut rules: Arena<RuleIR> = Arena::new();
    let inner = AltList::new(false, vec![Alt::new(None, vec![id("A", None)], None)]);
    let outer = AltList::new(
        true,
        vec![
            Alt::new(None, vec![Element::Block { block: Block(inner), suffix: None }], None),
            Alt::new(Some("two".to_string()), vec![lit("a")], None),
        ],
    );
    let alt = Alt::new(
        None,
        vec![id("s", None), Element::Block { block: Block(outer), suffix: Some(EBNFSuffix::Plus) }],
        None,
    );
    let ir = AltIR::from_alt(&alt, 0, 0, &t, &mut rules).unwrap();
    let got: Vec<_> = ir.elements().iter().map(describe).collect();
    // the outer block takes the first free slot from the number of rules on
    assert_eq!(got, vec![('r', Some(0), None), ('r', Some(2), Some(EBNFSuffix::Plus))]);
    let outer_rule = rules.get(2).unwrap();
    assert_eq!(outer_rule.name(), "__anonymous_rule_2");
    assert!(outer_rule.is_block());
    assert!(outer_rule.optional());
    assert_eq!(outer_rule.id(), 2);
    assert_eq!(outer_rule.alts().len(), 2);
    let first = outer_rule.alts()[0].get();
    assert_eq!(first.parent(), Some(2));
    assert_eq!(first.index(), 0);
    // the inner block was placed after the outer one
    assert_eq!(describe(&first.elements()[0]), ('r', Some(3), None));
    assert_eq!(outer_rule.alts()[1].get().label(), Some(&"two".to_string()));
    let inner_rule = rules.get(3).unwrap();
    assert_eq!(inner_rule.name(), "__anonymous_rule_3");
    assert_eq!(describe(&inner_rule.alts()[0].get().elements()[0]), ('t', Some(0), None));
}

#[test]
fn empty_block_fails() {
    let t = table();
    let mut rules: Arena<RuleIR> = Arena::new();
    let alt = Alt::new(
        None,
        vec![Element::Block { block: Block(AltList::new(false, vec![])), suffix: None }],
        None,
    );
    match AltIR::from_alt(&alt, 0, 0, &t, &mut rules) {
        Err(m) => assert_eq!(m, "There are no nonempty alts"),
        Ok(_) => panic!("expected an error"),
    }
}

#[test]
fn named_rule_is_lowered_with_its_id() {
    let t = table();
    let mut rules: Arena<RuleIR> = Arena::new();
    let rule = Rule::new(
        "x".to_string(),
        AltList::new(false, vec![Alt::new(None, vec![lit("a")], None), Alt::new(None, vec![id("s", None)], None)]),
    );
    let ir = RuleIR::new(&rule, &t, &mut rules).unwrap();
    assert_eq!(ir.id(), 1);
    assert_eq!(ir.name(), "x");
    assert!(!ir.is_block());
    assert_eq!(ir.alts().len(), 2);
    assert_eq!(ir.alts()[1].get().index(), 1);
    assert_eq!(ir.alts()[1].get().parent(), Some(1));
}

#[test]
fn rule_without_alternatives_fails() {
    let t = SymbolTable::empty();
    let mut rules: Arena<RuleIR> = Arena::new();
    let rule = Rule::new("lonely".to_string(), AltList::new(true, vec![]));
    match RuleIR::new(&rule, &t, &mut rules) {
        Err(m) => assert_eq!(m, "There are no nonempty alts"),
        Ok(_) => panic!("expected an error"),
    }
}

#[test]
fn token_rule_is_lowered_with_its_token_id() {
    let t = table();
    let mut rules: Arena<RuleIR> = Arena::new();
    let rule = TokenRule::new(false, "A".to_string(), AltList::new(false, vec![Alt::new(None, vec![lit("a")], None)]));
    let ir = RuleIR::new_tokenrule(&rule, &t, &mut rules).unwrap();
    assert_eq!(ir.id(), 0);
    assert_eq!(ir.name(), "A");
}

#[test]
fn block_directly_lowered() {
    let t = table();
    let mut rules: Arena<RuleIR> = Arena::new();
    rules.push(RuleIR::with_parts(0, false, "s".to_string(), false, vec![]));
    let block = Block(AltList::new(false, vec![Alt::new(None, vec![lit("a")], None)]));
    assert_eq!(RuleIR::from_block(0, &block, &t, &mut rules), Ok(2));
    assert_eq!(rules.get(2).unwrap().name(), "__anonymous_rule_2");
}

#[test]
fn grammar_lowers_each_rule_at_its_position() {
    let t = table();
    let ast = ANTLRAst::new(
        vec![
            Rule::new(
                "s".to_string(),
                AltList::new(
                    false,
                    vec![Alt::new(
                        None,
                        vec![
                            id("x", None),
                            Element::Block {
                                block: Block(AltList::new(false, vec![Alt::new(None, vec![lit("a")], None)])),
                                suffix: Some(EBNFSuffix::Star),
                            },
                        ],
                        None,
                    )],
                ),
            ),
            Rule::new("x".to_string(), AltList::new(false, vec![Alt::new(Some("only".to_string()), vec![id("A", None)], None)])),
        ],
        vec![TokenRule::new(false, "A".to_string(), AltList::new(false, vec![Alt::new(None, vec![lit("a")], None)]))],
    );
    let ir = AntlrIR::from_ast(&ast, t).unwrap();
    assert_eq!(ir.rules().len(), 3);
    assert_eq!(ir.rules()[0].name(), "s");
    assert_eq!(ir.rules()[1].name(), "x");
    assert_eq!(ir.rules()[1].alts()[0].get().label(), Some(&"only".to_string()));
    assert_eq!(ir.rules()[2].name(), "__anonymous_rule_2");
    assert!(ir.rules()[2].is_block());
    assert_eq!(describe(&ir.rules()[0].alts()[0].get().elements()[1]), ('r', Some(2), Some(EBNFSuffix::Star)));
    assert_eq!(ir.token_rules().len(), 1);
    assert_eq!(ir.token_rules()[0].name(), "A");
    assert_eq!(ir.token_rules()[0].id(), 0);
}

#[test]
fn grammar_lowering_gives_the_first_failure() {
    let t = table();
    let ast = ANTLRAst::new(
        vec![Rule::new("s".to_string(), AltList::new(false, vec![Alt::new(None, vec![id("nowhere", None)], None)]))],
        vec![],
    );
    match AntlrIR::from_ast(&ast, t) {
        Err(m) => assert_eq!(m, "No rule found for id nowhere"),
        Ok(_) => panic!("expected an error"),
    }
}

fn two_rule_grammar(first: &str, second: &str, token: &str) -> ANTLRAst {
    ANTLRAst::new(
        vec![
            Rule::new(first.to_string(), AltList::new(false, vec![Alt::new(None, vec![id(second, None), id(token, None)], None)])),
            Rule::new(second.to_string(), AltList::new(false, vec![Alt::new(None, vec![lit("a")], None)])),
        ],
        vec![TokenRule::new(false, token.to_string(), AltList::new(false, vec![Alt::new(None, vec![lit("b")], None)]))],
    )
}

#[test]
fn new_names_rules_and_tokens_by_position() {
    let ast = two_rule_grammar("s", "x", "B");
    let ir = AntlrIR::new(&ast).unwrap();
    assert_eq!(ir.rules().len(), 2);
    assert_eq!(ir.rules()[0].name(), "s");
    assert_eq!(ir.rules()[0].id(), 0);
    assert_eq!(ir.rules()[1].name(), "x");
    assert_eq!(ir.rules()[1].id(), 1);
    let elements = ir.rules()[0].alts()[0].get().elements();
    assert_eq!(describe(&elements[0]), ('r', Some(1), None));
    assert_eq!(describe(&elements[1]), ('t', Some(0), None));
    assert_eq!(describe(&ir.rules()[1].alts()[0].get().elements()[0]), ('t', Some(0), None));
    assert_eq!(ir.token_rules().len(), 1);
    assert_eq!(ir.token_rules()[0].name(), "B");
    assert_eq!(ir.token_rules()[0].id(), 0);
}

#[test]
fn new_refuses_a_rule_defined_twice() {
    let ast = two_rule_grammar("s", "s", "B");
    match AntlrIR::new(&ast) {
        Err(m) => assert_eq!(m, "Redefinition of s"),
        Ok(_) => panic!("expected an error"),
    }
}

#[test]
fn new_refuses_a_token_named_eof() {
    let ast = two_rule_grammar("s", "x", "EOF");
    match AntlrIR::new(&ast) {
        Err(m) => assert_eq!(m, "Redefinition of EOF"),
        Ok(_) => panic!("expected an error"),
    }
}

#[test]
fn new_reports_a_lowering_failure() {
    let ast = ANTLRAst::new(
        vec![Rule::new("s".to_string(), AltList::new(false, vec![Alt::new(None, vec![id("nowhere", None)], None)]))],
        vec![],
    );
    match AntlrIR::new(&ast) {
        Err(m) => assert_eq!(m, "No rule found for id nowhere"),
        Ok(_) => panic!("expected an error"),
    }
}
