use antlr_gen::analysis::SymbolTable;
use antlr_gen::ast::{Alt, AltList, Atom, Block, Element, Rule, TokenRule};
use antlr_gen::atn::StateRef;
use antlr_gen::symbols::AnalysisErr;

fn lit(s: &str) -> Element {
    Element::Atom { atom: Atom::StringLit(s.to_string()), suffix: None }
}

fn id(s: &str) -> Element {
    Element::Atom { atom: Atom::ID(s.to_string()), suffix: None }
}

#[test]
fn rules_are_numbered_in_order_and_not_redefined() {
    let mut table = SymbolTable::new();
    assert!(table.insert_rule("a".to_string()).is_ok());
    assert!(table.insert_rule("b".to_string()).is_ok());
    assert_eq!(table.get_rule_id("b".to_string()), Some(1));
    match table.insert_rule("a".to_string()) {
        Err(AnalysisErr::Redefinition { of }) => assert_eq!(of, "a"),
        other => panic!("unexpected {:?}", other),
    }
    assert!(table.insert_token_rule("T".to_string()).is_ok());
    assert!(matches!(table.insert_token_rule("T".to_string()), Err(AnalysisErr::Redefinition { .. })));
}

#[test]
fn literals_are_tokens_numbered_once() {
    let mut table = SymbolTable::new();
    table.insert_token("x".to_string());
    table.insert_token("y".to_string());
    table.insert_token("x".to_string());
    assert_eq!(table.get_token_id("x".to_string()), Some(0));
    assert_eq!(table.get_token_id("y".to_string()), Some(1));
    assert_eq!(table.get_token_id("z".to_string()), None);
}

#[test]
fn rule_symbols_record_name_then_literals() {
    let mut table = SymbolTable::new();
    let inner = AltList::new(false, vec![Alt::new(None, vec![lit("b")], None)]);
    let rule = Rule::new(
        "r".to_string(),
        AltList::new(false, vec![Alt::new(None, vec![lit("a"), Element::Block { block: Block(inner), suffix: None }, id("s")], None)]),
    );
    assert!(rule.symbols(&mut table).is_ok());
    assert_eq!(table.get_rule_id("r".to_string()), Some(0));
    assert_eq!(table.get_token_id("a".to_string()), Some(0));
    assert_eq!(table.get_token_id("b".to_string()), Some(1));
    // a second rule of the same name is refused before its literals are read
    let again = Rule::new("r".to_string(), AltList::new(false, vec![Alt::new(None, vec![lit("c")], None)]));
    assert!(matches!(again.symbols(&mut table), Err(AnalysisErr::Redefinition { .. })));
    assert_eq!(table.get_token_id("c".to_string()), None);
    let token = TokenRule::new(false, "T".to_string(), AltList::new(false, vec![Alt::new(None, vec![lit("c")], None)]));
    assert!(token.symbols(&mut table).is_ok());
    assert_eq!(table.get_token_id("c".to_string()), Some(2));
}

#[test]
fn literal_becomes_a_transition_on_its_token() {
    let mut table = SymbolTable::new();
    table.insert_token("x".to_string());
    table.insert_token("y".to_string());
    let f = Atom::StringLit("y".to_string()).codegen(&table).unwrap();
    // the network has no epsilon transitions listed on its states
    assert!(f.epsilon_closure(StateRef(0)).is_empty());
    assert!(Atom::ID("r".to_string()).codegen(&table).is_ok());
}

#[test]
fn unknown_literal_is_undefined() {
    let table = SymbolTable::new();
    match Atom::StringLit("q".to_string()).codegen(&table) {
        Err(AnalysisErr::Undefined { name }) => assert_eq!(name, "q"),
        other => panic!("unexpected {:?}", other.map(|_| ())),
    }
    let alt = Alt::new(None, vec![id("r"), lit("q")], None);
    assert!(matches!(alt.codegen(&table), Err(AnalysisErr::Undefined { .. })));
}

#[test]
fn labels_must_be_all_or_none() {
    let mut table = SymbolTable::new();
    table.insert_token("x".to_string());
    let mixed = AltList::new(false, vec![Alt::new(Some("l".to_string()), vec![lit("x")], None), Alt::new(None, vec![lit("x")], None)]);
    assert!(matches!(mixed.codegen(&table), Err(AnalysisErr::AltLabels)));
    let none = AltList::new(false, vec![Alt::new(None, vec![lit("x")], None), Alt::new(None, vec![id("r")], None)]);
    assert!(none.codegen(&table).is_ok());
    let all = AltList::new(false, vec![Alt::new(Some("a".to_string()), vec![lit("x")], None)]);
    assert!(all.codegen(&table).is_ok());
    // an empty list is refused as well
    assert!(matches!(AltList::new(false, vec![]).codegen(&table), Err(AnalysisErr::AltLabels)));
    let rule = Rule::new("r".to_string(), AltList::new(false, vec![Alt::new(None, vec![lit("x")], None)]));
    assert!(rule.codegen(&table).is_ok());
    let token = TokenRule::new(false, "T".to_string(), AltList::new(false, vec![]));
    assert!(matches!(token.codegen(&table), Err(AnalysisErr::AltLabels)));
}

#[test]
fn block_network_is_built_from_its_alternatives() {
    let mut table = SymbolTable::new();
    table.insert_token("x".to_string());
    let block = Block(AltList::new(false, vec![Alt::new(None, vec![lit("x")], None)]));
    assert!(block.codegen(&table).is_ok());
    let element = Element::Block { block: Block(AltList::new(false, vec![Alt::new(Some("m".to_string()), vec![], None), Alt::new(None, vec![], None)])), suffix: None };
    assert!(matches!(element.codegen(&table), Err(AnalysisErr::AltLabels)));
}
