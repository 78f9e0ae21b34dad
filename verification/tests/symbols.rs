use antlr_gen::ast::{Alt, AltList, Atom, Block, Element};
use antlr_gen::lex::Lexer;
use antlr_gen::parse::Parser;
use antlr_gen::symbols::{get_strlits, AnalysisErr, SymbolTable};

fn lit(s: &str) -> Element {
    Element::Atom { atom: Atom::StringLit(s.to_string()), suffix: None }
}

fn id(s: &str) -> Element {
    Element::Atom { atom: Atom::ID(s.to_string()), suffix: None }
}

#[test]
fn strlits_in_order_with_nested_blocks() {
    let inner = AltList::new(false, vec![Alt::new(None, vec![lit("x"), id("r")], None), Alt::new(None, vec![lit("y")], None)]);
    let alt = Alt::new(
        None,
        vec![lit("a"), Element::Block { block: Block(inner), suffix: None }, lit("b")],
        None,
    );
    assert_eq!(get_strlits(&alt), vec!["a", "x", "y", "b"]);
}

#[test]
fn table_of_a_grammar_numbers_literals_by_first_appearance() {
    let mut parser = Parser::new(Lexer::new(
        "s : 'b' x 'a' | 'b' ;\nx : 'c' ;\nA : 'a' | 'd' ;".to_string(),
    ))
    .unwrap();
    let ast = parser.grammar_spec().unwrap();
    let table = SymbolTable::new(&ast);
    assert_eq!(table.get_strlit_id(&"b".to_string()), Some(0));
    assert_eq!(table.get_strlit_id(&"a".to_string()), Some(1));
    assert_eq!(table.get_strlit_id(&"c".to_string()), Some(2));
    assert_eq!(table.get_strlit_id(&"d".to_string()), Some(3));
    assert_eq!(table.get_strlit_id(&"e".to_string()), None);
    assert_eq!(table.get_strlit_name(2), Some("c".to_string()));
    assert_eq!(table.get_token_id(&"EOF".to_string()), Some(usize::MAX));
    assert_eq!(table.get_token_name(usize::MAX), Some("EOF".to_string()));
    // the table is not told about rules
    assert_eq!(table.get_rule_id(&"s".to_string()), None);
    assert_eq!(table.rule_count(), 0);
}

#[test]
fn literal_ids_follow_token_count() {
    let mut table = SymbolTable::empty();
    table.insert_token_rule("A".to_string(), 0).unwrap();
    table.insert_token_rule("B".to_string(), 1).unwrap();
    table.insert_strlit("x".to_string());
    table.insert_strlit("y".to_string());
    table.insert_strlit("x".to_string());
    assert_eq!(table.get_strlit_id(&"x".to_string()), Some(2));
    assert_eq!(table.get_strlit_id(&"y".to_string()), Some(3));
    // round trip
    assert_eq!(table.get_strlit_name(3), Some("y".to_string()));
}

#[test]
fn redefinition_is_refused() {
    let mut table = SymbolTable::empty();
    assert!(table.insert_rule("expr".to_string(), 0).is_ok());
    match table.insert_rule("expr".to_string(), 5) {
        Err(AnalysisErr::Redefinition { of }) => assert_eq!(of, "expr"),
        other => panic!("unexpected {:?}", other),
    }
    assert_eq!(table.get_rule_id(&"expr".to_string()), Some(0));
    assert_eq!(table.get_rule_name(0), Some("expr".to_string()));
    assert_eq!(table.get_rule_name(5), None);
    assert_eq!(table.rule_count(), 1);
    assert!(table.insert_token_rule("T".to_string(), 3).is_ok());
    match table.insert_token_rule("T".to_string(), 4) {
        Err(AnalysisErr::Redefinition { of }) => assert_eq!(of, "T"),
        other => panic!("unexpected {:?}", other),
    }
}

#[test]
fn last_name_recorded_with_an_id_is_found() {
    let mut table = SymbolTable::empty();
    table.insert_rule("a".to_string(), 1).unwrap();
    table.insert_rule("b".to_string(), 1).unwrap();
    assert_eq!(table.get_rule_name(1), Some("b".to_string()));
}
