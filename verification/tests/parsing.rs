use antlr_gen::ast::{ANTLRAst, Atom, EBNFSuffix, Element};
use antlr_gen::lex::{ANTLRTokenType, Lexer};
use antlr_gen::parse::{Parser, ParserErr};

fn parse(text: &str) -> Result<ANTLRAst, ParserErr> {
    let mut parser = Parser::new(Lexer::new(text.to_string())).unwrap();
    parser.grammar_spec()
}

#[test]
fn rule_with_alternatives_labels_and_suffixes() {
    let ast = parse("expr : term '+' expr # add | term+ # single ;").unwrap();
    assert_eq!(ast.rules().len(), 1);
    let rule = &ast.rules()[0];
    assert_eq!(rule.name(), "expr");
    assert_eq!(rule.alts().len(), 2);
    let first = &rule.alts()[0];
    assert_eq!(first.label(), Some(&"add".to_string()));
    assert_eq!(first.elements().len(), 3);
    assert_eq!(
        first.elements()[1],
        Element::Atom { atom: Atom::StringLit("+".to_string()), suffix: None }
    );
    let second = &rule.alts()[1];
    assert_eq!(second.label(), Some(&"single".to_string()));
    assert_eq!(
        second.elements()[0],
        Element::Atom { atom: Atom::ID("term".to_string()), suffix: Some(EBNFSuffix::Plus) }
    );
}

#[test]
fn greedy_marks_after_star_and_plus_are_read() {
    let ast = parse("a : b*? c+? d? ;").unwrap();
    let suffixes: Vec<_> = ast.rules()[0].alts()[0].elements().iter().map(|e| e.suffix()).collect();
    assert_eq!(
        suffixes,
        vec![Some(EBNFSuffix::Star), Some(EBNFSuffix::Plus), Some(EBNFSuffix::Optional)]
    );
}

#[test]
fn empty_alternative_makes_the_list_optional() {
    let ast = parse("a : b | ;").unwrap();
    let list = ast.rules()[0].alt_list();
    assert!(list.optional());
    assert_eq!(list.alts().len(), 1);
}

#[test]
fn block_holds_its_alternatives() {
    let ast = parse("a : ( b | C )* ;").unwrap();
    let element = &ast.rules()[0].alts()[0].elements()[0];
    match element {
        Element::Block { block, suffix } => {
            assert_eq!(*suffix, Some(EBNFSuffix::Star));
            assert_eq!(block.0.alts().len(), 2);
            assert_eq!(
                block.0.alts()[1].elements()[0],
                Element::Atom { atom: Atom::ID("C".to_string()), suffix: None }
            );
        },
        other => panic!("expected a block, got {:?}", other),
    }
}

#[test]
fn token_rules_and_fragments() {
    let ast = parse("ID : [ab]+ ;\nfragment DIGIT : '0' ;").unwrap();
    assert!(ast.rules().is_empty());
    assert_eq!(ast.token_rules().len(), 2);
    assert_eq!(ast.token_rules()[0].name(), "ID");
    assert!(!ast.token_rules()[0].is_fragment());
    assert!(ast.token_rules()[1].is_fragment());
    match &ast.token_rules()[0].alts()[0].elements()[0] {
        Element::CharSet { inverted, set, suffix } => {
            assert!(!inverted);
            assert_eq!(*suffix, Some(EBNFSuffix::Plus));
            assert_eq!(set.codes(), vec!['a' as usize, 'b' as usize]);
        },
        other => panic!("expected a set, got {:?}", other),
    }
}

#[test]
fn inverted_set() {
    let ast = parse("NOTA : ~[a] ;").unwrap();
    match &ast.token_rules()[0].alts()[0].elements()[0] {
        Element::CharSet { inverted, set, .. } => {
            assert!(*inverted);
            assert!(set.contains('a' as usize));
            assert!(!set.contains('b' as usize));
        },
        other => panic!("expected a set, got {:?}", other),
    }
}

#[test]
fn channel_after_alternative() {
    let ast = parse("WS : ' ' -> channel(HIDDEN) ;").unwrap();
    let alt = &ast.token_rules()[0].alts()[0];
    assert_eq!(alt.channel(), Some(&"HIDDEN".to_string()));
}

#[test]
fn missing_semicolon_is_reported() {
    let mut parser = Parser::new(Lexer::new("a : b".to_string())).unwrap();
    match parser.rule_spec() {
        Err(ParserErr::UnexpectedToken { expected, got }) => {
            assert_eq!(expected, ANTLRTokenType::Semi);
            assert_eq!(got, ANTLRTokenType::EOF);
        },
        other => panic!("unexpected result {:?}", other),
    }
}

#[test]
fn grammar_cannot_start_with_punctuation() {
    match parse(";") {
        Err(ParserErr::NoTokenMatched { expected, got }) => {
            assert_eq!(got, ANTLRTokenType::Semi);
            assert_eq!(
                expected,
                vec![ANTLRTokenType::TokenID, ANTLRTokenType::RuleID, ANTLRTokenType::EOF]
            );
        },
        other => panic!("unexpected result {:?}", other),
    }
}

#[test]
fn match_token_moves_on_success_only() {
    let mut parser = Parser::new(Lexer::new("a : b ;".to_string())).unwrap();
    assert!(parser.match_token(ANTLRTokenType::Colon).is_err());
    let t = parser.match_token(ANTLRTokenType::RuleID).unwrap();
    assert_eq!(t.text(), "a");
    assert_eq!(parser.peek_type(1), ANTLRTokenType::Colon);
}

#[test]
fn match_any_token_names_what_was_expected() {
    let mut parser = Parser::new(Lexer::new(":".to_string())).unwrap();
    match parser.match_any_token(vec![ANTLRTokenType::Semi, ANTLRTokenType::OR]) {
        Err(ParserErr::NoTokenMatched { expected, got }) => {
            assert_eq!(expected, vec![ANTLRTokenType::Semi, ANTLRTokenType::OR]);
            assert_eq!(got, ANTLRTokenType::Colon);
        },
        other => panic!("unexpected result {:?}", other),
    }
}

#[test]
fn parser_peeks_past_the_end_as_eof() {
    let parser = Parser::new(Lexer::new("a".to_string())).unwrap();
    assert_eq!(parser.peek_type(1), ANTLRTokenType::RuleID);
    assert_eq!(parser.peek_type(5), ANTLRTokenType::EOF);
}

#[test]
fn grammar_declaration_is_read_and_set_aside() {
    let ast = parse("grammar lookahead ;\n a : 'x' ;\n B : 'b' ;").unwrap();
    assert_eq!(ast.rules().len(), 1);
    assert_eq!(ast.rules()[0].name(), "a");
    assert_eq!(ast.token_rules().len(), 1);
    let ast = parse("grammar Upper;").unwrap();
    assert!(ast.rules().is_empty());
}

#[test]
fn grammar_declaration_needs_a_name_and_a_semicolon() {
    match parse("grammar ;") {
        Err(ParserErr::NoTokenMatched { expected, got }) => {
            assert_eq!(got, ANTLRTokenType::Semi);
            assert_eq!(expected, vec![ANTLRTokenType::RuleID, ANTLRTokenType::TokenID]);
        },
        other => panic!("unexpected result {:?}", other),
    }
    match parse("grammar g a : 'x' ;") {
        Err(ParserErr::UnexpectedToken { expected, got }) => {
            assert_eq!(expected, ANTLRTokenType::Semi);
            assert_eq!(got, ANTLRTokenType::RuleID);
        },
        other => panic!("unexpected result {:?}", other),
    }
}

#[test]
fn peek_type_is_the_kind_of_the_peeked_token() {
    let parser = Parser::new(Lexer::new("a : 'x' ;".to_string())).unwrap();
    for by in 1..8 {
        assert_eq!(parser.peek_type(by), parser.peek(by).token_type());
    }
    assert_eq!(parser.peek(7).token_type(), ANTLRTokenType::EOF);
    assert_eq!(parser.peek(7).text(), "");
}
