use antlr_gen::ast::{Atom, EBNFSuffix, Element};
use antlr_gen::lex::{ANTLRTokenType, Lexer, LexerErr};
use antlr_gen::parse::Parser;

const README_GRAMMAR: &str = "// The main entry point for parsing a v4 grammar.
grammarSpec
    : grammarDecl prequelConstruct* rules modeSpec* EOF
    ;

grammarDecl
    : grammarType identifier SEMI
    ;

grammarType
    : LEXER GRAMMAR
    | PARSER GRAMMAR
    | GRAMMAR
    ;
";

fn id_atom(e: &Element) -> (String, Option<EBNFSuffix>) {
    match e {
        Element::Atom { atom: Atom::ID(name), suffix } => (name.clone(), *suffix),
        other => panic!("not an identifier atom: {:?}", other),
    }
}

#[test]
fn readme_tokens() {
    let parser = Parser::new(Lexer::new(README_GRAMMAR.to_string())).unwrap();
    let expected = vec![
        (ANTLRTokenType::RuleID, "grammarSpec"), (ANTLRTokenType::Colon, ""), (ANTLRTokenType::RuleID, "grammarDecl"), (ANTLRTokenType::RuleID, "prequelConstruct"),
        (ANTLRTokenType::Star, ""), (ANTLRTokenType::RuleID, "rules"), (ANTLRTokenType::RuleID, "mSpec"), (ANTLRTokenType::Star, ""), (ANTLRTokenType::TokenID, "EOF"), (ANTLRTokenType::Semi, ""),
        (ANTLRTokenType::RuleID, "grammarDecl"), (ANTLRTokenType::Colon, ""), (ANTLRTokenType::RuleID, "grammarType"), (ANTLRTokenType::RuleID, "identifier"),
        (ANTLRTokenType::TokenID, "SEMI"), (ANTLRTokenType::Semi, ""), (ANTLRTokenType::RuleID, "grammarType"), (ANTLRTokenType::Colon, ""), (ANTLRTokenType::TokenID, "LEXER"),
        (ANTLRTokenType::TokenID, "GRAMMAR"), (ANTLRTokenType::OR, ""), (ANTLRTokenType::TokenID, "PARSER"), (ANTLRTokenType::TokenID, "GRAMMAR"), (ANTLRTokenType::OR, ""),
        (ANTLRTokenType::TokenID, "GRAMMAR"), (ANTLRTokenType::Semi, ""),
    ];
    let got = parser.peek_n(1, expected.len()).unwrap();
    assert_eq!(got.len(), expected.len());
    for (t, (tt, text)) in got.iter().zip(expected.iter()) {
        assert_eq!(t.token_type(), *tt);
        assert_eq!(t.text(), *text);
    }
    assert!(parser.peek_n(1, expected.len() + 1).is_none());
}

#[test]
fn readme_parse_tree() {
    let mut parser = Parser::new(Lexer::new(README_GRAMMAR.to_string())).unwrap();
    let ast = parser.grammar_spec().unwrap();
    assert!(ast.token_rules().is_empty());
    let rules = ast.rules();
    assert_eq!(rules.len(), 3);

    assert_eq!(rules[0].name(), "grammarSpec");
    assert!(!rules[0].alt_list().optional());
    assert_eq!(rules[0].alts().len(), 1);
    let elements: Vec<_> = rules[0].alts()[0].elements().iter().map(id_atom).collect();
    assert_eq!(
        elements,
        vec![
            ("grammarDecl".to_string(), None),
            ("prequelConstruct".to_string(), Some(EBNFSuffix::Star)),
            ("rules".to_string(), None),
            ("mSpec".to_string(), Some(EBNFSuffix::Star)),
            ("EOF".to_string(), None),
        ]
    );
    assert_eq!(rules[0].alts()[0].label(), None);

    assert_eq!(rules[1].name(), "grammarDecl");
    let elements: Vec<_> = rules[1].alts()[0].elements().iter().map(id_atom).collect();
    assert_eq!(
        elements,
        vec![
            ("grammarType".to_string(), None),
            ("identifier".to_string(), None),
            ("SEMI".to_string(), None),
        ]
    );

    assert_eq!(rules[2].name(), "grammarType");
    let alts = rules[2].alts();
    assert_eq!(alts.len(), 3);
    let names: Vec<Vec<String>> = alts
        .iter()
        .map(|a| a.elements().iter().map(|e| id_atom(e).0).collect())
        .collect();
    assert_eq!(
        names,
        vec![
            vec!["LEXER".to_string(), "GRAMMAR".to_string()],
            vec!["PARSER".to_string(), "GRAMMAR".to_string()],
            vec!["GRAMMAR".to_string()],
        ]
    );
}

#[test]
fn lexer_reports_unknown_character() {
    let mut lexer = Lexer::new("%".to_string());
    assert_eq!(lexer.next_token().unwrap_err(), LexerErr::UnkownCharacter('%'));
}
