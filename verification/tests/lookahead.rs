use antlr_gen::ast::EBNFSuffix;
use antlr_gen::ir::{AntlrIR, ElementIR};
use antlr_gen::lex::Lexer;
use antlr_gen::nth::{nth, NthCache};
use antlr_gen::parse::Parser;

const GRAMMAR: &str = "grammar lookahead ;
    n: x y | y x ;
    x: y z ;
    y: 'y' ;
    z: 'z' ;

    optional: y? z ;
    star: y* z ;
    ";

/// Parses a grammar and lowers it, naming each parser rule and each token
/// rule by its position.
fn parse(content: &str) -> AntlrIR {
    let lexer = Lexer::new(content.to_string());
    let mut parser = Parser::new(lexer).unwrap();
    let ast = parser.grammar_spec().unwrap();
    AntlrIR::new(&ast).unwrap()
}

fn rule_atom(id: usize, suffix: Option<EBNFSuffix>) -> ElementIR {
    ElementIR::RuleAtom { id, suffix }
}

fn token_atom(id: usize) -> ElementIR {
    ElementIR::TokenAtom { id, suffix: None }
}

fn describe(e: &ElementIR) -> (char, Option<usize>, Option<EBNFSuffix>) {
    let kind = match e {
        ElementIR::RuleAtom { .. } => 'r',
        ElementIR::TokenAtom { .. } => 't',
        ElementIR::CharSet { .. } => 'c',
    };
    (kind, e.id(), e.suffix())
}

/// Both lists hold the same elements, each once.
fn assert_same_set(got: Vec<ElementIR>, expected: Vec<ElementIR>) {
    let got: Vec<_> = got.iter().map(describe).collect();
    let expected: Vec<_> = expected.iter().map(describe).collect();
    assert_eq!(got.len(), expected.len(), "got {:?}, expected {:?}", got, expected);
    for e in &expected {
        assert!(got.contains(e), "got {:?}, expected {:?}", got, expected);
    }
}

#[test]
fn x() {
    let ir = parse(GRAMMAR);

    let x0_expected = vec![rule_atom(2, None), token_atom(0)];
    let x1_expected = vec![rule_atom(3, None), token_atom(1)];
    let x2_expected: Vec<ElementIR> = vec![];

    assert_same_set(ir.nth(0, 1).unwrap(), x0_expected);
    assert_same_set(ir.nth(1, 1).unwrap(), x1_expected);
    assert_same_set(ir.nth(2, 1).unwrap(), x2_expected);
}

#[test]
fn optional() {
    let ir = parse(GRAMMAR);

    let expected_0 = vec![
        rule_atom(2, Some(EBNFSuffix::Optional)),
        token_atom(0),
        rule_atom(3, None),
        token_atom(1),
    ];
    let expected_1 = vec![rule_atom(3, None), token_atom(1)];
    let expected_2: Vec<ElementIR> = vec![];

    assert_same_set(ir.nth(0, 4).unwrap(), expected_0);
    assert_same_set(ir.nth(1, 4).unwrap(), expected_1);
    assert_same_set(ir.nth(2, 4).unwrap(), expected_2);
}

#[test]
fn star() {
    let ir = parse(GRAMMAR);

    let expected_0 = vec![
        rule_atom(2, Some(EBNFSuffix::Star)),
        token_atom(0),
        rule_atom(3, None),
        token_atom(1),
    ];
    let expected_1 = vec![rule_atom(3, None), token_atom(1)];
    let expected_2: Vec<ElementIR> = vec![];

    assert_same_set(ir.nth(0, 5).unwrap(), expected_0);
    assert_same_set(ir.nth(1, 5).unwrap(), expected_1);
    assert_same_set(ir.nth(2, 5).unwrap(), expected_2);
}

#[test]
fn offset_check() {
    let ir = parse(GRAMMAR);

    println!("{:#?}", ir.symbols());

    let alt = ir.get_rule_alt(1, 0).unwrap();
    assert_eq!(alt.get().index(), 0);

    let mut nth_cache = NthCache::new();
    let n1 = nth(0, 0, (1, 0, 0), &mut Vec::new(), &mut nth_cache, &mut Vec::new(), ir.rules()).unwrap_or_default();
    assert_same_set(n1, vec![rule_atom(2, None), token_atom(0)]);
}

#[test]
fn missing_rule_has_no_lookahead() {
    let ir = parse(GRAMMAR);
    assert!(ir.nth(0, 6).is_none());
}

#[test]
fn alternatives_are_taken_together() {
    let ir = parse(GRAMMAR);
    // n: x y | y x — both alternatives start with a y, one of them through x.
    assert_same_set(
        ir.nth(0, 0).unwrap(),
        vec![rule_atom(1, None), rule_atom(2, None), token_atom(0)],
    );
}

#[test]
fn continuation_is_followed_after_a_rule_ends() {
    let ir = parse(GRAMMAR);
    // After x's y comes x's z, reached once y's alternative ends.
    let mut cache = NthCache::new();
    let mut continuation = Vec::new();
    let got = nth(1, 0, (1, 0, 0), &mut continuation, &mut cache, &mut Vec::new(), ir.rules()).unwrap_or_default();
    assert_same_set(got, vec![rule_atom(3, None), token_atom(1)]);
}
