use antlr_gen::ir::{AltIR, AntlrIR, ElementIR, MatchNode};
use antlr_gen::lex::Lexer;
use antlr_gen::matching::{match_alts, match_element, match_element_dumb, match_rule};
use antlr_gen::parse::Parser;
use antlr_gen::util::HashArc;

/// Parses a grammar and lowers it, naming each parser rule and each token
/// rule by its position.
fn parse(content: &str) -> AntlrIR {
    let lexer = Lexer::new(content.to_string());
    let mut parser = Parser::new(lexer).unwrap();
    let ast = parser.grammar_spec().unwrap();
    AntlrIR::new(&ast).unwrap()
}

const GRAMMAR: &str = "grammar matches;
s: z s x | LETTERB 'b' LETTERA 'a' | LETTERA 'a' LETTERB 'b';
z: LETTERC 'c' ;
x: LETTERN 'n' ;
LETTERA: 'a' ;
LETTERB: 'b' ;
LETTERN: 'n' ;
LETTERC: 'c' ;";

#[test]
fn match_alt0() {
    let ir = parse(GRAMMAR);

    let alt0 = ir.get_rule_alt(0, 0).unwrap();

    println!("{:#?}", ir.symbols());

    // z (rule 1), then s (rule 0), then x (rule 2), and the end of the alternative.
    assert_eq!(show(&match_element(alt0, 0, &ir)), "e0.0(r1)>e0.1(r0)>e0.2(r2)>end0");
}

#[test]
fn match_alt1() {
    let ir = parse(GRAMMAR);

    let alt1 = ir.get_rule_alt(0, 1).unwrap();

    let token_id = |name: &str| ir.symbols().get_token_id(&name.to_string()).unwrap();
    let strlit_id = |name: &str| ir.symbols().get_strlit_id(&name.to_string()).unwrap();

    let alt1_expected = format!(
        "e1.0(t{})>e1.1(t{})>e1.2(t{})>e1.3(t{})>end1",
        token_id("LETTERB"),
        strlit_id("b"),
        token_id("LETTERA"),
        strlit_id("a")
    );

    assert_eq!(show(&match_element(alt1, 0, &ir)), alt1_expected);
}

fn element(e: &ElementIR) -> String {
    match e {
        ElementIR::RuleAtom { id, .. } => format!("r{}", id),
        ElementIR::TokenAtom { id, .. } => format!("t{}", id),
        ElementIR::CharSet { .. } => "set".to_string(),
    }
}

/// A tree written out: `peek[token:tree,...]`, `e<alt>.<position>(<element>)>next`, `end<alt>`.
fn show(n: &MatchNode) -> String {
    match n {
        MatchNode::Peek { peek, fallback } => {
            let entries: Vec<String> = peek.iter().map(|(k, v)| format!("{}:{}", k, show(v))).collect();
            let fb = match fallback {
                Some(f) => format!("|{}", show(f)),
                None => String::new(),
            };
            format!("peek[{}]{}", entries.join(","), fb)
        },
        MatchNode::Element { alt, element_idx, element: e, next } => {
            format!("e{}.{}({})>{}", alt.get().index(), element_idx, element(e), show(next))
        },
        MatchNode::Finish { alt } => format!("end{}", alt.get().index()),
    }
}

fn alt(ir: &AntlrIR, rule: usize, alt: usize) -> HashArc<AltIR> {
    ir.get_rule_alt(rule, alt).unwrap()
}

#[test]
fn single_alternative_is_a_chain() {
    let ir = parse("s: a b ;\n a: 'x' ;\n b: 'y' ;\n");
    assert_eq!(show(&match_element(alt(&ir, 0, 0), 0, &ir)), "e0.0(r1)>e0.1(r2)>end0");
    assert_eq!(show(&match_element(alt(&ir, 0, 0), 2, &ir)), "end0");
    assert_eq!(show(&match_element_dumb(alt(&ir, 0, 0), 1, &ir)), "e0.1(r2)>end0");
}

#[test]
fn two_element_nodes_become_a_table_for_the_second() {
    // The merge of two element nodes keys the table by the tokens that can
    // start the second one; the first plays no part.
    let ir = parse("s: a b | a c ;\n a: 'x' ;\n b: 'y' ;\n c: 'z' ;\n");
    assert_eq!(show(&match_rule(&ir, 0)), "peek[0:e1.0(r1)>e1.1(r3)>end1]");
}

#[test]
fn skippable_element_is_merged_with_what_follows() {
    let ir = parse("o: 'x'? 'y' ;\n p: 'x' 'y'? 'z' ;\n");
    // 'x' = 0, 'y' = 1, 'z' = 2
    assert_eq!(show(&match_rule(&ir, 0)), "peek[1:e0.1(t1)>end0]");
    assert_eq!(show(&match_rule(&ir, 1)), "e0.0(t0)>peek[2:e0.2(t2)>end0]");
}

#[test]
fn element_nodes_join_a_table_under_their_token() {
    let ir = parse("q: 'x' | 'y' | 'x' 'z' ;\n");
    // 'x' = 0, 'y' = 1, 'z' = 2
    assert_eq!(show(&match_rule(&ir, 0)), "peek[1:e1.0(t1)>end1,0:e2.0(t0)>e2.1(t2)>end2]");
}

#[test]
fn element_node_merges_into_the_entry_for_its_token() {
    let ir = parse("q: 'x' | 'y' | 'x' 'z' | 'y' 'w' ;\n");
    // 'x' = 0, 'y' = 1, 'z' = 2, 'w' = 3
    assert_eq!(
        show(&match_rule(&ir, 0)),
        "peek[1:peek[1:e3.0(t1)>e3.1(t3)>end3],0:e2.0(t0)>e2.1(t2)>end2]"
    );
}

#[test]
fn match_alts_takes_the_alternatives_in_turn() {
    let ir = parse("q: 'x' | 'y' | 'x' 'z' ;\n");
    let alts = ir.get_rule(0).unwrap().alts();
    assert_eq!(show(&match_alts(&ir, alts)), "peek[1:e1.0(t1)>end1,0:e2.0(t0)>e2.1(t2)>end2]");
}

#[test]
fn finished_alternative_gives_way() {
    let ir = parse("s: 'x' ;\n");
    let mut node = MatchNode::Finish { alt: alt(&ir, 0, 0) };
    node.merge(match_element(alt(&ir, 0, 0), 0, &ir), &ir);
    assert_eq!(show(&node), "e0.0(t0)>end0");

    let mut node = match_element(alt(&ir, 0, 0), 0, &ir);
    node.merge(MatchNode::Finish { alt: alt(&ir, 0, 0) }, &ir);
    assert_eq!(show(&node), "e0.0(t0)>end0");
}

#[test]
fn tables_merge_entry_by_entry_and_fallbacks_too() {
    let ir = parse("q: 'x' | 'y' | 'z' ;\n");
    // 'x' = 0, 'y' = 1, 'z' = 2
    let e0 = match_element(alt(&ir, 0, 0), 0, &ir);
    let e1 = match_element(alt(&ir, 0, 1), 0, &ir);
    let e2 = match_element(alt(&ir, 0, 2), 0, &ir);
    let mut left = MatchNode::Peek {
        peek: vec![(0, e0)],
        fallback: Some(Box::new(MatchNode::Finish { alt: alt(&ir, 0, 0) })),
    };
    let right = MatchNode::Peek {
        peek: vec![(1, e1), (0, e2)],
        fallback: Some(Box::new(match_element(alt(&ir, 0, 2), 0, &ir))),
    };
    left.merge_peek_peek(right, &ir);
    assert_eq!(show(&left), "peek[0:peek[2:e2.0(t2)>end2],1:e1.0(t1)>end1]|e2.0(t2)>end2");
}

#[test]
fn element_merge_ignores_the_receiving_node() {
    let ir = parse("q: 'x' | 'y' ;\n");
    let mut node = match_element(alt(&ir, 0, 0), 0, &ir);
    node.merge_element_element(match_element(alt(&ir, 0, 1), 0, &ir), &ir);
    assert_eq!(show(&node), "peek[1:e1.0(t1)>end1]");
}

#[test]
fn peek_element_adds_a_new_token() {
    let ir = parse("q: 'x' | 'y' ;\n");
    let mut node = MatchNode::Peek { peek: vec![], fallback: None };
    node.merge_peek_element(match_element(alt(&ir, 0, 1), 0, &ir), &ir);
    assert_eq!(show(&node), "peek[1:e1.0(t1)>end1]");
}
