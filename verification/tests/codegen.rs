use antlr_gen::ast::EBNFSuffix;
use antlr_gen::codeset::CodeSet;
use antlr_gen::ir::{AltIR, AntlrIR, ElementIR, MatchNode, RuleIR};
use antlr_gen::langs::{self, c, rust};
use antlr_gen::symbols::SymbolTable;
use antlr_gen::util::HashArc;

fn rule_atom(id: usize, suffix: Option<EBNFSuffix>) -> ElementIR {
    ElementIR::RuleAtom { id, suffix }
}

fn token_atom(id: usize, suffix: Option<EBNFSuffix>) -> ElementIR {
    ElementIR::TokenAtom { id, suffix }
}

fn expr_alt() -> AltIR {
    AltIR::with_parts(0, Some(0), None, vec![rule_atom(1, None), token_atom(0, None)], None)
}

fn ir() -> AntlrIR {
    let mut table = SymbolTable::empty();
    table.insert_rule("expr".to_string(), 0).unwrap();
    table.insert_rule("term".to_string(), 1).unwrap();
    table.insert_token_rule("NUM".to_string(), 0).unwrap();
    let expr = RuleIR::with_parts(0, false, "expr".to_string(), false, vec![HashArc::new(expr_alt())]);
    let term = RuleIR::with_parts(
        1,
        false,
        "term".to_string(),
        false,
        vec![
            HashArc::new(AltIR::with_parts(0, Some(1), Some("num".to_string()), vec![token_atom(0, None)], None)),
            HashArc::new(AltIR::with_parts(1, Some(1), None, vec![], None)),
        ],
    );
    AntlrIR::from_parts(vec![expr, term], vec![], table)
}

#[test]
fn element_names() {
    let ir = ir();
    assert_eq!(langs::element_name(&ir, &rule_atom(1, None)), Some("term".to_string()));
    assert_eq!(langs::element_name(&ir, &token_atom(0, None)), Some("NUM".to_string()));
    assert_eq!(langs::element_name(&ir, &token_atom(7, None)), None);
    assert_eq!(langs::element_name(&ir, &rule_atom(9, None)), None);
    let set = ElementIR::CharSet { inverted: false, set: CodeSet::new(), suffix: None };
    assert_eq!(langs::element_name(&ir, &set), None);
    assert_eq!(langs::element_name_indexed(&ir, &rule_atom(1, None), 12), Some("term_12".to_string()));
}

#[test]
fn rust_type_brackets() {
    assert_eq!(langs::element_prefix(&rule_atom(1, None)), "Box<");
    assert_eq!(langs::element_suffix(&rule_atom(1, None)), ">");
    assert_eq!(langs::element_prefix(&rule_atom(1, Some(EBNFSuffix::Optional))), "Option<Box<");
    assert_eq!(langs::element_suffix(&rule_atom(1, Some(EBNFSuffix::Optional))), ">>");
    assert_eq!(langs::element_prefix(&rule_atom(1, Some(EBNFSuffix::Plus))), "Vec<");
    assert_eq!(langs::element_suffix(&rule_atom(1, Some(EBNFSuffix::Star))), ">");
    assert_eq!(langs::element_prefix(&token_atom(0, None)), "");
    assert_eq!(langs::element_suffix(&token_atom(0, Some(EBNFSuffix::Plus))), "");
}

#[test]
fn join_puts_separators_between() {
    assert_eq!(langs::join(&vec![], ", "), "");
    assert_eq!(langs::join(&vec!["a".to_string()], ", "), "a");
    assert_eq!(langs::join(&vec!["a".to_string(), "b".to_string(), "c".to_string()], ", "), "a, b, c");
}

#[test]
fn c_element_types_and_declarations() {
    let ir = ir();
    assert_eq!(c::element_type(&ir, &rule_atom(1, None)), "Term*");
    assert_eq!(c::element_type(&ir, &rule_atom(1, Some(EBNFSuffix::Star))), "Array *");
    assert_eq!(c::element_type(&ir, &token_atom(0, Some(EBNFSuffix::Optional))), "Token*");
    assert_eq!(c::element_decl(&ir, &rule_atom(1, None), 0), Some("Term* term_0".to_string()));
    assert_eq!(c::element_decl(&ir, &token_atom(0, Some(EBNFSuffix::Plus)), 3), Some("Array * NUM_3".to_string()));
    assert_eq!(c::element_decl(&ir, &token_atom(5, None), 3), None);
    assert_eq!(
        c::match_element_initializer(&ir, &rule_atom(1, None), 2),
        Some("Term* term_2 = NULL;".to_string())
    );
    assert_eq!(
        c::match_element_initializer(&ir, &token_atom(0, Some(EBNFSuffix::Star)), 4),
        Some("Array* NUM_4 = (Array*) malloc(sizeof(Array));".to_string())
    );
}

#[test]
fn rust_element_declarations() {
    let ir = ir();
    assert_eq!(rust::element_decl(&ir, &rule_atom(1, Some(EBNFSuffix::Optional)), 0), Some("term_0: Option<Box<Term>>".to_string()));
    assert_eq!(rust::element_decl(&ir, &token_atom(0, Some(EBNFSuffix::Star)), 1), Some("NUM_1: Vec<Token>".to_string()));
    assert_eq!(rust::element_decl(&ir, &token_atom(0, None), 1), Some("NUM_1: Token".to_string()));
    assert_eq!(rust::match_element_initializer(&ir, &token_atom(0, None), 1), None);
    assert_eq!(
        rust::match_element_initializer(&ir, &token_atom(0, Some(EBNFSuffix::Optional)), 1),
        Some("let NUM_1: Option<Token> = None;".to_string())
    );
}

#[test]
fn c_rule_declarations() {
    let ir = ir();
    assert_eq!(c::rule_typedef(&ir, 0), "typedef struct Expr Expr;");
    assert_eq!(c::rule_parser_decl(&ir, 1), "Term* parse_term(Parser* parser);");
    assert_eq!(
        c::rule_struct_decl(&ir, 0),
        "struct Expr {\n            uint8_t;\n            Term* term_0;\nToken* NUM_1;\n        };\n        "
    );
    assert_eq!(c::rule_type(&ir, 0), c::rule_struct_decl(&ir, 0));
    assert_eq!(
        c::rule_enum(&ir, 1),
        "pub enum Term {\n            num {\n            Token* NUM_0\n        }\n        ,Alt1 {\n            \n        }\n        \n        }\n        "
    );
}

#[test]
fn rust_rule_types() {
    let ir = ir();
    assert_eq!(
        rust::rule_struct(&ir, 0),
        "pub struct Expr {\n            term_0: Box<Term>,\nNUM_1: Token\n        }\n\n        impl Expr {\n            pub fn new(term_0: Box<Term>,\nNUM_1: Token) -> Expr {\n                Expr {\n                    term_0,NUM_1\n                }\n            }\n        }\n        "
    );
    assert_eq!(rust::rule_type(&ir, 1), rust::rule_enum(&ir, 1));
}

fn chain() -> MatchNode {
    MatchNode::Element {
        alt: HashArc::new(expr_alt()),
        element_idx: 0,
        element: rule_atom(1, None),
        next: Box::new(MatchNode::Element {
            alt: HashArc::new(expr_alt()),
            element_idx: 1,
            element: token_atom(0, None),
            next: Box::new(MatchNode::Finish { alt: HashArc::new(expr_alt()) }),
        }),
    }
}

#[test]
fn c_match_tree() {
    let ir = ir();
    assert_eq!(
        c::match_node(&ir, &chain()),
        "term_0 = parse_term(parser);\nNUM_1 = match_token(parser, 0);\nreturn new_expr(term_0, NUM_1);\n            "
    );
    let peek = MatchNode::Peek { peek: vec![(0, MatchNode::Finish { alt: HashArc::new(expr_alt()) })], fallback: None };
    assert_eq!(
        c::match_node(&ir, &peek),
        "Token* next_token = peek(parser);\n        if (next_token == NULL) {\n            errno = ERANGE;\n            return NULL;\n        }\n        \n        switch (next_token->token_type) {\n            \n            case 0: {\n                \n                return new_expr(term_0, NUM_1);\n            \n                break;\n            }\n        \n            default:\n                exit(-1);\n        }\n        "
    );
}

#[test]
fn c_match_of_repeated_and_unnamed_tokens() {
    let ir = ir();
    let finish = || Box::new(MatchNode::Finish { alt: HashArc::new(expr_alt()) });
    assert_eq!(
        c::match_element(&ir, &HashArc::new(expr_alt()), &token_atom(3, Some(EBNFSuffix::Star)), 0, &finish()),
        "while (match_token(parser, 3) != NULL) {}\nreturn new_expr(term_0, NUM_1);\n            "
    );
    assert_eq!(
        c::match_element(&ir, &HashArc::new(expr_alt()), &rule_atom(1, Some(EBNFSuffix::Plus)), 2, &finish()),
        "Term* __item_2 = NULL;\n                        while ((__item_2 = parse_term(parser)) != NULL) { push(term_2, __item_2); }\nreturn new_expr(term_0, NUM_1);\n            "
    );
}

#[test]
fn c_finish_of_a_rule_with_variants() {
    let ir = ir();
    let alt = HashArc::new(AltIR::with_parts(1, Some(1), None, vec![token_atom(0, None), rule_atom(0, None)], None));
    assert_eq!(c::match_finish(&ir, &alt), "return new_term_alt1(NUM_0,\nexpr_1);\n            ");
}

#[test]
fn rust_match_tree() {
    let ir = ir();
    assert_eq!(
        rust::match_node(&ir, &chain()),
        "let term_0 = Box::new(self.term()?);\nlet NUM_1 = self.match_token(0)?.clone();\nExpr::new (\n                term_0,\nNUM_1\n            )\n            "
    );
    let alt = HashArc::new(AltIR::with_parts(0, Some(1), Some("num".to_string()), vec![token_atom(0, None)], None));
    assert_eq!(rust::match_finish(&ir, &alt), "Term::num {\n                NUM_0\n            }\n            ");
}

#[test]
fn rust_match_steps() {
    let ir = ir();
    let element = MatchNode::Element {
        alt: HashArc::new(expr_alt()),
        element_idx: 0,
        element: rule_atom(1, Some(EBNFSuffix::Optional)),
        next: Box::new(MatchNode::Finish { alt: HashArc::new(expr_alt()) }),
    };
    assert_eq!(rust::match_node_internal(&ir, &element), "let term = Some(self.term());");
    assert_eq!(
        rust::match_node_internal(&ir, &MatchNode::Finish { alt: HashArc::new(expr_alt()) }),
        "expr::Alt0 {\n                                term: term.map(Box::new),\nNUM,\n                            }\n                            "
    );
    let peek = MatchNode::Peek { peek: vec![(4, element)], fallback: None };
    assert_eq!(
        rust::match_node_internal(&ir, &peek),
        "match self.peek().map(|t| t.token_type) {\n                            Some(4) => {\n                                let term = Some(self.term());\n                            },\n                            \n                        }\n                        "
    );
}

#[test]
fn headers() {
    assert_eq!(rust::header(), rust::RUST_HEADER);
    assert!(rust::parse_header().starts_with("#![allow(unused, nonstandard_style)]"));
    assert!(rust::lexer_header().contains("pub struct Lexer {"));
    let source = c::source_file_header("out/parser.h");
    assert!(source.starts_with("#include <stdlib.h>"));
    assert!(source.contains("#include \"out/parser.h\"\n"));
    assert!(source.contains("Token* match_token(Parser* parser, uint32_t token_type) {"));
    assert!(c::header_file_header().starts_with("typedef struct Token Token;"));
}

#[test]
fn c_constructors() {
    let ir = ir();
    assert_eq!(c::rule_struct_ctor_decl(&ir, 0), "Expr* new_expr(Term* term_0, Token* NUM_1)");
    assert_eq!(
        c::rule_struct_ctor(&ir, 0),
        "\n            Expr* new_expr(Term* term_0, Token* NUM_1) {\n                Expr {\n                    Term* term_0;\nToken* NUM_1;\n                }\n            }\n            "
    );
    let decl = "Term* new_term_alt0(Token* NUM_0)Term* new_term_alt1()";
    assert_eq!(c::rule_struct_ctor_decl(&ir, 1), decl);
    assert_eq!(
        c::rule_struct_ctor(&ir, 1),
        format!(
            "\n                {} {{\n                    return Term {{\n                        Token* NUM_0;\n                    }};\n                }}\n                \n                {} {{\n                    return Term {{\n                        \n                    }};\n                }}\n                ",
            decl, decl
        )
    );
}

#[test]
fn rust_rule_parser() {
    let ir = ir();
    assert_eq!(
        rust::rule_parser(&ir, 0),
        "pub fn expr(&mut self) -> Result<Expr, ANTLRError> {\n            self.rule_stack.push_back(0);\n\n            let __result = {\n                \n                let term_0 = Box::new(self.term()?);\nlet NUM_1 = self.match_token(0)?.clone();\nExpr::new (\n                term_0,\nNUM_1\n            )\n            \n            };\n\n            self.rule_stack.pop_back();\n            Ok(__result)\n        }"
    );
}

#[test]
fn c_rule_parser() {
    let ir = ir();
    assert_eq!(
        c::rule_parser(&ir, 0),
        "Expr* parse_expr(Parser* parser) {\n            Term* term_0 = NULL;\nToken* NUM_1 = NULL;\n            term_0 = parse_term(parser);\nNUM_1 = match_token(parser, 0);\nreturn new_expr(term_0, NUM_1);\n            \n        }"
    );
}

#[test]
fn rust_files() {
    let ir = ir();
    let files = rust::render(&ir);
    assert_eq!(files.len(), 2);
    assert_eq!(files[0].path(), "parser.rs");
    let parsers = format!("{}\n{}", rust::rule_parser(&ir, 0), rust::rule_parser(&ir, 1));
    let types = format!("{}\n{}", rust::rule_type(&ir, 0), rust::rule_type(&ir, 1));
    assert_eq!(
        files[0].content(),
        &format!(
            "\n                {}\n                impl Parser {{\n                    {}\n                }}\n                \n                {}\n                ",
            rust::parse_header(),
            parsers,
            types
        )
    );
    assert_eq!(files[1].path(), "lexer.rs");
    assert!(files[1].content().contains("pub fn next() -> Token {\n                        // lexer match here"));
}

#[test]
fn c_files() {
    let ir = ir();
    let files = c::render(&ir, "out/out.c".to_string(), "out/out.h".to_string());
    assert_eq!(files.len(), 2);
    assert_eq!(files[0].path(), "out/out.c");
    assert_eq!(files[1].path(), "out/out.h");
    let source = files[0].content();
    assert!(source.starts_with(&format!("\n            {}", c::source_file_header("out/out.h"))));
    assert!(source.contains(&c::rule_parser(&ir, 1)));
    assert!(source.ends_with(&format!("{}\n            ", c::rule_struct_ctor(&ir, 1))));
    let header = files[1].content();
    assert!(header.starts_with(&format!("{}\n        typedef struct Expr Expr;\ntypedef struct Term Term;", c::header_file_header())));
}
