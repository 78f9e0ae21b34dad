use vstd::prelude::*;
use vstd::string::StringExecFns;

use crate::ast::EBNFSuffix;
use crate::ir::{
    elements_ir_view, opt_view, AltIR, AltIRModel, AntlrIR, AntlrIRModel, ElementIR, ElementIRModel,
    peek_view, MatchNode, MatchNodeModel,
};
use crate::matching::{match_rule, rule_tree, rules_placed};
use crate::nth::rules_closed;
use crate::symbols::id_lookup;
use crate::util::HashArc;
use crate::langs::{
    element_name, element_name_indexed, element_name_of, element_names, element_names_of,
    indexed_name, join, joined,
};
use crate::symbols::strings_view;
use crate::langs::OutputFile;
use crate::text::{decimal, decimal_string};
use crate::util::{capitalize, capitalized};

verus! {

/// What comes before the header's path in a generated C source file.
pub const C_SOURCE_PREFIX: &'static str = "#include <stdlib.h>
        #include <stddef.h>
        #include <stdint.h>
        #include <errno.h>

        #include \"";

/// What comes after the header's path in a generated C source file: the token
/// helpers every parser uses.
pub const C_SOURCE_SUFFIX: &'static str = "\"

        Token* get_token(Parser* parser, uint32_t index) {
            if (parser->token_count <= index) {
                errno = ERANGE;
                return NULL;
            }

            return parser->tokens + index;
        }

        Token* peek(Parser* parser) {
            return get_token(parser, parser->head + 1);
            }

        Token* match_token(Parser* parser, uint32_t token_type) {
            Token* token = get_token(parser, parser->head);
            if (token == NULL) {
                return NULL;
            }

            if (token->token_type == token_type) {
                parser->head += 1;
                return token;
            }

            return NULL;
        }

        void push(Array* array, void* element) {
        }
        ";

/// The type declarations that open a generated C header file.
pub const C_HEADER_FILE_HEADER: &'static str = "typedef struct Token Token;
    typedef struct Parser Parser;
    typedef struct Array Array;

    struct Token {
    uint32_t token_type;

    char *text;
    uint32_t text_len;
    };

    struct Parser {
    uint32_t head;
    uint32_t token_count;
    Token *tokens;
    };
    
    struct Array {
        void** head;
    };
    ";

/// The opening of a generated C source file: the includes, with the generated
/// header included by its path, and the token helpers.
pub fn source_file_header(header_path: &str) -> (s: String)
    ensures
        s@ == C_SOURCE_PREFIX@ + header_path@ + C_SOURCE_SUFFIX@,
{
    let mut s = String::from_str(C_SOURCE_PREFIX);
    s.append(header_path);
    s.append(C_SOURCE_SUFFIX);
    s
}

/// The opening of a generated C header file.
pub fn header_file_header() -> (s: String)
    ensures
        s@ == C_HEADER_FILE_HEADER@,
{
    String::from_str(C_HEADER_FILE_HEADER)
}

/// The C type of an element's field: an array for repeated elements, a pointer
/// to the rule's struct for a rule, a token pointer otherwise.
pub open spec fn element_type_of(ir: AntlrIRModel, e: ElementIRModel) -> Seq<char> {
    match e.suffix() {
        Some(EBNFSuffix::Plus) | Some(EBNFSuffix::Star) => "Array *"@,
        _ => match e {
            ElementIRModel::RuleAtom { .. } => capitalized(element_name_of(ir, e)->Some_0) + "*"@,
            _ => "Token*"@,
        },
    }
}

/// The C field declaration of an element, where the element has a name.
pub open spec fn element_decl_of(ir: AntlrIRModel, e: ElementIRModel, idx: usize) -> Option<
    Seq<char>,
> {
    match element_name_of(ir, e) {
        Some(n) => Some(element_type_of(ir, e) + " "@ + indexed_name(n, idx)),
        None => None,
    }
}

/// The field declarations of a list of elements, skipping those without a name.
pub open spec fn element_decls_of(ir: AntlrIRModel, es: Seq<ElementIRModel>) -> Seq<Seq<char>>
    decreases es.len(),
{
    if es.len() == 0 {
        Seq::empty()
    } else {
        element_decls_of(ir, es.drop_last()) + match element_decl_of(
            ir,
            es.last(),
            (es.len() - 1) as usize,
        ) {
            Some(d) => seq![d],
            None => Seq::empty(),
        }
    }
}

pub fn element_type(ir: &AntlrIR, element: &ElementIR) -> (s: String)
    requires
        element@ is RuleAtom ==> element_name_of(ir@, element@) is Some,
    ensures
        s@ == element_type_of(ir@, element@),
{
    let e_type = match element {
        ElementIR::RuleAtom { .. } => {
            let name = match element_name(ir, element) {
                Some(n) => n,
                None => {
                    assert(false);
                    String::new()
                },
            };
            let mut t = capitalize(name);
            t.append("*");
            t
        },
        _ => String::from_str("Token*"),
    };
    match element.suffix() {
        Some(EBNFSuffix::Plus) | Some(EBNFSuffix::Star) => String::from_str("Array *"),
        _ => e_type,
    }
}

pub fn element_decl(ir: &AntlrIR, element: &ElementIR, element_idx: usize) -> (r: Option<String>)
    ensures
        opt_view(r) == element_decl_of(ir@, element@, element_idx),
{
    let name = match element_name(ir, element) {
        Some(n) => n,
        None => return None,
    };
    let mut decl = element_type(ir, element);
    decl.append(" ");
    decl.append(name.as_str());
    decl.append("_");
    let digits = decimal_string(element_idx);
    decl.append(digits.as_str());
    Some(decl)
}

/// The field declarations of the elements, in order, skipping those without a
/// name.
fn element_decls(ir: &AntlrIR, elements: &Vec<ElementIR>) -> (v: Vec<String>)
    ensures
        strings_view(v@) == element_decls_of(ir@, elements_ir_view(elements@)),
{
    let ghost es = elements_ir_view(elements@);
    let mut out: Vec<String> = Vec::new();
    let mut i: usize = 0;
    assert(es.take(0) =~= Seq::<ElementIRModel>::empty());
    while i < elements.len()
        invariant
            es == elements_ir_view(elements@),
            i <= elements.len(),
            strings_view(out@) == element_decls_of(ir@, es.take(i as int)),
        decreases elements.len() - i,
    {
        let ghost before = strings_view(out@);
        proof {
            let t = es.take(i + 1);
            assert(t.drop_last() =~= es.take(i as int));
            assert(t.last() == es[i as int]);
        }
        match element_decl(ir, &elements[i], i) {
            Some(d) => {
                out.push(d);
                assert(strings_view(out@) =~= before + seq![d@]);
            },
            None => {
                assert(strings_view(out@) =~= before + Seq::<Seq<char>>::empty());
            },
        }
        i += 1;
    }
    assert(es.take(elements.len() as int) =~= es);
    out
}

/// The declarations of a rule's parser function.
pub fn rule_parser_decl(ir: &AntlrIR, rule: usize) -> (s: String)
    requires
        rule < ir@.rules.len(),
    ensures
        s@ == capitalized(ir@.rules[rule as int].name) + "* parse_"@ + ir@.rules[rule as int].name
            + "(Parser* parser);"@,
{
    let name = match ir.get_rule(rule) {
        Some(r) => r.name().clone(),
        None => {
            assert(false);
            String::new()
        },
    };
    let mut s = capitalize(name.clone());
    s.append("* parse_");
    s.append(name.as_str());
    s.append("(Parser* parser);");
    s
}

/// The typedef that names a rule's struct.
pub fn rule_typedef(ir: &AntlrIR, rule_idx: usize) -> (s: String)
    requires
        rule_idx < ir@.rules.len(),
    ensures
        s@ == "typedef struct "@ + capitalized(ir@.rules[rule_idx as int].name) + " "@ + capitalized(
            ir@.rules[rule_idx as int].name,
        ) + ";"@,
{
    let name = match ir.get_rule(rule_idx) {
        Some(r) => r.name().clone(),
        None => {
            assert(false);
            String::new()
        },
    };
    let cap = capitalize(name);
    let mut s = String::from_str("typedef struct ");
    s.append(cap.as_str());
    s.append(" ");
    s.append(cap.as_str());
    s.append(";");
    s
}

/// The fields of a struct, each ended by a semicolon.
pub open spec fn fields_of(decls: Seq<Seq<char>>) -> Seq<char> {
    joined(decls, ";\n"@) + if decls.len() > 0 {
        ";"@
    } else {
        Seq::empty()
    }
}

/// The struct declaration of a rule, with a padding byte and a field for each
/// named element of its first alternative.
pub open spec fn rule_struct_decl_of(ir: AntlrIRModel, rule_idx: int) -> Seq<char> {
    let r = ir.rules[rule_idx];
    "struct "@ + capitalized(r.name) + " {\n            uint8_t;\n            "@ + fields_of(
        element_decls_of(ir, r.alts[0].elements),
    ) + "\n        };\n        "@
}

pub fn rule_struct_decl(ir: &AntlrIR, rule_idx: usize) -> (s: String)
    requires
        rule_idx < ir@.rules.len(),
        ir@.rules[rule_idx as int].alts.len() > 0,
    ensures
        s@ == rule_struct_decl_of(ir@, rule_idx as int),
{
    let rule = match ir.get_rule(rule_idx) {
        Some(r) => r,
        None => {
            assert(false);
            return String::new();
        },
    };
    let name = rule.name().clone();
    let alt = rule.alts()[0].get();
    assert(alt@ == ir@.rules[rule_idx as int].alts[0]);
    let decls = element_decls(ir, alt.elements());
    let mut elements = join(&decls, ";\n");
    if decls.len() > 0 {
        elements.append(";");
    }
    let mut s = String::from_str("struct ");
    let cap = capitalize(name);
    s.append(cap.as_str());
    s.append(" {\n            uint8_t;\n            ");
    s.append(elements.as_str());
    s.append("\n        };\n        ");
    s
}

/// The label of an alternative, or `Alt` and its position when it has none.
pub open spec fn alt_label_of(a: AltIRModel) -> Seq<char> {
    match a.label {
        Some(l) => l,
        None => "Alt"@ + decimal(a.index as nat),
    }
}

/// The variant of a rule's enum for one alternative.
pub open spec fn rule_enum_alt_of(ir: AntlrIRModel, a: AltIRModel) -> Seq<char> {
    alt_label_of(a) + " {\n            "@ + joined(element_decls_of(ir, a.elements), ","@)
        + "\n        }\n        "@
}

pub fn rule_enum_alt(ir: &AntlrIR, alt: &AltIR) -> (s: String)
    ensures
        s@ == rule_enum_alt_of(ir@, alt@),
{
    let mut s = match alt.label() {
        Some(l) => l.clone(),
        None => {
            let mut l = String::from_str("Alt");
            let digits = decimal_string(alt.index());
            l.append(digits.as_str());
            l
        },
    };
    let decls = element_decls(ir, alt.elements());
    let elements = join(&decls, ",");
    s.append(" {\n            ");
    s.append(elements.as_str());
    s.append("\n        }\n        ");
    s
}

/// The enum of a rule with several alternatives, a variant for each.
pub open spec fn rule_enum_of(ir: AntlrIRModel, rule: int) -> Seq<char> {
    let r = ir.rules[rule];
    "pub enum "@ + capitalized(r.name) + " {\n            "@ + joined(
        r.alts.map_values(|a: AltIRModel| rule_enum_alt_of(ir, a)),
        ","@,
    ) + "\n        }\n        "@
}

pub fn rule_enum(ir: &AntlrIR, rule: usize) -> (s: String)
    requires
        rule < ir@.rules.len(),
    ensures
        s@ == rule_enum_of(ir@, rule as int),
{
    let r = match ir.get_rule(rule) {
        Some(r) => r,
        None => {
            assert(false);
            return String::new();
        },
    };
    let alts = r.alts();
    let ghost av = ir@.rules[rule as int].alts;
    let mut parts: Vec<String> = Vec::new();
    let mut i: usize = 0;
    while i < alts.len()
        invariant
            crate::ir::alts_ir_view(alts@) == av,
            i <= alts.len(),
            strings_view(parts@) == av.take(i as int).map_values(
                |a: AltIRModel| rule_enum_alt_of(ir@, a),
            ),
        decreases alts.len() - i,
    {
        let ghost before = strings_view(parts@);
        let alt = alts[i].get();
        assert(alt@ == av[i as int]);
        let part = rule_enum_alt(ir, alt);
        let ghost pv = part@;
        parts.push(part);
        assert(strings_view(parts@) =~= before.push(pv));
        assert(av.take(i + 1) =~= av.take(i as int).push(av[i as int]));
        assert(strings_view(parts@) =~= av.take(i + 1).map_values(
            |a: AltIRModel| rule_enum_alt_of(ir@, a),
        ));
        i += 1;
    }
    assert(av.take(alts.len() as int) =~= av);
    let body = join(&parts, ",");
    let mut s = String::from_str("pub enum ");
    let cap = capitalize(r.name().clone());
    s.append(cap.as_str());
    s.append(" {\n            ");
    s.append(body.as_str());
    s.append("\n        }\n        ");
    s
}

/// The type of a rule: a struct for a single alternative, an enum otherwise.
pub fn rule_type(ir: &AntlrIR, rule: usize) -> (s: String)
    requires
        rule < ir@.rules.len(),
    ensures
        s@ == if ir@.rules[rule as int].alts.len() == 1 {
            rule_struct_decl_of(ir@, rule as int)
        } else {
            rule_enum_of(ir@, rule as int)
        },
{
    let r = match ir.get_rule(rule) {
        Some(r) => r,
        None => {
            assert(false);
            return String::new();
        },
    };
    if r.alts().len() == 1 {
        rule_struct_decl(ir, rule)
    } else {
        rule_enum(ir, rule)
    }
}

/// The line that readies an element's variable before matching: null for one
/// that may be missing, a fresh array for a repeated one.
pub open spec fn initializer_of(ir: AntlrIRModel, e: ElementIRModel, idx: usize) -> Option<Seq<char>> {
    match e.suffix() {
        Some(EBNFSuffix::Plus) | Some(EBNFSuffix::Star) => match element_name_of(ir, e) {
            Some(n) => Some(
                "Array* "@ + indexed_name(n, idx) + " = (Array*) malloc(sizeof(Array));"@,
            ),
            None => None,
        },
        _ => match element_decl_of(ir, e, idx) {
            Some(d) => Some(d + " = NULL;"@),
            None => None,
        },
    }
}

/// The initializers of a list of elements, skipping those without a name.
pub open spec fn initializers_of(ir: AntlrIRModel, es: Seq<ElementIRModel>) -> Seq<Seq<char>>
    decreases es.len(),
{
    if es.len() == 0 {
        Seq::empty()
    } else {
        initializers_of(ir, es.drop_last()) + match initializer_of(
            ir,
            es.last(),
            (es.len() - 1) as usize,
        ) {
            Some(d) => seq![d],
            None => Seq::empty(),
        }
    }
}

pub fn match_element_initializer(ir: &AntlrIR, element: &ElementIR, element_idx: usize) -> (r:
    Option<String>)
    ensures
        opt_view(r) == initializer_of(ir@, element@, element_idx),
{
    match element.suffix() {
        Some(EBNFSuffix::Plus) | Some(EBNFSuffix::Star) => match element_name_indexed(
            ir,
            element,
            element_idx,
        ) {
            Some(n) => {
                let mut s = String::from_str("Array* ");
                s.append(n.as_str());
                s.append(" = (Array*) malloc(sizeof(Array));");
                Some(s)
            },
            None => None,
        },
        _ => match element_decl(ir, element, element_idx) {
            Some(mut d) => {
                d.append(" = NULL;");
                Some(d)
            },
            None => None,
        },
    }
}

fn initializers(ir: &AntlrIR, elements: &Vec<ElementIR>) -> (v: Vec<String>)
    ensures
        strings_view(v@) == initializers_of(ir@, elements_ir_view(elements@)),
{
    let ghost es = elements_ir_view(elements@);
    let mut out: Vec<String> = Vec::new();
    let mut i: usize = 0;
    assert(es.take(0) =~= Seq::<ElementIRModel>::empty());
    while i < elements.len()
        invariant
            es == elements_ir_view(elements@),
            i <= elements.len(),
            strings_view(out@) == initializers_of(ir@, es.take(i as int)),
        decreases elements.len() - i,
    {
        let ghost before = strings_view(out@);
        proof {
            let t = es.take(i + 1);
            assert(t.drop_last() =~= es.take(i as int));
            assert(t.last() == es[i as int]);
        }
        match match_element_initializer(ir, &elements[i], i) {
            Some(d) => {
                out.push(d);
                assert(strings_view(out@) =~= before + seq![d@]);
            },
            None => {
                assert(strings_view(out@) =~= before + Seq::<Seq<char>>::empty());
            },
        }
        i += 1;
    }
    assert(es.take(elements.len() as int) =~= es);
    out
}

/// The code that matches one element: a call of the rule's parser, a token
/// match, or a loop for a repeated one.
pub open spec fn element_match_of(ir: AntlrIRModel, e: ElementIRModel, idx: usize) -> Seq<char> {
    let i = decimal(idx as nat);
    match e {
        ElementIRModel::RuleAtom { suffix, .. } => {
            let n = element_name_of(ir, e)->Some_0;
            match suffix {
                Some(EBNFSuffix::Plus) | Some(EBNFSuffix::Star) => capitalized(n) + "* __item_"@ + i
                    + " = NULL;\n                        while ((__item_"@ + i + " = parse_"@ + n
                    + "(parser)) != NULL) { push("@ + indexed_name(n, idx) + ", __item_"@ + i
                    + "); }"@,
                _ => indexed_name(n, idx) + " = parse_"@ + n + "(parser);"@,
            }
        },
        ElementIRModel::TokenAtom { id, suffix } => {
            let t = decimal(id as nat);
            match id_lookup(ir.symbols.tokens, id) {
                Some(n) => match suffix {
                    Some(EBNFSuffix::Plus) | Some(EBNFSuffix::Star) => "Token* __item_"@ + i
                        + " = NULL;\n                        while ((__item_"@ + i
                        + " = match_token(parser, "@ + t + ")) != NULL) { push("@ + indexed_name(
                        n,
                        idx,
                    ) + ", __item_"@ + i + "); }"@,
                    _ => indexed_name(n, idx) + " = match_token(parser, "@ + t + ");"@,
                },
                None => match suffix {
                    Some(EBNFSuffix::Plus) | Some(EBNFSuffix::Star) => "while (match_token(parser, "@
                        + t + ") != NULL) {}"@,
                    _ => "match_token(parser, "@ + t + ");"@,
                },
            }
        },
        ElementIRModel::CharSet { .. } => "// Set placeholder\n"@,
    }
}

/// The code that ends an alternative: a call of the constructor of its rule,
/// or of its variant when the rule has several alternatives.
pub open spec fn finish_of(ir: AntlrIRModel, alt: AltIRModel) -> Seq<char> {
    let parent = ir.rules[alt.parent_rule->Some_0 as int];
    if parent.alts.len() > 1 {
        let label = match alt.label {
            Some(l) => l,
            None => "alt"@ + decimal(alt.index as nat),
        };
        "return new_"@ + parent.name + "_"@ + label + "("@ + joined(
            element_names_of(ir, alt.elements),
            ",\n"@,
        ) + ");\n            "@
    } else {
        "return new_"@ + parent.name + "("@ + joined(element_names_of(ir, alt.elements), ", "@)
            + ");\n            "@
    }
}

/// The code of a decision tree.
pub open spec fn node_of(ir: AntlrIRModel, n: MatchNodeModel) -> Seq<char>
    decreases n, 0nat,
{
    match n {
        MatchNodeModel::Peek { peek, .. } => "Token* next_token = peek(parser);\n        if (next_token == NULL) {\n            errno = ERANGE;\n            return NULL;\n        }\n        \n        switch (next_token->token_type) {\n            "@
            + joined(cases_of(ir, peek), "\n"@)
            + "\n            default:\n                exit(-1);\n        }\n        "@,
        MatchNodeModel::Element { element, element_idx, next, .. } => element_match_of(
            ir,
            element,
            element_idx,
        ) + "\n"@ + node_of(ir, *next),
        MatchNodeModel::Finish { alt } => finish_of(ir, alt),
    }
}

/// The cases of a switch on the next token, one for each entry.
pub open spec fn cases_of(ir: AntlrIRModel, ps: Seq<(usize, MatchNodeModel)>) -> Seq<Seq<char>>
    decreases ps, 0nat,
{
    if ps.len() == 0 {
        Seq::empty()
    } else {
        cases_of(ir, ps.drop_last()) + seq![case_of(ir, ps.last().0, ps.last().1)]
    }
}

/// One case of a switch: the initializers of the alternative that the entry
/// goes on with, then its code.
pub open spec fn case_of(ir: AntlrIRModel, key: usize, v: MatchNodeModel) -> Seq<char>
    decreases v, 1nat,
{
    let inits = match v {
        MatchNodeModel::Element { alt, .. } => joined(initializers_of(ir, alt.elements), "\n"@),
        _ => Seq::empty(),
    };
    "\n            case "@ + decimal(key as nat) + ": {\n                "@ + inits
        + "\n                "@ + node_of(ir, v) + "\n                break;\n            }\n        "@
}

/// Every rule a tree calls exists, and every alternative it finishes belongs to
/// an existing rule.
pub open spec fn node_renders(ir: AntlrIRModel, n: MatchNodeModel) -> bool
    decreases n,
{
    match n {
        MatchNodeModel::Peek { peek, .. } => forall|i: int|
            0 <= i < peek.len() ==> node_renders(ir, #[trigger] peek[i].1),
        MatchNodeModel::Element { element, next, .. } => (element is RuleAtom ==> element_name_of(
            ir,
            element,
        ) is Some) && node_renders(ir, *next),
        MatchNodeModel::Finish { alt } => alt.parent_rule is Some && alt.parent_rule->Some_0
            < ir.rules.len(),
    }
}

pub fn match_element(
    ir: &AntlrIR,
    alt: &HashArc<AltIR>,
    element: &ElementIR,
    element_idx: usize,
    next: &MatchNode,
) -> (s: String)
    requires
        element@ is RuleAtom ==> element_name_of(ir@, element@) is Some,
        node_renders(ir@, next@),
    ensures
        s@ == element_match_of(ir@, element@, element_idx) + "\n"@ + node_of(ir@, next@),
    decreases next@, 1nat,
{
    let idx = decimal_string(element_idx);
    let mut text = match element {
        ElementIR::RuleAtom { suffix, .. } => {
            let name = match element_name(ir, element) {
                Some(n) => n,
                None => {
                    assert(false);
                    String::new()
                },
            };
            let name_indexed = match element_name_indexed(ir, element, element_idx) {
                Some(n) => n,
                None => {
                    assert(false);
                    String::new()
                },
            };
            match suffix {
                Some(EBNFSuffix::Plus) | Some(EBNFSuffix::Star) => {
                    let mut t = capitalize(name.clone());
                    t.append("* __item_");
                    t.append(idx.as_str());
                    t.append(" = NULL;\n                        while ((__item_");
                    t.append(idx.as_str());
                    t.append(" = parse_");
                    t.append(name.as_str());
                    t.append("(parser)) != NULL) { push(");
                    t.append(name_indexed.as_str());
                    t.append(", __item_");
                    t.append(idx.as_str());
                    t.append("); }");
                    t
                },
                _ => {
                    let mut t = name_indexed;
                    t.append(" = parse_");
                    t.append(name.as_str());
                    t.append("(parser);");
                    t
                },
            }
        },
        ElementIR::TokenAtom { id, suffix } => {
            let token = decimal_string(*id);
            match ir.symbols().get_token_name(*id) {
                Some(_) => {
                    let name_indexed = match element_name_indexed(ir, element, element_idx) {
                        Some(n) => n,
                        None => {
                            assert(false);
                            String::new()
                        },
                    };
                    match suffix {
                        Some(EBNFSuffix::Plus) | Some(EBNFSuffix::Star) => {
                            let mut t = String::from_str("Token* __item_");
                            t.append(idx.as_str());
                            t.append(" = NULL;\n                        while ((__item_");
                            t.append(idx.as_str());
                            t.append(" = match_token(parser, ");
                            t.append(token.as_str());
                            t.append(")) != NULL) { push(");
                            t.append(name_indexed.as_str());
                            t.append(", __item_");
                            t.append(idx.as_str());
                            t.append("); }");
                            t
                        },
                        _ => {
                            let mut t = name_indexed;
                            t.append(" = match_token(parser, ");
                            t.append(token.as_str());
                            t.append(");");
                            t
                        },
                    }
                },
                None => match suffix {
                    Some(EBNFSuffix::Plus) | Some(EBNFSuffix::Star) => {
                        let mut t = String::from_str("while (match_token(parser, ");
                        t.append(token.as_str());
                        t.append(") != NULL) {}");
                        t
                    },
                    _ => {
                        let mut t = String::from_str("match_token(parser, ");
                        t.append(token.as_str());
                        t.append(");");
                        t
                    },
                },
            }
        },
        ElementIR::CharSet { .. } => String::from_str("// Set placeholder\n"),
    };
    let rest = match_node(ir, next);
    text.append("\n");
    text.append(rest.as_str());
    text
}

pub fn match_finish(ir: &AntlrIR, alt: &HashArc<AltIR>) -> (s: String)
    requires
        alt@@.parent_rule is Some,
        alt@@.parent_rule->Some_0 < ir@.rules.len(),
    ensures
        s@ == finish_of(ir@, alt@@),
{
    let alt = alt.get();
    let parent_id = match alt.parent() {
        Some(p) => p,
        None => {
            assert(false);
            0
        },
    };
    let parent_rule = match ir.get_rule(parent_id) {
        Some(r) => r,
        None => {
            assert(false);
            return String::new();
        },
    };
    let names = element_names(ir, alt.elements());
    let mut s = String::from_str("return new_");
    s.append(parent_rule.name().as_str());
    if parent_rule.alts().len() > 1 {
        let label = match alt.label() {
            Some(l) => l.clone(),
            None => {
                let mut l = String::from_str("alt");
                let digits = decimal_string(alt.index());
                l.append(digits.as_str());
                l
            },
        };
        let list = join(&names, ",\n");
        s.append("_");
        s.append(label.as_str());
        s.append("(");
        s.append(list.as_str());
        s.append(");\n            ");
    } else {
        let list = join(&names, ", ");
        s.append("(");
        s.append(list.as_str());
        s.append(");\n            ");
    }
    s
}

pub fn match_case(ir: &AntlrIR, key: usize, value: &MatchNode) -> (s: String)
    requires
        node_renders(ir@, value@),
    ensures
        s@ == case_of(ir@, key, value@),
    decreases value@, 1nat,
{
    let inits = match value {
        MatchNode::Element { alt, .. } => {
            let list = initializers(ir, alt.get().elements());
            join(&list, "\n")
        },
        _ => String::new(),
    };
    let body = match_node(ir, value);
    let mut s = String::from_str("\n            case ");
    let k = decimal_string(key);
    s.append(k.as_str());
    s.append(": {\n                ");
    s.append(inits.as_str());
    s.append("\n                ");
    s.append(body.as_str());
    s.append("\n                break;\n            }\n        ");
    s
}

pub fn match_peek(ir: &AntlrIR, peek: &Vec<(usize, MatchNode)>, fallback: Option<&Box<MatchNode>>) -> (s:
    String)
    requires
        forall|i: int| 0 <= i < peek@.len() ==> node_renders(ir@, #[trigger] peek@[i].1@),
    ensures
        s@ == node_of(ir@, MatchNodeModel::Peek { peek: peek_view(peek@), fallback: None }),
    decreases peek_view(peek@), 1nat,
{
    let ghost ps = peek_view(peek@);
    let mut cases: Vec<String> = Vec::new();
    let mut i: usize = 0;
    assert(ps.take(0) =~= Seq::<(usize, MatchNodeModel)>::empty());
    while i < peek.len()
        invariant
            ps == peek_view(peek@),
            forall|k: int| 0 <= k < peek@.len() ==> node_renders(ir@, #[trigger] peek@[k].1@),
            i <= peek.len(),
            strings_view(cases@) == cases_of(ir@, ps.take(i as int)),
        decreases peek.len() - i,
    {
        let ghost before = strings_view(cases@);
        proof {
            let t = ps.take(i + 1);
            assert(t.drop_last() =~= ps.take(i as int));
            assert(t.last() == ps[i as int]);
        }
        assert(ps[i as int].1 == peek@[i as int].1@);
        assert(decreases_to!(ps => ps[i as int]));
        assert(decreases_to!(ps[i as int] => ps[i as int].1));
        let c = match_case(ir, peek[i].0, &peek[i].1);
        let ghost cv = c@;
        cases.push(c);
        assert(strings_view(cases@) =~= before.push(cv));
        i += 1;
    }
    assert(ps.take(peek.len() as int) =~= ps);
    let body = join(&cases, "\n");
    let mut s = String::from_str(
        "Token* next_token = peek(parser);\n        if (next_token == NULL) {\n            errno = ERANGE;\n            return NULL;\n        }\n        \n        switch (next_token->token_type) {\n            ",
    );
    s.append(body.as_str());
    s.append("\n            default:\n                exit(-1);\n        }\n        ");
    s
}

/// The code of a decision tree: a switch on the next token, the match of an
/// element followed by the rest, or the end of an alternative.
pub fn match_node(ir: &AntlrIR, node: &MatchNode) -> (s: String)
    requires
        node_renders(ir@, node@),
    ensures
        s@ == node_of(ir@, node@),
    decreases node@, 0nat,
{
    match node {
        MatchNode::Peek { peek, fallback } => {
            assert(node@ matches MatchNodeModel::Peek { peek: p, .. } && p =~= peek_view(peek@));
            assert forall|i: int| 0 <= i < peek@.len() implies node_renders(
                ir@,
                #[trigger] peek@[i].1@,
            ) by {
                assert(peek_view(peek@)[i].1 == peek@[i].1@);
            }
            match_peek(ir, peek, fallback.as_ref())
        },
        MatchNode::Element { alt, element_idx, element, next } => match_element(
            ir,
            alt,
            element,
            *element_idx,
            next,
        ),
        MatchNode::Finish { alt } => match_finish(ir, alt),
    }
}

/// Strings put end to end.
pub open spec fn concat_all(parts: Seq<Seq<char>>) -> Seq<char>
    decreases parts.len(),
{
    if parts.len() == 0 {
        Seq::empty()
    } else {
        concat_all(parts.drop_last()) + parts.last()
    }
}

/// The constructor declaration of one variant of a rule.
pub open spec fn variant_ctor_decl_of(ir: AntlrIRModel, name: Seq<char>, a: AltIRModel) -> Seq<char> {
    capitalized(name) + "* new_"@ + name + "_alt"@ + decimal(a.index as nat) + "("@ + joined(
        element_decls_of(ir, a.elements),
        ", "@,
    ) + ")"@
}

/// The constructor declarations of a rule: one per variant, written end to end,
/// when it has several alternatives; one for its first alternative otherwise.
pub open spec fn rule_struct_ctor_decl_of(ir: AntlrIRModel, rule_idx: int) -> Seq<char> {
    let r = ir.rules[rule_idx];
    if r.alts.len() > 1 {
        concat_all(r.alts.map_values(|a: AltIRModel| variant_ctor_decl_of(ir, r.name, a)))
    } else {
        capitalized(r.name) + "* new_"@ + r.name + "("@ + joined(
            element_decls_of(ir, r.alts[0].elements),
            ", "@,
        ) + ")"@
    }
}

pub fn rule_struct_ctor_decl(ir: &AntlrIR, rule_idx: usize) -> (s: String)
    requires
        rule_idx < ir@.rules.len(),
        ir@.rules[rule_idx as int].alts.len() > 0,
    ensures
        s@ == rule_struct_ctor_decl_of(ir@, rule_idx as int),
{
    let rule = match ir.get_rule(rule_idx) {
        Some(r) => r,
        None => {
            assert(false);
            return String::new();
        },
    };
    let name = rule.name();
    let cap = capitalize(name.clone());
    let alts = rule.alts();
    let ghost av = ir@.rules[rule_idx as int].alts;
    if alts.len() > 1 {
        let mut s = String::new();
        let mut i: usize = 0;
        while i < alts.len()
            invariant
                crate::ir::alts_ir_view(alts@) == av,
                name@ == ir@.rules[rule_idx as int].name,
                cap@ == capitalized(name@),
                i <= alts.len(),
                s@ == concat_all(
                    av.take(i as int).map_values(
                        |a: AltIRModel| variant_ctor_decl_of(ir@, name@, a),
                    ),
                ),
            decreases alts.len() - i,
        {
            let alt = alts[i].get();
            assert(alt@ == av[i as int]);
            let ghost before = s@;
            let decls = element_decls(ir, alt.elements());
            let list = join(&decls, ", ");
            let digits = decimal_string(alt.index());
            s.append(cap.as_str());
            s.append("* new_");
            s.append(name.as_str());
            s.append("_alt");
            s.append(digits.as_str());
            s.append("(");
            s.append(list.as_str());
            s.append(")");
            proof {
                let m = av.take(i + 1).map_values(
                    |a: AltIRModel| variant_ctor_decl_of(ir@, name@, a),
                );
                assert(m.drop_last() =~= av.take(i as int).map_values(
                    |a: AltIRModel| variant_ctor_decl_of(ir@, name@, a),
                ));
                assert(m.last() == variant_ctor_decl_of(ir@, name@, av[i as int]));
            }
            i += 1;
        }
        assert(av.take(alts.len() as int) =~= av);
        s
    } else {
        let alt = alts[0].get();
        assert(alt@ == av[0]);
        let decls = element_decls(ir, alt.elements());
        let list = join(&decls, ", ");
        let mut s = cap;
        s.append("* new_");
        s.append(name.as_str());
        s.append("(");
        s.append(list.as_str());
        s.append(")");
        s
    }
}

/// The body of one constructor: the fields of an alternative, each ended by a
/// semicolon.
pub open spec fn ctor_fields_of(ir: AntlrIRModel, a: AltIRModel) -> Seq<char> {
    fields_of(element_decls_of(ir, a.elements))
}

/// The constructor definitions of a rule.
pub open spec fn rule_struct_ctor_of(ir: AntlrIRModel, rule_idx: int) -> Seq<char> {
    let r = ir.rules[rule_idx];
    let decl = rule_struct_ctor_decl_of(ir, rule_idx);
    let cap = capitalized(r.name);
    if r.alts.len() > 1 {
        concat_all(
            r.alts.map_values(
                |a: AltIRModel|
                    "\n                "@ + decl + " {\n                    return "@ + cap
                        + " {\n                        "@ + ctor_fields_of(ir, a)
                        + "\n                    };\n                }\n                "@,
            ),
        )
    } else {
        "\n            "@ + decl + " {\n                "@ + cap + " {\n                    "@
            + ctor_fields_of(ir, r.alts[0]) + "\n                }\n            }\n            "@
    }
}

fn struct_fields(ir: &AntlrIR, alt: &AltIR) -> (s: String)
    ensures
        s@ == ctor_fields_of(ir@, alt@),
{
    let decls = element_decls(ir, alt.elements());
    let mut fields = join(&decls, ";\n");
    if decls.len() > 0 {
        fields.append(";");
    }
    fields
}

pub fn rule_struct_ctor(ir: &AntlrIR, rule_idx: usize) -> (s: String)
    requires
        rule_idx < ir@.rules.len(),
        ir@.rules[rule_idx as int].alts.len() > 0,
    ensures
        s@ == rule_struct_ctor_of(ir@, rule_idx as int),
{
    let rule = match ir.get_rule(rule_idx) {
        Some(r) => r,
        None => {
            assert(false);
            return String::new();
        },
    };
    let cap = capitalize(rule.name().clone());
    let alts = rule.alts();
    let ghost av = ir@.rules[rule_idx as int].alts;
    let ghost d = rule_struct_ctor_decl_of(ir@, rule_idx as int);
    if alts.len() > 1 {
        let mut s = String::new();
        let mut i: usize = 0;
        while i < alts.len()
            invariant
                crate::ir::alts_ir_view(alts@) == av,
                av == ir@.rules[rule_idx as int].alts,
                rule_idx < ir@.rules.len(),
                av.len() > 1,
                d == rule_struct_ctor_decl_of(ir@, rule_idx as int),
                cap@ == capitalized(ir@.rules[rule_idx as int].name),
                i <= alts.len(),
                s@ == concat_all(
                    av.take(i as int).map_values(
                        |a: AltIRModel|
                            "\n                "@ + d + " {\n                    return "@ + cap@
                                + " {\n                        "@ + ctor_fields_of(ir@, a)
                                + "\n                    };\n                }\n                "@,
                    ),
                ),
            decreases alts.len() - i,
        {
            let alt = alts[i].get();
            assert(alt@ == av[i as int]);
            let decl = rule_struct_ctor_decl(ir, rule_idx);
            let fields = struct_fields(ir, alt);
            s.append("\n                ");
            s.append(decl.as_str());
            s.append(" {\n                    return ");
            s.append(cap.as_str());
            s.append(" {\n                        ");
            s.append(fields.as_str());
            s.append("\n                    };\n                }\n                ");
            proof {
                let m = av.take(i + 1).map_values(
                    |a: AltIRModel|
                        "\n                "@ + d + " {\n                    return "@ + cap@
                            + " {\n                        "@ + ctor_fields_of(ir@, a)
                            + "\n                    };\n                }\n                "@,
                );
                assert(m.drop_last() =~= av.take(i as int).map_values(
                    |a: AltIRModel|
                        "\n                "@ + d + " {\n                    return "@ + cap@
                            + " {\n                        "@ + ctor_fields_of(ir@, a)
                            + "\n                    };\n                }\n                "@,
                ));
            }
            i += 1;
        }
        assert(av.take(alts.len() as int) =~= av);
        s
    } else {
        let alt = alts[0].get();
        assert(alt@ == av[0]);
        let decl = rule_struct_ctor_decl(ir, rule_idx);
        let fields = struct_fields(ir, alt);
        let mut s = String::from_str("\n            ");
        s.append(decl.as_str());
        s.append(" {\n                ");
        s.append(cap.as_str());
        s.append(" {\n                    ");
        s.append(fields.as_str());
        s.append("\n                }\n            }\n            ");
        s
    }
}

/// The C function that parses rule `rule`: the initial values of its
/// repeated and optional elements, then its decision tree.
pub open spec fn rule_parser_of(ir: AntlrIRModel, rule: usize) -> Seq<char> {
    let name = ir.rules[rule as int].name;
    let tree = rule_tree(ir.rules, rule)->Some_0;
    let inits = match tree {
        MatchNodeModel::Element { alt, .. } => joined(initializers_of(ir, alt.elements), "\n"@),
        _ => Seq::empty(),
    };
    capitalized(name) + "* parse_"@ + name + "(Parser* parser) {\n            "@ + inits
        + "\n            "@ + node_of(ir, tree) + "\n        }"@
}

pub fn rule_parser(ir: &AntlrIR, rule: usize) -> (s: String)
    requires
        rule < ir@.rules.len(),
        ir@.rules[rule as int].alts.len() >= 1,
        rules_closed(ir@.rules),
        rules_placed(ir@.rules),
        rule_tree(ir@.rules, rule) is Some,
        node_renders(ir@, rule_tree(ir@.rules, rule)->Some_0),
    ensures
        s@ == rule_parser_of(ir@, rule),
{
    let name = match ir.get_rule(rule) {
        Some(r) => r.name().clone(),
        None => {
            assert(false);
            String::new()
        },
    };
    let rule_match = match_rule(ir, rule);
    let inits = match &rule_match {
        MatchNode::Element { alt, .. } => {
            let list = initializers(ir, alt.get().elements());
            join(&list, "\n")
        },
        _ => String::new(),
    };
    let body = match_node(ir, &rule_match);
    let mut s = capitalize(name.clone());
    s.append("* parse_");
    s.append(name.as_str());
    s.append("(Parser* parser) {\n            ");
    s.append(inits.as_str());
    s.append("\n            ");
    s.append(body.as_str());
    s.append("\n        }");
    s
}

/// Every rule can be given its parsing code: it has alternatives, and its
/// decision tree can be built and written out.
pub open spec fn parsers_render(ir: AntlrIRModel) -> bool {
    &&& rules_closed(ir.rules)
    &&& rules_placed(ir.rules)
    &&& forall|r: int|
        0 <= r < ir.rules.len() ==> {
            &&& (#[trigger] ir.rules[r]).alts.len() >= 1
            &&& rule_tree(ir.rules, r as usize) is Some
            &&& node_renders(ir, rule_tree(ir.rules, r as usize)->Some_0)
        }
}

/// The parsing code of each rule.
pub open spec fn parsers_of(ir: AntlrIRModel) -> Seq<Seq<char>> {
    Seq::new(ir.rules.len(), |r: int| rule_parser_of(ir, r as usize))
}

/// The constructor of each rule.
pub open spec fn ctors_of(ir: AntlrIRModel) -> Seq<Seq<char>> {
    Seq::new(ir.rules.len(), |r: int| rule_struct_ctor_of(ir, r))
}

/// The typedef of each rule.
pub open spec fn typedefs_of(ir: AntlrIRModel) -> Seq<Seq<char>> {
    Seq::new(
        ir.rules.len(),
        |r: int|
            "typedef struct "@ + capitalized(ir.rules[r].name) + " "@ + capitalized(ir.rules[r].name)
                + ";"@,
    )
}

/// The declarations of each rule: its struct, its parsing function and its
/// constructor.
pub open spec fn decls_of(ir: AntlrIRModel) -> Seq<Seq<char>> {
    Seq::new(
        ir.rules.len(),
        |r: int|
            rule_struct_decl_of(ir, r) + "\n            "@ + (capitalized(ir.rules[r].name) + "* parse_"@
                + ir.rules[r].name + "(Parser* parser);"@) + "\n            "@
                + rule_struct_ctor_decl_of(ir, r),
    )
}

/// The generated source file, which includes the header at `header_path`.
pub open spec fn source_file_of(ir: AntlrIRModel, header_path: Seq<char>) -> Seq<char> {
    "\n            "@ + (C_SOURCE_PREFIX@ + header_path + C_SOURCE_SUFFIX@) + "\n            "@
        + joined(parsers_of(ir), "\n"@) + "\n            "@ + joined(ctors_of(ir), "\n"@)
        + "\n            "@
}

/// The generated header file.
pub open spec fn header_file_of(ir: AntlrIRModel) -> Seq<char> {
    C_HEADER_FILE_HEADER@ + "\n        "@ + joined(typedefs_of(ir), "\n"@) + "\n        "@ + joined(
        decls_of(ir),
        "\n"@,
    ) + "\n        "@
}

/// The files of a generated C parser: the source at `source_path` and the
/// header at `header_path`.
#[verifier::rlimit(40)]
#[verifier::spinoff_prover]
pub fn render(ir: &AntlrIR, source_path: String, header_path: String) -> (files: Vec<OutputFile>)
    requires
        parsers_render(ir@),
    ensures
        files.len() == 2,
        files@[0].path_view() == source_path@,
        files@[0].content_view() == source_file_of(ir@, header_path@),
        files@[1].path_view() == header_path@,
        files@[1].content_view() == header_file_of(ir@),
{
    let n = ir.rules().len();
    let mut parsers: Vec<String> = Vec::new();
    let mut ctors: Vec<String> = Vec::new();
    let mut typedefs: Vec<String> = Vec::new();
    let mut decls: Vec<String> = Vec::new();
    let mut r: usize = 0;
    while r < n
        invariant
            n == ir@.rules.len(),
            parsers_render(ir@),
            r <= n,
            strings_view(parsers@) == parsers_of(ir@).take(r as int),
            strings_view(ctors@) == ctors_of(ir@).take(r as int),
            strings_view(typedefs@) == typedefs_of(ir@).take(r as int),
            strings_view(decls@) == decls_of(ir@).take(r as int),
        decreases n - r,
    {
        assert(ir@.rules[r as int].alts.len() >= 1);
        let ghost b0 = strings_view(parsers@);
        let ghost b1 = strings_view(ctors@);
        let ghost b2 = strings_view(typedefs@);
        let ghost b3 = strings_view(decls@);
        let p = rule_parser(ir, r);
        let c = rule_struct_ctor(ir, r);
        let t = rule_typedef(ir, r);
        let mut d = rule_struct_decl(ir, r);
        d.append("\n            ");
        let pd = rule_parser_decl(ir, r);
        d.append(pd.as_str());
        d.append("\n            ");
        let cd = rule_struct_ctor_decl(ir, r);
        d.append(cd.as_str());
        let ghost (v0, v1, v2, v3) = (p@, c@, t@, d@);
        parsers.push(p);
        ctors.push(c);
        typedefs.push(t);
        decls.push(d);
        assert(strings_view(parsers@) =~= b0.push(v0));
        assert(strings_view(ctors@) =~= b1.push(v1));
        assert(strings_view(typedefs@) =~= b2.push(v2));
        assert(strings_view(decls@) =~= b3.push(v3));
        assert(parsers_of(ir@).take(r + 1) =~= parsers_of(ir@).take(r as int).push(v0));
        assert(ctors_of(ir@).take(r + 1) =~= ctors_of(ir@).take(r as int).push(v1));
        assert(typedefs_of(ir@).take(r + 1) =~= typedefs_of(ir@).take(r as int).push(v2));
        assert(decls_of(ir@).take(r + 1) =~= decls_of(ir@).take(r as int).push(v3));
        r += 1;
    }
    assert(parsers_of(ir@).take(n as int) =~= parsers_of(ir@));
    assert(ctors_of(ir@).take(n as int) =~= ctors_of(ir@));
    assert(typedefs_of(ir@).take(n as int) =~= typedefs_of(ir@));
    assert(decls_of(ir@).take(n as int) =~= decls_of(ir@));
    let mut source = String::from_str("\n            ");
    let sh = source_file_header(header_path.as_str());
    source.append(sh.as_str());
    source.append("\n            ");
    let ps = join(&parsers, "\n");
    source.append(ps.as_str());
    source.append("\n            ");
    let cs = join(&ctors, "\n");
    source.append(cs.as_str());
    source.append("\n            ");
    let mut header = header_file_header();
    header.append("\n        ");
    let ts = join(&typedefs, "\n");
    header.append(ts.as_str());
    header.append("\n        ");
    let ds = join(&decls, "\n");
    header.append(ds.as_str());
    header.append("\n        ");
    let mut files: Vec<OutputFile> = Vec::new();
    files.push(OutputFile::new(source_path, source));
    files.push(OutputFile::new(header_path, header));
    files
}


/// The C code for a repeated element that has a name, a rule or a named
/// token, is a loop that pushes each item it matches into the element's
/// array: it holds `while ((` and `push(<name>_<index>, __item_`. `*` and `+`
/// give the same code.
pub proof fn law_repeated_named_element_loops(ir: AntlrIRModel, e: ElementIRModel, idx: usize)
    requires
        !(e is CharSet),
        element_name_of(ir, e) is Some,
        e.suffix() == Some(EBNFSuffix::Star) || e.suffix() == Some(EBNFSuffix::Plus),
    ensures
        crate::langs::has_infix(element_match_of(ir, e, idx), "while (("@),
        crate::langs::has_infix(
            element_match_of(ir, e, idx),
            "push("@ + indexed_name(element_name_of(ir, e)->Some_0, idx) + ", __item_"@,
        ),
        element_match_of(ir, e.with_suffix(Some(EBNFSuffix::Star)), idx) == element_match_of(
            ir,
            e.with_suffix(Some(EBNFSuffix::Plus)),
            idx,
        ),
{
    let n = element_name_of(ir, e)->Some_0;
    let i = decimal(idx as nat);
    let ni = indexed_name(n, idx);
    let wl = "while (("@;
    let l1 = " = NULL;\n                        while ((__item_"@;
    let tail = ", __item_"@;
    let wp = "push("@ + ni + tail;
    reveal_strlit("while ((");
    reveal_strlit(" = NULL;\n                        while ((__item_");
    reveal_strlit("push(");
    reveal_strlit(")) != NULL) { push(");
    reveal_strlit("(parser)) != NULL) { push(");
    assert(l1.subrange(33, 41) =~= wl);
    crate::langs::lemma_infix_at(l1, wl, 33);
    let (a, mid, l2, off) = match e {
        ElementIRModel::RuleAtom { .. } => (
            capitalized(n) + "* __item_"@ + i,
            " = parse_"@ + n,
            "(parser)) != NULL) { push("@,
            21int,
        ),
        _ => (
            "Token* __item_"@ + i,
            " = match_token(parser, "@ + decimal(e.id()->Some_0 as nat),
            ")) != NULL) { push("@,
            14int,
        ),
    };
    let x = a + l1 + i + mid + l2 + ni + tail;
    let whole = x + i + "); }"@;
    if e is TokenAtom {
        assert(id_lookup(ir.symbols.tokens, e.id()->Some_0) == Some(n));
    }
    assert(whole =~= element_match_of(ir, e, idx));
    crate::langs::lemma_infix_extend(a, l1, Seq::empty(), wl);
    let y = a + l1;
    assert(x + i + "); }"@ =~= y + (i + mid + l2 + ni + tail + i + "); }"@));
    crate::langs::lemma_infix_extend(Seq::empty(), y, i + mid + l2 + ni + tail + i + "); }"@, wl);
    assert(Seq::<char>::empty() + y =~= y);
    let s2 = a + l1 + i + mid;
    let o: int = s2.len() as int + off;
    assert(x.subrange(o, o + wp.len()) =~= wp);
    crate::langs::lemma_infix_at(x, wp, o);
    crate::langs::lemma_infix_extend(Seq::empty(), x, i + "); }"@, wp);
    assert(Seq::<char>::empty() + x =~= x);
    assert(x + (i + "); }"@) =~= whole);
}

} // verus!
