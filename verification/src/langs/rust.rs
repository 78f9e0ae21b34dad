use vstd::prelude::*;
use vstd::string::StringExecFns;

use crate::ast::EBNFSuffix;
use crate::ir::{
    elements_ir_view, opt_view, AltIR, AltIRModel, AntlrIR, AntlrIRModel, ElementIR, ElementIRModel,
    peek_view, MatchNode, MatchNodeModel,
};
use crate::langs::c::node_renders;
use crate::matching::{match_rule, rule_tree, rules_placed};
use crate::nth::rules_closed;
use crate::symbols::id_lookup;
use crate::text::decimal;
use crate::util::HashArc;
use crate::langs::{
    element_name, element_name_indexed, element_name_of, element_names, element_names_of,
    element_prefix, element_prefix_of, element_suffix, element_suffix_of, indexed_name, join, joined,
};
use crate::langs::c::alt_label_of;
use crate::langs::OutputFile;
use crate::symbols::strings_view;
use crate::text::decimal_string;
use crate::util::{capitalize, capitalized};

verus! {

/// The preamble of a generated Rust parser.
pub const RUST_HEADER: &'static str = "
    use std::collections::VecDeque;
    
    pub enum ANTLRError {
        NoAlt,
        Mismatched,
        EOF
    }

    #[derive(Clone)]
    pub struct Token {
        token_type: usize,
        text: String
    }

    pub struct Parser {
        head: usize,
        tokens: Vec<Token>,
        rule_stack: VecDeque<usize>
    }

    impl Parser {
        pub fn peek(&self) -> Option<&Token> {
            self.tokens.get(self.head + 1)
        }

        pub fn match_token(&mut self, token: usize) -> Result<Token, ANTLRError> {
            match self.tokens.get(self.head) {
                Some(t) => {
                    if t.token_type == token {
                        self.head += 1;
                        Ok(t.clone())
                    } else {
                        Err(ANTLRError::Mismatched)
                    }
                },
                None => Err(ANTLRError::EOF)
            }
        }
    }
    ";

/// The preamble of a generated Rust parser file.
pub const RUST_PARSE_HEADER: &'static str = "#![allow(unused, nonstandard_style)]
    use std::collections::VecDeque;
    
    #[derive(Clone, Debug)]
    pub enum ANTLRError {
        NoViableAlt,
        Mismatched,
        EOF
    }

    #[derive(Clone, Debug)]
    pub struct Token {
        token_type: usize,
        text: String
    }

    #[derive(Clone, Debug)]
    pub struct Parser {
        head: usize,
        tokens: Vec<Token>,
        rule_stack: VecDeque<usize>
    }

    impl Parser {
        pub fn new(tokens: Vec<Token>) -> Parser {
            Parser {
                head: 0,
                tokens,
                rule_stack: VecDeque::new()
            }
        }

        pub fn peek(&self) -> Option<&Token> {
            self.tokens.get(self.head + 1)
        }

        pub fn match_token(&mut self, token: usize) -> Result<Token, ANTLRError> {
            match self.tokens.get(self.head) {
                Some(t) => {
                    if t.token_type == token {
                        self.head += 1;
                        Ok(t.clone())
                    } else {
                        Err(ANTLRError::Mismatched)
                    }
                },
                None => Err(ANTLRError::EOF)
            }
        }
    }
    ";

/// The preamble of a generated Rust lexer file.
pub const RUST_LEXER_HEADER: &'static str = "#![allow(unused, nonstandard_style)]
    use std::collections::VecDeque;

    #[derive(Clone, Debug)]
    pub struct Token {
        token_type: usize,
        text: String
    }

    #[derive(Clone, Debug)]
    pub struct Lexer {
        head: usize,
        text: Vec<char>,
        rule_stack: VecDeque<usize>
    }

    impl Lexer {
        pub fn new(string: String) -> Lexer {
            let text = string.chars().collect();

            Lexer { head: 0, text }
        }
    }
    ";

/// The preamble of a generated Rust parser.
pub fn header() -> (s: String)
    ensures
        s@ == RUST_HEADER@,
{
    String::from_str(RUST_HEADER)
}

/// The preamble of a generated Rust parser file.
pub fn parse_header() -> (s: String)
    ensures
        s@ == RUST_PARSE_HEADER@,
{
    String::from_str(RUST_PARSE_HEADER)
}

/// The preamble of a generated Rust lexer file.
pub fn lexer_header() -> (s: String)
    ensures
        s@ == RUST_LEXER_HEADER@,
{
    String::from_str(RUST_LEXER_HEADER)
}

/// What opens the type of a token field: an option or a vector when the token
/// may be missing or repeated.
pub open spec fn token_prefix_of(suffix: Option<EBNFSuffix>) -> Seq<char> {
    match suffix {
        None => ""@,
        Some(EBNFSuffix::Optional) => "Option<"@,
        Some(_) => "Vec<"@,
    }
}

/// What closes the type that `token_prefix_of` opens.
pub open spec fn token_suffix_of(suffix: Option<EBNFSuffix>) -> Seq<char> {
    match suffix {
        None => ""@,
        Some(_) => ">"@,
    }
}

/// The Rust field declaration of an element, where the element has a name and
/// is not a character set.
pub open spec fn element_decl_of(ir: AntlrIRModel, e: ElementIRModel, idx: usize) -> Option<
    Seq<char>,
> {
    match element_name_of(ir, e) {
        None => None,
        Some(n) => match e {
            ElementIRModel::RuleAtom { .. } => Some(
                indexed_name(n, idx) + ": "@ + element_prefix_of(e) + capitalized(n)
                    + element_suffix_of(e),
            ),
            ElementIRModel::TokenAtom { suffix, .. } => Some(
                indexed_name(n, idx) + ": "@ + token_prefix_of(suffix) + "Token"@ + token_suffix_of(
                    suffix,
                ),
            ),
            ElementIRModel::CharSet { .. } => None,
        },
    }
}

pub fn element_decl(ir: &AntlrIR, element: &ElementIR, element_idx: usize) -> (r: Option<String>)
    ensures
        opt_view(r) == element_decl_of(ir@, element@, element_idx),
{
    let name = match element_name(ir, element) {
        Some(n) => n,
        None => return None,
    };
    let mut decl = match element_name_indexed(ir, element, element_idx) {
        Some(n) => n,
        None => {
            assert(false);
            return None;
        },
    };
    match element {
        ElementIR::RuleAtom { .. } => {
            let prefix = element_prefix(element);
            let suffix = element_suffix(element);
            let cap = capitalize(name);
            decl.append(": ");
            decl.append(prefix.as_str());
            decl.append(cap.as_str());
            decl.append(suffix.as_str());
            Some(decl)
        },
        ElementIR::TokenAtom { suffix, .. } => {
            let prefix = match suffix {
                None => "",
                Some(EBNFSuffix::Optional) => "Option<",
                Some(_) => "Vec<",
            };
            let close = match suffix {
                None => "",
                Some(_) => ">",
            };
            decl.append(": ");
            decl.append(prefix);
            decl.append("Token");
            decl.append(close);
            Some(decl)
        },
        ElementIR::CharSet { .. } => None,
    }
}

/// The field declarations of a list of elements, skipping those without one.
pub open spec fn element_decls_of(ir: AntlrIRModel, es: Seq<ElementIRModel>) -> Seq<Seq<char>>
    decreases es.len(),
{
    if es.len() == 0 {
        Seq::empty()
    } else {
        element_decls_of(ir, es.drop_last()) + match element_decl_of(
            ir,
            es.last(),
            (es.len() - 1) as usize,
        ) {
            Some(d) => seq![d],
            None => Seq::empty(),
        }
    }
}

fn element_decls(ir: &AntlrIR, elements: &Vec<ElementIR>) -> (v: Vec<String>)
    ensures
        strings_view(v@) == element_decls_of(ir@, elements_ir_view(elements@)),
{
    let ghost es = elements_ir_view(elements@);
    let mut out: Vec<String> = Vec::new();
    let mut i: usize = 0;
    assert(es.take(0) =~= Seq::<ElementIRModel>::empty());
    while i < elements.len()
        invariant
            es == elements_ir_view(elements@),
            i <= elements.len(),
            strings_view(out@) == element_decls_of(ir@, es.take(i as int)),
        decreases elements.len() - i,
    {
        let ghost before = strings_view(out@);
        proof {
            let t = es.take(i + 1);
            assert(t.drop_last() =~= es.take(i as int));
            assert(t.last() == es[i as int]);
        }
        match element_decl(ir, &elements[i], i) {
            Some(d) => {
                out.push(d);
                assert(strings_view(out@) =~= before + seq![d@]);
            },
            None => {
                assert(strings_view(out@) =~= before + Seq::<Seq<char>>::empty());
            },
        }
        i += 1;
    }
    assert(es.take(elements.len() as int) =~= es);
    out
}

/// The struct of a rule with one alternative, and its constructor.
pub open spec fn rule_struct_of(ir: AntlrIRModel, rule_idx: int) -> Seq<char> {
    let r = ir.rules[rule_idx];
    let cap = capitalized(r.name);
    let fields = joined(element_decls_of(ir, r.alts[0].elements), ",\n"@);
    let names = joined(element_names_of(ir, r.alts[0].elements), ","@);
    "pub struct "@ + cap + " {\n            "@ + fields + "\n        }\n\n        impl "@ + cap
        + " {\n            pub fn new("@ + fields + ") -> "@ + cap + " {\n                "@ + cap
        + " {\n                    "@ + names + "\n                }\n            }\n        }\n        "@
}

pub fn rule_struct(ir: &AntlrIR, rule_idx: usize) -> (s: String)
    requires
        rule_idx < ir@.rules.len(),
        ir@.rules[rule_idx as int].alts.len() > 0,
    ensures
        s@ == rule_struct_of(ir@, rule_idx as int),
{
    let rule = match ir.get_rule(rule_idx) {
        Some(r) => r,
        None => {
            assert(false);
            return String::new();
        },
    };
    let alt = rule.alts()[0].get();
    assert(alt@ == ir@.rules[rule_idx as int].alts[0]);
    let decls = element_decls(ir, alt.elements());
    let fields = join(&decls, ",\n");
    let name_list = element_names(ir, alt.elements());
    let names = join(&name_list, ",");
    let cap = capitalize(rule.name().clone());
    let mut s = String::from_str("pub struct ");
    s.append(cap.as_str());
    s.append(" {\n            ");
    s.append(fields.as_str());
    s.append("\n        }\n\n        impl ");
    s.append(cap.as_str());
    s.append(" {\n            pub fn new(");
    s.append(fields.as_str());
    s.append(") -> ");
    s.append(cap.as_str());
    s.append(" {\n                ");
    s.append(cap.as_str());
    s.append(" {\n                    ");
    s.append(names.as_str());
    s.append("\n                }\n            }\n        }\n        ");
    s
}

/// The variant of a rule's enum for one alternative.
pub open spec fn rule_enum_alt_of(ir: AntlrIRModel, a: AltIRModel) -> Seq<char> {
    alt_label_of(a) + " {\n            "@ + joined(element_decls_of(ir, a.elements), ","@)
        + "\n        }\n        "@
}

pub fn rule_enum_alt(ir: &AntlrIR, alt: &AltIR) -> (s: String)
    ensures
        s@ == rule_enum_alt_of(ir@, alt@),
{
    let mut s = match alt.label() {
        Some(l) => l.clone(),
        None => {
            let mut l = String::from_str("Alt");
            let digits = decimal_string(alt.index());
            l.append(digits.as_str());
            l
        },
    };
    let decls = element_decls(ir, alt.elements());
    let elements = join(&decls, ",");
    s.append(" {\n            ");
    s.append(elements.as_str());
    s.append("\n        }\n        ");
    s
}

/// The enum of a rule with several alternatives, a variant for each.
pub open spec fn rule_enum_of(ir: AntlrIRModel, rule: int) -> Seq<char> {
    let r = ir.rules[rule];
    "pub enum "@ + capitalized(r.name) + " {\n            "@ + joined(
        r.alts.map_values(|a: AltIRModel| rule_enum_alt_of(ir, a)),
        ","@,
    ) + "\n        }\n        "@
}

pub fn rule_enum(ir: &AntlrIR, rule: usize) -> (s: String)
    requires
        rule < ir@.rules.len(),
    ensures
        s@ == rule_enum_of(ir@, rule as int),
{
    let r = match ir.get_rule(rule) {
        Some(r) => r,
        None => {
            assert(false);
            return String::new();
        },
    };
    let alts = r.alts();
    let ghost av = ir@.rules[rule as int].alts;
    let mut parts: Vec<String> = Vec::new();
    let mut i: usize = 0;
    while i < alts.len()
        invariant
            crate::ir::alts_ir_view(alts@) == av,
            i <= alts.len(),
            strings_view(parts@) == av.take(i as int).map_values(
                |a: AltIRModel| rule_enum_alt_of(ir@, a),
            ),
        decreases alts.len() - i,
    {
        let ghost before = strings_view(parts@);
        let alt = alts[i].get();
        assert(alt@ == av[i as int]);
        let part = rule_enum_alt(ir, alt);
        let ghost pv = part@;
        parts.push(part);
        assert(strings_view(parts@) =~= before.push(pv));
        assert(av.take(i + 1) =~= av.take(i as int).push(av[i as int]));
        assert(strings_view(parts@) =~= av.take(i + 1).map_values(
            |a: AltIRModel| rule_enum_alt_of(ir@, a),
        ));
        i += 1;
    }
    assert(av.take(alts.len() as int) =~= av);
    let body = join(&parts, ",");
    let mut s = String::from_str("pub enum ");
    let cap = capitalize(r.name().clone());
    s.append(cap.as_str());
    s.append(" {\n            ");
    s.append(body.as_str());
    s.append("\n        }\n        ");
    s
}

/// The type of a rule: a struct for a single alternative, an enum otherwise.
pub fn rule_type(ir: &AntlrIR, rule: usize) -> (s: String)
    requires
        rule < ir@.rules.len(),
    ensures
        s@ == if ir@.rules[rule as int].alts.len() == 1 {
            rule_struct_of(ir@, rule as int)
        } else {
            rule_enum_of(ir@, rule as int)
        },
{
    let r = match ir.get_rule(rule) {
        Some(r) => r,
        None => {
            assert(false);
            return String::new();
        },
    };
    if r.alts().len() == 1 {
        rule_struct(ir, rule)
    } else {
        rule_enum(ir, rule)
    }
}

/// The statement that binds one element in a generated parser method: a call of
/// the rule's or token's method, wrapped for an optional one, pushed for a
/// repeated one; nothing for an unnamed token or a set.
pub open spec fn bind_of(ir: AntlrIRModel, e: ElementIRModel) -> Seq<char> {
    let named = |n: Seq<char>, suffix: Option<EBNFSuffix>|
        match suffix {
            None => "let "@ + n + " = self."@ + n + "();"@,
            Some(EBNFSuffix::Optional) => "let "@ + n + " = Some(self."@ + n + "());"@,
            Some(_) => n + ".push(self."@ + n + ")"@,
        };
    match e {
        ElementIRModel::RuleAtom { id, suffix } => named(id_lookup(ir.symbols.rules, id)->Some_0, suffix),
        ElementIRModel::TokenAtom { id, suffix } => match id_lookup(ir.symbols.tokens, id) {
            Some(n) => named(n, suffix),
            None => Seq::empty(),
        },
        ElementIRModel::CharSet { .. } => Seq::empty(),
    }
}

/// A field of the variant built at the end of an alternative.
pub open spec fn field_init_of(ir: AntlrIRModel, e: ElementIRModel) -> Seq<char> {
    match e {
        ElementIRModel::RuleAtom { id, suffix } => {
            let n = id_lookup(ir.symbols.rules, id)->Some_0;
            match suffix {
                Some(EBNFSuffix::Plus) | Some(EBNFSuffix::Star) => n + ": "@ + n + ","@,
                _ => n + ": "@ + n + ".map(Box::new),"@,
            }
        },
        ElementIRModel::TokenAtom { id, .. } => match id_lookup(ir.symbols.tokens, id) {
            Some(n) => n + ","@,
            None => Seq::empty(),
        },
        ElementIRModel::CharSet { .. } => Seq::empty(),
    }
}

/// An argument of the constructor called at the end of an alternative.
pub open spec fn arg_of(ir: AntlrIRModel, e: ElementIRModel) -> Seq<char> {
    match e {
        ElementIRModel::RuleAtom { id, suffix } => {
            let n = id_lookup(ir.symbols.rules, id)->Some_0;
            match suffix {
                Some(EBNFSuffix::Plus) | Some(EBNFSuffix::Star) => n + ","@,
                _ => n + ".map(Box::new),"@,
            }
        },
        ElementIRModel::TokenAtom { id, .. } => match id_lookup(ir.symbols.tokens, id) {
            Some(n) => n + ","@,
            None => Seq::empty(),
        },
        ElementIRModel::CharSet { .. } => Seq::empty(),
    }
}

/// The end of an alternative: the variant of its rule with its fields, unless
/// the complement of the rule's number of alternatives is at most one, where it
/// is a call of the rule's constructor.
pub open spec fn internal_finish_of(ir: AntlrIRModel, alt: AltIRModel) -> Seq<char> {
    let parent = ir.rules[alt.parent_rule->Some_0 as int];
    if usize::MAX - parent.alts.len() > 1 {
        parent.name + "::"@ + alt_label_of(alt) + " {\n                                "@ + joined(
            alt.elements.map_values(|e: ElementIRModel| field_init_of(ir, e)),
            "\n"@,
        ) + "\n                            }\n                            "@
    } else {
        parent.name + "::new (\n                                "@ + joined(
            alt.elements.map_values(|e: ElementIRModel| arg_of(ir, e)),
            "\n"@,
        ) + "\n                            )\n                            "@
    }
}

/// The Rust code of a decision tree, one step at a time: a match on the next
/// token with a case for each entry, the binding of one element, or the value
/// that ends an alternative.
pub open spec fn internal_of(ir: AntlrIRModel, n: MatchNodeModel) -> Seq<char>
    decreases n,
{
    match n {
        MatchNodeModel::Peek { peek, .. } => "match self.peek().map(|t| t.token_type) {\n                            "@
            + joined(internal_cases_of(ir, peek), "\n"@)
            + "\n                        }\n                        "@,
        MatchNodeModel::Element { element, .. } => bind_of(ir, element),
        MatchNodeModel::Finish { alt } => internal_finish_of(ir, alt),
    }
}

pub open spec fn internal_cases_of(ir: AntlrIRModel, ps: Seq<(usize, MatchNodeModel)>) -> Seq<
    Seq<char>,
>
    decreases ps,
{
    if ps.len() == 0 {
        Seq::empty()
    } else {
        internal_cases_of(ir, ps.drop_last()) + seq![
            "Some("@ + decimal(ps.last().0 as nat) + ") => {\n                                "@
                + internal_of(ir, ps.last().1) + "\n                            },\n                            "@,
        ]
    }
}

/// Every rule a tree names is in the table, and every alternative it finishes
/// belongs to an existing rule whose rule elements are all named.
pub open spec fn internal_renders(ir: AntlrIRModel, n: MatchNodeModel) -> bool
    decreases n,
{
    match n {
        MatchNodeModel::Peek { peek, .. } => forall|i: int|
            0 <= i < peek.len() ==> internal_renders(ir, #[trigger] peek[i].1),
        MatchNodeModel::Element { element, .. } => element matches ElementIRModel::RuleAtom { id, .. }
            ==> id_lookup(ir.symbols.rules, id) is Some,
        MatchNodeModel::Finish { alt } => {
            &&& alt.parent_rule is Some
            &&& alt.parent_rule->Some_0 < ir.rules.len()
            &&& forall|k: int|
                0 <= k < alt.elements.len() ==> (#[trigger] alt.elements[k] matches ElementIRModel::RuleAtom {
                    id,
                    ..
                } ==> id_lookup(ir.symbols.rules, id) is Some)
        },
    }
}

fn bind(ir: &AntlrIR, element: &ElementIR) -> (s: String)
    requires
        element@ matches ElementIRModel::RuleAtom { id, .. } ==> id_lookup(ir@.symbols.rules, id) is Some,
    ensures
        s@ == bind_of(ir@, element@),
{
    let (name, suffix) = match element {
        ElementIR::RuleAtom { id, suffix } => match ir.symbols().get_rule_name(*id) {
            Some(n) => (n, *suffix),
            None => {
                assert(false);
                return String::new();
            },
        },
        ElementIR::TokenAtom { id, suffix } => match ir.symbols().get_token_name(*id) {
            Some(n) => (n, *suffix),
            None => return String::new(),
        },
        ElementIR::CharSet { .. } => return String::new(),
    };
    match suffix {
        None => {
            let mut s = String::from_str("let ");
            s.append(name.as_str());
            s.append(" = self.");
            s.append(name.as_str());
            s.append("();");
            s
        },
        Some(EBNFSuffix::Optional) => {
            let mut s = String::from_str("let ");
            s.append(name.as_str());
            s.append(" = Some(self.");
            s.append(name.as_str());
            s.append("());");
            s
        },
        Some(_) => {
            let mut s = name.clone();
            s.append(".push(self.");
            s.append(name.as_str());
            s.append(")");
            s
        },
    }
}

fn field_init(ir: &AntlrIR, element: &ElementIR, with_field: bool) -> (s: String)
    requires
        element@ matches ElementIRModel::RuleAtom { id, .. } ==> id_lookup(ir@.symbols.rules, id) is Some,
    ensures
        s@ == if with_field {
            field_init_of(ir@, element@)
        } else {
            arg_of(ir@, element@)
        },
{
    match element {
        ElementIR::RuleAtom { id, suffix } => {
            let name = match ir.symbols().get_rule_name(*id) {
                Some(n) => n,
                None => {
                    assert(false);
                    return String::new();
                },
            };
            let mut s = name.clone();
            if with_field {
                s.append(": ");
                s.append(name.as_str());
            }
            match suffix {
                Some(EBNFSuffix::Plus) | Some(EBNFSuffix::Star) => s.append(","),
                _ => s.append(".map(Box::new),"),
            }
            s
        },
        ElementIR::TokenAtom { id, .. } => match ir.symbols().get_token_name(*id) {
            Some(n) => {
                let mut s = n;
                s.append(",");
                s
            },
            None => String::new(),
        },
        ElementIR::CharSet { .. } => String::new(),
    }
}

fn finish_internal(ir: &AntlrIR, alt: &HashArc<AltIR>) -> (s: String)
    requires
        internal_renders(ir@, MatchNodeModel::Finish { alt: alt@@ }),
    ensures
        s@ == internal_finish_of(ir@, alt@@),
{
    let alt = alt.get();
    let parent_id = match alt.parent() {
        Some(p) => p,
        None => {
            assert(false);
            0
        },
    };
    let parent_rule = match ir.get_rule(parent_id) {
        Some(r) => r,
        None => {
            assert(false);
            return String::new();
        },
    };
    let with_field = usize::MAX - parent_rule.alts().len() > 1;
    let elements = alt.elements();
    let ghost es = alt@.elements;
    let mut parts: Vec<String> = Vec::new();
    let mut i: usize = 0;
    while i < elements.len()
        invariant
            elements_ir_view(elements@) == es,
            es == alt@.elements,
            internal_renders(ir@, MatchNodeModel::Finish { alt: alt@ }),
            i <= elements.len(),
            strings_view(parts@) == es.take(i as int).map_values(
                |e: ElementIRModel|
                    if with_field {
                        field_init_of(ir@, e)
                    } else {
                        arg_of(ir@, e)
                    },
            ),
        decreases elements.len() - i,
    {
        assert(elements@[i as int]@ == es[i as int]);
        let ghost before = strings_view(parts@);
        let part = field_init(ir, &elements[i], with_field);
        let ghost pv = part@;
        parts.push(part);
        assert(strings_view(parts@) =~= before.push(pv));
        assert(es.take(i + 1) =~= es.take(i as int).push(es[i as int]));
        assert(strings_view(parts@) =~= es.take(i + 1).map_values(
            |e: ElementIRModel|
                if with_field {
                    field_init_of(ir@, e)
                } else {
                    arg_of(ir@, e)
                },
        ));
        i += 1;
    }
    assert(es.take(elements.len() as int) =~= es);
    let body = join(&parts, "\n");
    let mut s = parent_rule.name().clone();
    if with_field {
        assert(strings_view(parts@) =~= es.map_values(|e: ElementIRModel| field_init_of(ir@, e)));
        let label = match alt.label() {
            Some(l) => l.clone(),
            None => {
                let mut l = String::from_str("Alt");
                let digits = decimal_string(alt.index());
                l.append(digits.as_str());
                l
            },
        };
        s.append("::");
        s.append(label.as_str());
        s.append(" {\n                                ");
        s.append(body.as_str());
        s.append("\n                            }\n                            ");
    } else {
        assert(strings_view(parts@) =~= es.map_values(|e: ElementIRModel| arg_of(ir@, e)));
        s.append("::new (\n                                ");
        s.append(body.as_str());
        s.append("\n                            )\n                            ");
    }
    s
}

/// The Rust code of one step of a decision tree.
pub fn match_node_internal(ir: &AntlrIR, node: &MatchNode) -> (s: String)
    requires
        internal_renders(ir@, node@),
    ensures
        s@ == internal_of(ir@, node@),
    decreases node@,
{
    match node {
        MatchNode::Peek { peek, .. } => {
            let ghost ps = peek_view(peek@);
            assert(node@ matches MatchNodeModel::Peek { peek: p, .. } && p =~= ps);
            let mut cases: Vec<String> = Vec::new();
            let mut i: usize = 0;
            assert(ps.take(0) =~= Seq::<(usize, MatchNodeModel)>::empty());
            while i < peek.len()
                invariant
                    ps == peek_view(peek@),
                    node@ matches MatchNodeModel::Peek { peek: p, .. } && p == ps,
                    internal_renders(ir@, node@),
                    i <= peek.len(),
                    strings_view(cases@) == internal_cases_of(ir@, ps.take(i as int)),
                decreases peek.len() - i,
            {
                let ghost before = strings_view(cases@);
                proof {
                    let t = ps.take(i + 1);
                    assert(t.drop_last() =~= ps.take(i as int));
                    assert(t.last() == ps[i as int]);
                }
                assert(ps[i as int].1 == peek@[i as int].1@);
                assert(internal_renders(ir@, ps[i as int].1));
                let inner = match_node_internal(ir, &peek[i].1);
                let mut c = String::from_str("Some(");
                let k = decimal_string(peek[i].0);
                c.append(k.as_str());
                c.append(") => {\n                                ");
                c.append(inner.as_str());
                c.append("\n                            },\n                            ");
                let ghost cv = c@;
                cases.push(c);
                assert(strings_view(cases@) =~= before.push(cv));
                i += 1;
            }
            assert(ps.take(peek.len() as int) =~= ps);
            let body = join(&cases, "\n");
            let mut s = String::from_str("match self.peek().map(|t| t.token_type) {\n                            ");
            s.append(body.as_str());
            s.append("\n                        }\n                        ");
            s
        },
        MatchNode::Element { element, .. } => bind(ir, element),
        MatchNode::Finish { alt } => finish_internal(ir, alt),
    }
}

/// The statement that readies an element's variable before matching: none for
/// a required one, `None` for an optional one, an empty vector for a repeated one.
pub open spec fn initializer_of(ir: AntlrIRModel, e: ElementIRModel, idx: usize) -> Option<Seq<char>> {
    match e.suffix() {
        None => None,
        Some(EBNFSuffix::Optional) => match element_decl_of(ir, e, idx) {
            Some(d) => Some("let "@ + d + " = None;"@),
            None => None,
        },
        Some(_) => match element_decl_of(ir, e, idx) {
            Some(d) => Some("let mut "@ + d + " = Vec::new();"@),
            None => None,
        },
    }
}

pub open spec fn initializers_of(ir: AntlrIRModel, es: Seq<ElementIRModel>) -> Seq<Seq<char>>
    decreases es.len(),
{
    if es.len() == 0 {
        Seq::empty()
    } else {
        initializers_of(ir, es.drop_last()) + match initializer_of(
            ir,
            es.last(),
            (es.len() - 1) as usize,
        ) {
            Some(d) => seq![d],
            None => Seq::empty(),
        }
    }
}

pub fn match_element_initializer(ir: &AntlrIR, element: &ElementIR, element_idx: usize) -> (r:
    Option<String>)
    ensures
        opt_view(r) == initializer_of(ir@, element@, element_idx),
{
    match element.suffix() {
        None => None,
        Some(EBNFSuffix::Optional) => match element_decl(ir, element, element_idx) {
            Some(d) => {
                let mut s = String::from_str("let ");
                s.append(d.as_str());
                s.append(" = None;");
                Some(s)
            },
            None => None,
        },
        Some(_) => match element_decl(ir, element, element_idx) {
            Some(d) => {
                let mut s = String::from_str("let mut ");
                s.append(d.as_str());
                s.append(" = Vec::new();");
                Some(s)
            },
            None => None,
        },
    }
}

fn initializers(ir: &AntlrIR, elements: &Vec<ElementIR>) -> (v: Vec<String>)
    ensures
        strings_view(v@) == initializers_of(ir@, elements_ir_view(elements@)),
{
    let ghost es = elements_ir_view(elements@);
    let mut out: Vec<String> = Vec::new();
    let mut i: usize = 0;
    assert(es.take(0) =~= Seq::<ElementIRModel>::empty());
    while i < elements.len()
        invariant
            es == elements_ir_view(elements@),
            i <= elements.len(),
            strings_view(out@) == initializers_of(ir@, es.take(i as int)),
        decreases elements.len() - i,
    {
        let ghost before = strings_view(out@);
        proof {
            let t = es.take(i + 1);
            assert(t.drop_last() =~= es.take(i as int));
            assert(t.last() == es[i as int]);
        }
        match match_element_initializer(ir, &elements[i], i) {
            Some(d) => {
                out.push(d);
                assert(strings_view(out@) =~= before + seq![d@]);
            },
            None => {
                assert(strings_view(out@) =~= before + Seq::<Seq<char>>::empty());
            },
        }
        i += 1;
    }
    assert(es.take(elements.len() as int) =~= es);
    out
}

/// The Rust code that matches one element.
pub open spec fn element_match_of(ir: AntlrIRModel, e: ElementIRModel, idx: usize) -> Seq<char> {
    match e {
        ElementIRModel::RuleAtom { suffix, .. } => {
            let n = element_name_of(ir, e)->Some_0;
            let ni = indexed_name(n, idx);
            match suffix {
                None => "let "@ + ni + " = Box::new(self."@ + n + "()?);"@,
                Some(EBNFSuffix::Optional) => "let "@ + ni + " = self."@ + n
                    + "().ok().map(Box::new);"@,
                Some(_) => "while let Ok(__item) = self."@ + n + "() { "@ + ni + ".push(__item) }"@,
            }
        },
        ElementIRModel::TokenAtom { id, suffix } => {
            let t = decimal(id as nat);
            match id_lookup(ir.symbols.tokens, id) {
                Some(n) => {
                    let ni = indexed_name(n, idx);
                    match suffix {
                        None => "let "@ + ni + " = self.match_token("@ + t + ")?.clone();"@,
                        Some(EBNFSuffix::Optional) => "let "@ + ni + " = self.match_token("@ + t
                            + ").ok();"@,
                        Some(_) => "while let Ok(x) = self.match_token("@ + t + ") { "@ + ni
                            + ".push(x) }"@,
                    }
                },
                None => match suffix {
                    None => "let _ = self.match_token("@ + t + ")?;"@,
                    Some(EBNFSuffix::Optional) => "let _ = self.match_token("@ + t + ");"@,
                    Some(_) => "while let Ok(_) = self.match_token("@ + t + ") {}"@,
                },
            }
        },
        ElementIRModel::CharSet { .. } => "// Set placeholder\n"@,
    }
}

/// The value that ends an alternative: its variant, or the rule's constructor
/// when the rule has one alternative.
pub open spec fn finish_of(ir: AntlrIRModel, alt: AltIRModel) -> Seq<char> {
    let parent = ir.rules[alt.parent_rule->Some_0 as int];
    let names = joined(element_names_of(ir, alt.elements), ",\n"@);
    if parent.alts.len() > 1 {
        capitalized(parent.name) + "::"@ + alt_label_of(alt) + " {\n                "@ + names
            + "\n            }\n            "@
    } else {
        capitalized(parent.name) + "::new (\n                "@ + names + "\n            )\n            "@
    }
}

/// The Rust code of a decision tree.
pub open spec fn node_of(ir: AntlrIRModel, n: MatchNodeModel) -> Seq<char>
    decreases n, 0nat,
{
    match n {
        MatchNodeModel::Peek { peek, .. } => "match self.peek().map(|t| t.token_type) {\n            "@
            + joined(cases_of(ir, peek), "\n"@)
            + "\n\n            None => return Err(ANTLRError::EOF),\n            _ => return Err(ANTLRError::NoViableAlt),\n        }\n        "@,
        MatchNodeModel::Element { element, element_idx, next, .. } => element_match_of(
            ir,
            element,
            element_idx,
        ) + "\n"@ + node_of(ir, *next),
        MatchNodeModel::Finish { alt } => finish_of(ir, alt),
    }
}

pub open spec fn cases_of(ir: AntlrIRModel, ps: Seq<(usize, MatchNodeModel)>) -> Seq<Seq<char>>
    decreases ps, 0nat,
{
    if ps.len() == 0 {
        Seq::empty()
    } else {
        cases_of(ir, ps.drop_last()) + seq![case_of(ir, ps.last().0, ps.last().1)]
    }
}

/// One arm of the match on the next token.
pub open spec fn case_of(ir: AntlrIRModel, key: usize, v: MatchNodeModel) -> Seq<char>
    decreases v, 1nat,
{
    let inits = match v {
        MatchNodeModel::Element { alt, .. } => joined(initializers_of(ir, alt.elements), "\n"@),
        _ => Seq::empty(),
    };
    "\n            Some("@ + decimal(key as nat) + ") => {\n                "@ + inits
        + "\n                "@ + node_of(ir, v) + "\n            },\n        "@
}

pub fn match_element(
    ir: &AntlrIR,
    alt: &HashArc<AltIR>,
    element: &ElementIR,
    element_idx: usize,
    next: &MatchNode,
) -> (s: String)
    requires
        element@ is RuleAtom ==> element_name_of(ir@, element@) is Some,
        node_renders(ir@, next@),
    ensures
        s@ == element_match_of(ir@, element@, element_idx) + "\n"@ + node_of(ir@, next@),
    decreases next@, 1nat,
{
    let mut text = match element {
        ElementIR::RuleAtom { suffix, .. } => {
            let name = match element_name(ir, element) {
                Some(n) => n,
                None => {
                    assert(false);
                    String::new()
                },
            };
            let name_indexed = match element_name_indexed(ir, element, element_idx) {
                Some(n) => n,
                None => {
                    assert(false);
                    String::new()
                },
            };
            match suffix {
                None => {
                    let mut t = String::from_str("let ");
                    t.append(name_indexed.as_str());
                    t.append(" = Box::new(self.");
                    t.append(name.as_str());
                    t.append("()?);");
                    t
                },
                Some(EBNFSuffix::Optional) => {
                    let mut t = String::from_str("let ");
                    t.append(name_indexed.as_str());
                    t.append(" = self.");
                    t.append(name.as_str());
                    t.append("().ok().map(Box::new);");
                    t
                },
                Some(_) => {
                    let mut t = String::from_str("while let Ok(__item) = self.");
                    t.append(name.as_str());
                    t.append("() { ");
                    t.append(name_indexed.as_str());
                    t.append(".push(__item) }");
                    t
                },
            }
        },
        ElementIR::TokenAtom { id, suffix } => {
            let token = decimal_string(*id);
            match ir.symbols().get_token_name(*id) {
                Some(_) => {
                    let name_indexed = match element_name_indexed(ir, element, element_idx) {
                        Some(n) => n,
                        None => {
                            assert(false);
                            String::new()
                        },
                    };
                    match suffix {
                        None => {
                            let mut t = String::from_str("let ");
                            t.append(name_indexed.as_str());
                            t.append(" = self.match_token(");
                            t.append(token.as_str());
                            t.append(")?.clone();");
                            t
                        },
                        Some(EBNFSuffix::Optional) => {
                            let mut t = String::from_str("let ");
                            t.append(name_indexed.as_str());
                            t.append(" = self.match_token(");
                            t.append(token.as_str());
                            t.append(").ok();");
                            t
                        },
                        Some(_) => {
                            let mut t = String::from_str("while let Ok(x) = self.match_token(");
                            t.append(token.as_str());
                            t.append(") { ");
                            t.append(name_indexed.as_str());
                            t.append(".push(x) }");
                            t
                        },
                    }
                },
                None => {
                    let mut t = match suffix {
                        None => String::from_str("let _ = self.match_token("),
                        Some(EBNFSuffix::Optional) => String::from_str("let _ = self.match_token("),
                        Some(_) => String::from_str("while let Ok(_) = self.match_token("),
                    };
                    t.append(token.as_str());
                    match suffix {
                        None => t.append(")?;"),
                        Some(EBNFSuffix::Optional) => t.append(");"),
                        Some(_) => t.append(") {}"),
                    }
                    t
                },
            }
        },
        ElementIR::CharSet { .. } => String::from_str("// Set placeholder\n"),
    };
    let rest = match_node(ir, next);
    text.append("\n");
    text.append(rest.as_str());
    text
}

pub fn match_finish(ir: &AntlrIR, alt: &HashArc<AltIR>) -> (s: String)
    requires
        alt@@.parent_rule is Some,
        alt@@.parent_rule->Some_0 < ir@.rules.len(),
    ensures
        s@ == finish_of(ir@, alt@@),
{
    let alt = alt.get();
    let parent_id = match alt.parent() {
        Some(p) => p,
        None => {
            assert(false);
            0
        },
    };
    let parent_rule = match ir.get_rule(parent_id) {
        Some(r) => r,
        None => {
            assert(false);
            return String::new();
        },
    };
    let names = element_names(ir, alt.elements());
    let list = join(&names, ",\n");
    let mut s = capitalize(parent_rule.name().clone());
    if parent_rule.alts().len() > 1 {
        let label = match alt.label() {
            Some(l) => l.clone(),
            None => {
                let mut l = String::from_str("Alt");
                let digits = decimal_string(alt.index());
                l.append(digits.as_str());
                l
            },
        };
        s.append("::");
        s.append(label.as_str());
        s.append(" {\n                ");
        s.append(list.as_str());
        s.append("\n            }\n            ");
    } else {
        s.append("::new (\n                ");
        s.append(list.as_str());
        s.append("\n            )\n            ");
    }
    s
}

pub fn match_case(ir: &AntlrIR, key: usize, value: &MatchNode) -> (s: String)
    requires
        node_renders(ir@, value@),
    ensures
        s@ == case_of(ir@, key, value@),
    decreases value@, 1nat,
{
    let inits = match value {
        MatchNode::Element { alt, .. } => {
            let list = initializers(ir, alt.get().elements());
            join(&list, "\n")
        },
        _ => String::new(),
    };
    let body = match_node(ir, value);
    let mut s = String::from_str("\n            Some(");
    let k = decimal_string(key);
    s.append(k.as_str());
    s.append(") => {\n                ");
    s.append(inits.as_str());
    s.append("\n                ");
    s.append(body.as_str());
    s.append("\n            },\n        ");
    s
}

pub fn match_peek(ir: &AntlrIR, peek: &Vec<(usize, MatchNode)>, fallback: Option<&Box<MatchNode>>) -> (s:
    String)
    requires
        forall|i: int| 0 <= i < peek@.len() ==> node_renders(ir@, #[trigger] peek@[i].1@),
    ensures
        s@ == node_of(ir@, MatchNodeModel::Peek { peek: peek_view(peek@), fallback: None }),
    decreases peek_view(peek@), 1nat,
{
    let ghost ps = peek_view(peek@);
    let mut cases: Vec<String> = Vec::new();
    let mut i: usize = 0;
    assert(ps.take(0) =~= Seq::<(usize, MatchNodeModel)>::empty());
    while i < peek.len()
        invariant
            ps == peek_view(peek@),
            forall|k: int| 0 <= k < peek@.len() ==> node_renders(ir@, #[trigger] peek@[k].1@),
            i <= peek.len(),
            strings_view(cases@) == cases_of(ir@, ps.take(i as int)),
        decreases peek.len() - i,
    {
        let ghost before = strings_view(cases@);
        proof {
            let t = ps.take(i + 1);
            assert(t.drop_last() =~= ps.take(i as int));
            assert(t.last() == ps[i as int]);
        }
        assert(ps[i as int].1 == peek@[i as int].1@);
        assert(decreases_to!(ps => ps[i as int]));
        assert(decreases_to!(ps[i as int] => ps[i as int].1));
        let c = match_case(ir, peek[i].0, &peek[i].1);
        let ghost cv = c@;
        cases.push(c);
        assert(strings_view(cases@) =~= before.push(cv));
        i += 1;
    }
    assert(ps.take(peek.len() as int) =~= ps);
    let body = join(&cases, "\n");
    let mut s = String::from_str("match self.peek().map(|t| t.token_type) {\n            ");
    s.append(body.as_str());
    s.append(
        "\n\n            None => return Err(ANTLRError::EOF),\n            _ => return Err(ANTLRError::NoViableAlt),\n        }\n        ",
    );
    s
}

/// The Rust code of a decision tree: a match on the next token, the match of an
/// element followed by the rest, or the value that ends an alternative.
pub fn match_node(ir: &AntlrIR, node: &MatchNode) -> (s: String)
    requires
        node_renders(ir@, node@),
    ensures
        s@ == node_of(ir@, node@),
    decreases node@, 0nat,
{
    match node {
        MatchNode::Peek { peek, fallback } => {
            assert(node@ matches MatchNodeModel::Peek { peek: p, .. } && p =~= peek_view(peek@));
            assert forall|i: int| 0 <= i < peek@.len() implies node_renders(
                ir@,
                #[trigger] peek@[i].1@,
            ) by {
                assert(peek_view(peek@)[i].1 == peek@[i].1@);
            }
            match_peek(ir, peek, fallback.as_ref())
        },
        MatchNode::Element { alt, element_idx, element, next } => match_element(
            ir,
            alt,
            element,
            *element_idx,
            next,
        ),
        MatchNode::Finish { alt } => match_finish(ir, alt),
    }
}

/// The body of the generated lexer's `next`: a placeholder comment, whatever
/// the token rules are.
pub fn lexer_match(ir: &AntlrIR) -> (s: String)
    ensures
        s@ == "// lexer match here"@,
{
    String::from_str("// lexer match here")
}

/// The Rust method that parses rule `rule`: it records the rule on the
/// parser's stack, runs the rule's decision tree and gives back its value.
pub open spec fn rule_parser_of(ir: AntlrIRModel, rule: usize) -> Seq<char> {
    let name = ir.rules[rule as int].name;
    let tree = rule_tree(ir.rules, rule)->Some_0;
    let inits = match tree {
        MatchNodeModel::Element { alt, .. } => joined(initializers_of(ir, alt.elements), "\n"@),
        _ => Seq::empty(),
    };
    "pub fn "@ + name + "(&mut self) -> Result<"@ + capitalized(name)
        + ", ANTLRError> {\n            self.rule_stack.push_back("@ + decimal(rule as nat)
        + ");\n\n            let __result = {\n                "@ + inits + "\n                "@
        + node_of(ir, tree)
        + "\n            };\n\n            self.rule_stack.pop_back();\n            Ok(__result)\n        }"@
}

pub fn rule_parser(ir: &AntlrIR, rule: usize) -> (s: String)
    requires
        rule < ir@.rules.len(),
        ir@.rules[rule as int].alts.len() >= 1,
        rules_closed(ir@.rules),
        rules_placed(ir@.rules),
        rule_tree(ir@.rules, rule) is Some,
        node_renders(ir@, rule_tree(ir@.rules, rule)->Some_0),
    ensures
        s@ == rule_parser_of(ir@, rule),
{
    let name = match ir.get_rule(rule) {
        Some(r) => r.name().clone(),
        None => {
            assert(false);
            String::new()
        },
    };
    let rule_match = match_rule(ir, rule);
    let inits = match &rule_match {
        MatchNode::Element { alt, .. } => {
            let list = initializers(ir, alt.get().elements());
            join(&list, "\n")
        },
        _ => String::new(),
    };
    let body = match_node(ir, &rule_match);
    let mut s = String::from_str("pub fn ");
    s.append(name.as_str());
    s.append("(&mut self) -> Result<");
    let cap = capitalize(name);
    s.append(cap.as_str());
    s.append(", ANTLRError> {\n            self.rule_stack.push_back(");
    let r = decimal_string(rule);
    s.append(r.as_str());
    s.append(");\n\n            let __result = {\n                ");
    s.append(inits.as_str());
    s.append("\n                ");
    s.append(body.as_str());
    s.append("\n            };\n\n            self.rule_stack.pop_back();\n            Ok(__result)\n        }");
    s
}

/// Every rule can be given its parsing code: it has alternatives, and its
/// decision tree can be built and written out.
pub open spec fn parsers_render(ir: AntlrIRModel) -> bool {
    &&& rules_closed(ir.rules)
    &&& rules_placed(ir.rules)
    &&& forall|r: int|
        0 <= r < ir.rules.len() ==> {
            &&& (#[trigger] ir.rules[r]).alts.len() >= 1
            &&& rule_tree(ir.rules, r as usize) is Some
            &&& node_renders(ir, rule_tree(ir.rules, r as usize)->Some_0)
        }
}

/// The parsing code of each rule.
pub open spec fn parsers_of(ir: AntlrIRModel) -> Seq<Seq<char>> {
    Seq::new(ir.rules.len(), |r: int| rule_parser_of(ir, r as usize))
}

/// The type of each rule.
pub open spec fn types_of(ir: AntlrIRModel) -> Seq<Seq<char>> {
    Seq::new(
        ir.rules.len(),
        |r: int|
            if ir.rules[r].alts.len() == 1 {
                rule_struct_of(ir, r)
            } else {
                rule_enum_of(ir, r)
            },
    )
}

/// The generated parser's file: its preamble, a method per rule and the
/// rules' types.
pub open spec fn parser_file_of(ir: AntlrIRModel) -> Seq<char> {
    "\n                "@ + RUST_PARSE_HEADER@ + "\n                impl Parser {\n                    "@
        + joined(parsers_of(ir), "\n"@) + "\n                }\n                \n                "@
        + joined(types_of(ir), "\n"@) + "\n                "@
}

/// The generated lexer's file.
pub open spec fn lexer_file_of() -> Seq<char> {
    "\n                "@ + RUST_LEXER_HEADER@
        + "\n\n                impl Lexer {\n                    pub fn next() -> Token {\n                        "@
        + "// lexer match here"@ + "\n                    }\n                }\n                "@
}

/// The files of a generated Rust parser: `parser.rs` and `lexer.rs`.
pub fn render(ir: &AntlrIR) -> (files: Vec<OutputFile>)
    requires
        parsers_render(ir@),
    ensures
        files.len() == 2,
        files@[0].path_view() == "parser.rs"@,
        files@[0].content_view() == parser_file_of(ir@),
        files@[1].path_view() == "lexer.rs"@,
        files@[1].content_view() == lexer_file_of(),
{
    let n = ir.rules().len();
    let mut parsers: Vec<String> = Vec::new();
    let mut types: Vec<String> = Vec::new();
    let mut r: usize = 0;
    while r < n
        invariant
            n == ir@.rules.len(),
            parsers_render(ir@),
            r <= n,
            strings_view(parsers@) == parsers_of(ir@).take(r as int),
            strings_view(types@) == types_of(ir@).take(r as int),
        decreases n - r,
    {
        assert(ir@.rules[r as int].alts.len() >= 1);
        let ghost pb = strings_view(parsers@);
        let ghost tb = strings_view(types@);
        let p = rule_parser(ir, r);
        let t = rule_type(ir, r);
        let ghost pv = p@;
        let ghost tv = t@;
        parsers.push(p);
        types.push(t);
        assert(strings_view(parsers@) =~= pb.push(pv));
        assert(strings_view(types@) =~= tb.push(tv));
        assert(parsers_of(ir@).take(r + 1) =~= parsers_of(ir@).take(r as int).push(pv));
        assert(types_of(ir@).take(r + 1) =~= types_of(ir@).take(r as int).push(tv));
        r += 1;
    }
    assert(parsers_of(ir@).take(n as int) =~= parsers_of(ir@));
    assert(types_of(ir@).take(n as int) =~= types_of(ir@));
    let mut parser = String::from_str("\n                ");
    let h = parse_header();
    parser.append(h.as_str());
    parser.append("\n                impl Parser {\n                    ");
    let ps = join(&parsers, "\n");
    parser.append(ps.as_str());
    parser.append("\n                }\n                \n                ");
    let ts = join(&types, "\n");
    parser.append(ts.as_str());
    parser.append("\n                ");
    let mut lexer = String::from_str("\n                ");
    let lh = lexer_header();
    lexer.append(lh.as_str());
    lexer.append("\n\n                impl Lexer {\n                    pub fn next() -> Token {\n                        ");
    let lm = lexer_match(ir);
    lexer.append(lm.as_str());
    lexer.append("\n                    }\n                }\n                ");
    let mut files: Vec<OutputFile> = Vec::new();
    files.push(OutputFile::new(String::from_str("parser.rs"), parser));
    files.push(OutputFile::new(String::from_str("lexer.rs"), lexer));
    files
}



/// The Rust code for an optional element lets its rule or token be absent:
/// where the names hold no `?`, it holds no `?` that would pass a failure on,
/// while the code for the same element without a suffix does pass it on; so
/// the two differ.
pub proof fn law_optional_element_is_not_required(ir: AntlrIRModel, e: ElementIRModel, idx: usize)
    requires
        !(e is CharSet),
        e is RuleAtom ==> element_name_of(ir, e) is Some,
        element_name_of(ir, e) matches Some(n) ==> !n.contains('?'),
    ensures
        !element_match_of(ir, e.with_suffix(Some(EBNFSuffix::Optional)), idx).contains('?'),
        element_match_of(ir, e.with_suffix(None), idx).contains('?'),
        element_match_of(ir, e.with_suffix(Some(EBNFSuffix::Optional)), idx) != element_match_of(
            ir,
            e.with_suffix(None),
            idx,
        ),
{
    let opt = e.with_suffix(Some(EBNFSuffix::Optional));
    let man = e.with_suffix(None);
    let q = '?';
    reveal_strlit("let ");
    reveal_strlit(" = self.");
    reveal_strlit("().ok().map(Box::new);");
    reveal_strlit(" = Box::new(self.");
    reveal_strlit("()?);");
    reveal_strlit(" = self.match_token(");
    reveal_strlit(").ok();");
    reveal_strlit(")?.clone();");
    reveal_strlit("let _ = self.match_token(");
    reveal_strlit(");");
    reveal_strlit(")?;");
    match e {
        ElementIRModel::RuleAtom { id, .. } => {
            let n = element_name_of(ir, e)->Some_0;
            assert(element_name_of(ir, opt) == Some(n));
            assert(element_name_of(ir, man) == Some(n));
            let ni = indexed_name(n, idx);
            crate::langs::lemma_indexed_name_chars(n, idx, q);
            assert(!"let "@.contains(q));
            assert(!" = self."@.contains(q));
            assert(!"().ok().map(Box::new);"@.contains(q));
            crate::langs::lemma_contains_concat("let "@, ni, q);
            crate::langs::lemma_contains_concat("let "@ + ni, " = self."@, q);
            crate::langs::lemma_contains_concat("let "@ + ni + " = self."@, n, q);
            crate::langs::lemma_contains_concat("let "@ + ni + " = self."@ + n, "().ok().map(Box::new);"@, q);
            assert("()?);"@[2] == q);
            crate::langs::lemma_contains_concat("let "@ + ni + " = Box::new(self."@ + n, "()?);"@, q);
        },
        ElementIRModel::TokenAtom { id, .. } => {
            let t = decimal(id as nat);
            crate::langs::lemma_decimal_digits(id as nat);
            assert(!t.contains(q)) by {
                if t.contains(q) {
                    let k = choose|k: int| 0 <= k < t.len() && t[k] == q;
                    assert('0' <= t[k] <= '9');
                }
            }
            assert(!" = self.match_token("@.contains(q));
            match id_lookup(ir.symbols.tokens, id) {
                Some(n) => {
                    let ni = indexed_name(n, idx);
                    crate::langs::lemma_indexed_name_chars(n, idx, q);
                    assert(!"let "@.contains(q));
                    assert(!").ok();"@.contains(q));
                    crate::langs::lemma_contains_concat("let "@, ni, q);
                    crate::langs::lemma_contains_concat("let "@ + ni, " = self.match_token("@, q);
                    crate::langs::lemma_contains_concat("let "@ + ni + " = self.match_token("@, t, q);
                    crate::langs::lemma_contains_concat("let "@ + ni + " = self.match_token("@ + t, ").ok();"@, q);
                    assert(")?.clone();"@[1] == q);
                    crate::langs::lemma_contains_concat("let "@ + ni + " = self.match_token("@ + t, ")?.clone();"@, q);
                },
                None => {
                    assert(!"let _ = self.match_token("@.contains(q));
                    assert(!");"@.contains(q));
                    crate::langs::lemma_contains_concat("let _ = self.match_token("@, t, q);
                    crate::langs::lemma_contains_concat("let _ = self.match_token("@ + t, ");"@, q);
                    assert(")?;"@[1] == q);
                    crate::langs::lemma_contains_concat("let _ = self.match_token("@ + t, ")?;"@, q);
                },
            }
        },
        _ => {},
    }
}

} // verus!
