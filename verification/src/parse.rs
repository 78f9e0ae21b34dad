use vstd::prelude::*;

use crate::ast::{
    ANTLRAst, Alt, AltList, AltListModel, AltModel, AstModel, Atom, AtomModel, Block,
    EBNFSuffix, Element, ElementModel, Rule, RuleModel, TokenRule, TokenRuleModel, alts_view,
    elements_view,
};
use crate::codeset::CodeSet;
use crate::lex::{ANTLRToken, ANTLRTokenType, Lexer, LexerErr, lex_token, lemma_lex_token_advances};
use vstd::std_specs::iter::IteratorSpec;

verus! {

/// A token as a value: its kind and its text.
pub type Tok = (ANTLRTokenType, Seq<char>);

#[derive(Debug)]
pub enum ParserErr {
    UnexpectedToken { expected: ANTLRTokenType, got: ANTLRTokenType },
    NoTokenMatched { expected: Vec<ANTLRTokenType>, got: ANTLRTokenType },
    SyntaxErr { reason: String },
    UnexpectedEOF,
}

/// The abstract value of a parser error.
pub enum ParserErrView {
    UnexpectedToken { expected: ANTLRTokenType, got: ANTLRTokenType },
    NoTokenMatched { expected: Seq<ANTLRTokenType>, got: ANTLRTokenType },
    SyntaxErr { reason: Seq<char> },
    UnexpectedEOF,
}

impl View for ParserErr {
    type V = ParserErrView;

    open spec fn view(&self) -> ParserErrView {
        match self {
            ParserErr::UnexpectedToken { expected, got } => ParserErrView::UnexpectedToken {
                expected: *expected,
                got: *got,
            },
            ParserErr::NoTokenMatched { expected, got } => ParserErrView::NoTokenMatched {
                expected: expected@,
                got: *got,
            },
            ParserErr::SyntaxErr { reason } => ParserErrView::SyntaxErr { reason: reason@ },
            ParserErr::UnexpectedEOF => ParserErrView::UnexpectedEOF,
        }
    }
}

/// A recursive-descent parser over the tokens of a grammar, with a read position.
pub struct Parser {
    tokens: Vec<ANTLRToken>,
    head: usize,
}

/// The abstract state of a parser: its tokens and its read position.
pub struct ParserView {
    pub tokens: Seq<Tok>,
    pub head: int,
}

pub open spec fn tokens_view(ts: Seq<ANTLRToken>) -> Seq<Tok> {
    ts.map_values(|t: ANTLRToken| t@)
}

impl View for Parser {
    type V = ParserView;

    closed spec fn view(&self) -> ParserView {
        ParserView { tokens: tokens_view(self.tokens@), head: self.head as int }
    }
}

// ---------------------------------------------------------------------------
// Lexing a whole input.
// ---------------------------------------------------------------------------

/// Tokens that the parser never sees.
pub open spec fn is_skipped(t: ANTLRTokenType) -> bool {
    t == ANTLRTokenType::WS || t == ANTLRTokenType::Comment || t == ANTLRTokenType::CommentBlock
}

/// How many characters are left to read from `h`, counting the end.
pub open spec fn chars_left(s: Seq<char>, h: int) -> nat {
    if 0 <= h <= s.len() {
        (s.len() + 1 - h) as nat
    } else {
        0
    }
}

/// The tokens the parser keeps from lexing the input from `h` until the end-of-input
/// token, or the first lexing error; `None` where lexing does not return.
pub open spec fn lex_all(s: Seq<char>, h: int) -> Option<Result<Seq<Tok>, LexerErr>>
    decreases chars_left(s, h),
{
    match lex_token(s, h) {
        None => None,
        Some((r, e)) => match r {
            Err(err) => Some(Err(err)),
            Ok(t) => if t.0 == ANTLRTokenType::EOF || h < 0 {
                Some(Ok(Seq::empty()))
            } else {
                proof {
                    lemma_lex_token_advances(s, h);
                }
                let rest = lex_all(s, e);
                if is_skipped(t.0) {
                    rest
                } else {
                    prepend_tok(t, rest)
                }
            },
        },
    }
}

pub open spec fn prepend_tok(t: Tok, r: Option<Result<Seq<Tok>, LexerErr>>) -> Option<
    Result<Seq<Tok>, LexerErr>,
> {
    match r {
        Some(Ok(ts)) => Some(Ok(seq![t] + ts)),
        other => other,
    }
}

pub open spec fn prepend_toks(pre: Seq<Tok>, r: Option<Result<Seq<Tok>, LexerErr>>) -> Option<
    Result<Seq<Tok>, LexerErr>,
> {
    match r {
        Some(Ok(ts)) => Some(Ok(pre + ts)),
        other => other,
    }
}

// ---------------------------------------------------------------------------
// The grammar of grammars, as spec functions over the tokens and a position.
// Each gives the result and the position after it. The position never moves
// backward; the guards `h1 >= h` below only make that visible to the definition.
// ---------------------------------------------------------------------------

/// The token at position `i`; past the end, an end-of-input token.
pub open spec fn tok_at(ts: Seq<Tok>, i: int) -> Tok {
    if 0 <= i < ts.len() {
        ts[i]
    } else {
        (ANTLRTokenType::EOF, Seq::empty())
    }
}

/// Looking past the last token, or before the first, reads the end of input.
pub proof fn law_peek_past_end_is_eof(ts: Seq<Tok>, i: int)
    requires
        i < 0 || i >= ts.len(),
    ensures
        tok_at(ts, i) == (ANTLRTokenType::EOF, Seq::<char>::empty()),
{
}

/// `~` before a set only inverts it: the element read from `~` and a set is
/// the element read from the set alone, with the same codes, the same suffix
/// (the one that follows the set, if any) and the same end, inverted.
pub proof fn law_negated_set_keeps_suffix(ts: Seq<Tok>, h: int)
    requires
        tok_at(ts, h).0 == ANTLRTokenType::Not,
        tok_at(ts, h + 1).0 == ANTLRTokenType::Charset,
    ensures
        p_element(ts, h + 1) == (
            Ok::<ElementModel, ParserErrView>(ElementModel::CharSet {
                inverted: false,
                set: code_set_of(tok_at(ts, h + 1).1),
                suffix: opt_suffix(ts, h + 2).0,
            }),
            opt_suffix(ts, h + 2).1,
        ),
        p_element(ts, h) == (
            Ok::<ElementModel, ParserErrView>(ElementModel::CharSet {
                inverted: true,
                set: code_set_of(tok_at(ts, h + 1).1),
                suffix: opt_suffix(ts, h + 2).0,
            }),
            opt_suffix(ts, h + 2).1,
        ),
        tok_at(ts, h + 2).0 == ANTLRTokenType::Plus ==> p_element(ts, h).0
            == Ok::<ElementModel, ParserErrView>(ElementModel::CharSet {
                inverted: true,
                set: code_set_of(tok_at(ts, h + 1).1),
                suffix: Some(EBNFSuffix::Plus),
            }),
        tok_at(ts, h + 2).0 == ANTLRTokenType::Star ==> p_element(ts, h).0
            == Ok::<ElementModel, ParserErrView>(ElementModel::CharSet {
                inverted: true,
                set: code_set_of(tok_at(ts, h + 1).1),
                suffix: Some(EBNFSuffix::Star),
            }),
        tok_at(ts, h + 2).0 == ANTLRTokenType::Question ==> p_element(ts, h).0
            == Ok::<ElementModel, ParserErrView>(ElementModel::CharSet {
                inverted: true,
                set: code_set_of(tok_at(ts, h + 1).1),
                suffix: Some(EBNFSuffix::Optional),
            }),
{
    let t = tok_at(ts, h + 2).0;
    if t == ANTLRTokenType::Plus || t == ANTLRTokenType::Star || t == ANTLRTokenType::Question {
        assert(suffix_types().contains(t)) by {
            if t == ANTLRTokenType::Plus {
                assert(suffix_types()[2] == t);
            } else if t == ANTLRTokenType::Star {
                assert(suffix_types()[1] == t);
            } else {
                assert(suffix_types()[0] == t);
            }
        }
    }
}

/// How many tokens are left to read from `h`.
pub open spec fn toks_left(ts: Seq<Tok>, h: int) -> nat {
    if h < ts.len() {
        (ts.len() - h) as nat
    } else {
        0
    }
}

pub type Step<T> = (Result<T, ParserErrView>, int);

pub open spec fn match_tok(ts: Seq<Tok>, h: int, tt: ANTLRTokenType) -> Step<Tok> {
    let t = tok_at(ts, h);
    if t.0 != tt {
        (Err(ParserErrView::UnexpectedToken { expected: tt, got: t.0 }), h)
    } else {
        (Ok(t), h + 1)
    }
}

pub open spec fn match_any(ts: Seq<Tok>, h: int, tts: Seq<ANTLRTokenType>) -> Step<Tok> {
    let t = tok_at(ts, h);
    if tts.contains(t.0) {
        (Ok(t), h + 1)
    } else {
        (Err(ParserErrView::NoTokenMatched { expected: tts, got: t.0 }), h)
    }
}

pub open spec fn suffix_types() -> Seq<ANTLRTokenType> {
    seq![ANTLRTokenType::Question, ANTLRTokenType::Star, ANTLRTokenType::Plus]
}

pub open spec fn atom_types() -> Seq<ANTLRTokenType> {
    seq![ANTLRTokenType::StringLit, ANTLRTokenType::RuleID, ANTLRTokenType::TokenID]
}

pub open spec fn id_types() -> Seq<ANTLRTokenType> {
    seq![ANTLRTokenType::RuleID, ANTLRTokenType::TokenID]
}

pub open spec fn element_types() -> Seq<ANTLRTokenType> {
    seq![
        ANTLRTokenType::StringLit,
        ANTLRTokenType::TokenID,
        ANTLRTokenType::RuleID,
        ANTLRTokenType::LParen,
    ]
}

pub open spec fn rule_start_types() -> Seq<ANTLRTokenType> {
    seq![ANTLRTokenType::TokenID, ANTLRTokenType::RuleID, ANTLRTokenType::EOF]
}

/// `?`, `*` or `+`; a `?` right after `*` or `+` is read and changes nothing.
pub open spec fn p_suffix(ts: Seq<Tok>, h: int) -> Step<EBNFSuffix> {
    let (r, h1) = match_any(ts, h, suffix_types());
    match r {
        Err(e) => (Err(e), h1),
        Ok(t) => if t.0 == ANTLRTokenType::Question {
            (Ok(EBNFSuffix::Optional), h1)
        } else if t.0 == ANTLRTokenType::Star {
            (Ok(EBNFSuffix::Star), match_tok(ts, h1, ANTLRTokenType::Question).1)
        } else {
            (Ok(EBNFSuffix::Plus), match_tok(ts, h1, ANTLRTokenType::Question).1)
        },
    }
}

/// An optional suffix.
pub open spec fn opt_suffix(ts: Seq<Tok>, h: int) -> (Option<EBNFSuffix>, int) {
    let (r, h1) = p_suffix(ts, h);
    match r {
        Ok(s) => (Some(s), h1),
        Err(_) => (None, h1),
    }
}

pub open spec fn p_atom(ts: Seq<Tok>, h: int) -> Step<AtomModel> {
    let (r, h1) = match_any(ts, h, atom_types());
    match r {
        Err(e) => (Err(e), h1),
        Ok(t) => if t.0 == ANTLRTokenType::StringLit {
            (Ok(AtomModel::StringLit(t.1)), h1)
        } else {
            (Ok(AtomModel::ID(t.1)), h1)
        },
    }
}

/// The codes of the characters of a set's text.
pub open spec fn code_set_of(text: Seq<char>) -> Set<usize> {
    Set::new(|u: usize| exists|i: int| 0 <= i < text.len() && text[i] as usize == u)
}

pub open spec fn p_element(ts: Seq<Tok>, h: int) -> Step<ElementModel>
    decreases toks_left(ts, h), 1int,
{
    let t = tok_at(ts, h).0;
    if t == ANTLRTokenType::StringLit || t == ANTLRTokenType::TokenID || t
        == ANTLRTokenType::RuleID {
        let (a, h1) = p_atom(ts, h);
        match a {
            Err(e) => (Err(e), h1),
            Ok(atom) => {
                let (s, h2) = opt_suffix(ts, h1);
                (Ok(ElementModel::Atom { atom, suffix: s }), h2)
            },
        }
    } else if t == ANTLRTokenType::Not {
        let (r, h2) = match_tok(ts, h + 1, ANTLRTokenType::Charset);
        match r {
            Err(e) => (Err(e), h2),
            Ok(set_tok) => {
                let (s, h3) = opt_suffix(ts, h2);
                (Ok(ElementModel::CharSet { inverted: true, set: code_set_of(set_tok.1), suffix: s }), h3)
            },
        }
    } else if t == ANTLRTokenType::Charset {
        let (s, h2) = opt_suffix(ts, h + 1);
        (
            Ok(
                ElementModel::CharSet {
                    inverted: false,
                    set: code_set_of(tok_at(ts, h).1),
                    suffix: s,
                },
            ),
            h2,
        )
    } else if t == ANTLRTokenType::LParen {
        let (b, h1) = p_block(ts, h);
        match b {
            Err(e) => (Err(e), h1),
            Ok(block) => {
                let (s, h2) = opt_suffix(ts, h1);
                (Ok(ElementModel::Block { block, suffix: s }), h2)
            },
        }
    } else {
        (Err(ParserErrView::NoTokenMatched { expected: element_types(), got: t }), h)
    }
}

/// `(` alternatives `)`.
pub open spec fn p_block(ts: Seq<Tok>, h: int) -> Step<AltListModel>
    decreases toks_left(ts, h), 0int,
{
    let (r, h1) = match_tok(ts, h, ANTLRTokenType::LParen);
    match r {
        Err(e) => (Err(e), h1),
        Ok(_) => {
            let (l, h2) = p_alt_list(ts, h1);
            match l {
                Err(e) => (Err(e), h2),
                Ok(alts) => {
                    let (r2, h3) = match_tok(ts, h2, ANTLRTokenType::RParen);
                    match r2 {
                        Err(e) => (Err(e), h3),
                        Ok(_) => (Ok(alts), h3),
                    }
                },
            }
        },
    }
}

/// Elements read one after the other, after `acc`, until one fails.
pub open spec fn p_elements(ts: Seq<Tok>, h: int, acc: Seq<ElementModel>) -> (Seq<ElementModel>, int)
    decreases toks_left(ts, h), 2int,
{
    let (r, h1) = p_element(ts, h);
    match r {
        Err(_) => (acc, h1),
        Ok(e) => if h1 > h && h < ts.len() {
            p_elements(ts, h1, acc.push(e))
        } else {
            (acc.push(e), h1)
        },
    }
}

/// `-> rule(ID)`: the channel written after an alternative.
pub open spec fn p_channel(ts: Seq<Tok>, h: int) -> Step<Option<Seq<char>>> {
    let (a, h1) = match_tok(ts, h, ANTLRTokenType::Arrow);
    if a is Err {
        (Ok(None), h1)
    } else {
        let (r1, h2) = match_tok(ts, h1, ANTLRTokenType::RuleID);
        match r1 {
            Err(e) => (Err(e), h2),
            Ok(_) => {
                let (r2, h3) = match_tok(ts, h2, ANTLRTokenType::LParen);
                match r2 {
                    Err(e) => (Err(e), h3),
                    Ok(_) => {
                        let (r3, h4) = match_any(ts, h3, id_types());
                        match r3 {
                            Err(e) => (Err(e), h4),
                            Ok(id) => {
                                let (r4, h5) = match_tok(ts, h4, ANTLRTokenType::RParen);
                                match r4 {
                                    Err(e) => (Err(e), h5),
                                    Ok(_) => (Ok(Some(id.1)), h5),
                                }
                            },
                        }
                    },
                }
            },
        }
    }
}

/// `# ID`: the label written after an alternative.
pub open spec fn p_label(ts: Seq<Tok>, h: int) -> Step<Option<Seq<char>>> {
    let (p, h1) = match_tok(ts, h, ANTLRTokenType::Pound);
    if p is Err {
        (Ok(None), h1)
    } else {
        let (r, h2) = match_any(ts, h1, id_types());
        match r {
            Err(e) => (Err(e), h2),
            Ok(t) => (Ok(Some(t.1)), h2),
        }
    }
}

/// An alternative: its elements, then an optional label and channel. No elements
/// make an empty alternative (`None`).
pub open spec fn p_alt(ts: Seq<Tok>, h: int) -> Step<Option<AltModel>>
    decreases toks_left(ts, h), 3int,
{
    let (elements, h1) = p_elements(ts, h, Seq::empty());
    if elements.len() == 0 {
        (Ok(None), h1)
    } else {
        let (l, h2) = p_label(ts, h1);
        match l {
            Err(e) => (Err(e), h2),
            Ok(label) => {
                let (c, h3) = p_channel(ts, h2);
                match c {
                    Err(e) => (Err(e), h3),
                    Ok(channel) => (Ok(Some(AltModel { label, elements, channel })), h3),
                }
            },
        }
    }
}

/// Adds an alternative to a list: an empty one makes the list optional.
pub open spec fn add_alt(l: AltListModel, a: Option<AltModel>) -> AltListModel {
    match a {
        Some(alt) => AltListModel { optional: l.optional, alts: l.alts.push(alt) },
        None => AltListModel { optional: true, alts: l.alts },
    }
}

/// Further alternatives, each after a `|`.
pub open spec fn p_alt_list_rest(ts: Seq<Tok>, h: int, l: AltListModel) -> Step<AltListModel>
    decreases toks_left(ts, h), 4int,
{
    let (o, h1) = match_tok(ts, h, ANTLRTokenType::OR);
    if o is Err {
        (Ok(l), h1)
    } else {
        let (r, h2) = p_alt(ts, h1);
        match r {
            Err(e) => (Err(e), h2),
            Ok(a) => if h2 >= h1 {
                p_alt_list_rest(ts, h2, add_alt(l, a))
            } else {
                (Err(ParserErrView::UnexpectedEOF), h2)
            },
        }
    }
}

/// Alternatives separated by `|`.
pub open spec fn p_alt_list(ts: Seq<Tok>, h: int) -> Step<AltListModel>
    decreases toks_left(ts, h), 5int,
{
    let (r, h1) = p_alt(ts, h);
    match r {
        Err(e) => (Err(e), h1),
        Ok(a) => if h1 >= h {
            p_alt_list_rest(ts, h1, add_alt(AltListModel { optional: false, alts: Seq::empty() }, a))
        } else {
            (Err(ParserErrView::UnexpectedEOF), h1)
        },
    }
}

/// `name : alternatives ;` for a parser rule.
pub open spec fn p_rule(ts: Seq<Tok>, h: int) -> Step<RuleModel> {
    let (n, h1) = match_tok(ts, h, ANTLRTokenType::RuleID);
    match n {
        Err(e) => (Err(e), h1),
        Ok(name) => {
            let (c, h2) = match_tok(ts, h1, ANTLRTokenType::Colon);
            match c {
                Err(e) => (Err(e), h2),
                Ok(_) => {
                    let (l, h3) = p_alt_list(ts, h2);
                    match l {
                        Err(e) => (Err(e), h3),
                        Ok(alt_list) => {
                            let (s, h4) = match_tok(ts, h3, ANTLRTokenType::Semi);
                            match s {
                                Err(e) => (Err(e), h4),
                                Ok(_) => (Ok(RuleModel { name: name.1, alt_list }), h4),
                            }
                        },
                    }
                },
            }
        },
    }
}

/// `fragment? NAME : alternatives ;` for a token rule.
pub open spec fn p_token_rule(ts: Seq<Tok>, h: int) -> Step<TokenRuleModel> {
    let is_fragment = tok_at(ts, h).0 == ANTLRTokenType::Fragment;
    let h0 = if is_fragment {
        h + 1
    } else {
        h
    };
    let (n, h1) = match_tok(ts, h0, ANTLRTokenType::TokenID);
    match n {
        Err(e) => (Err(e), h1),
        Ok(name) => {
            let (c, h2) = match_tok(ts, h1, ANTLRTokenType::Colon);
            match c {
                Err(e) => (Err(e), h2),
                Ok(_) => {
                    let (l, h3) = p_alt_list(ts, h2);
                    match l {
                        Err(e) => (Err(e), h3),
                        Ok(alt_list) => {
                            let (s, h4) = match_tok(ts, h3, ANTLRTokenType::Semi);
                            match s {
                                Err(e) => (Err(e), h4),
                                Ok(_) => (Ok(TokenRuleModel { is_fragment, name: name.1, alt_list }), h4),
                            }
                        },
                    }
                },
            }
        },
    }
}

/// Rules until the end of the tokens. A rule that fails to parse is left out, and
/// reading goes on from where it stopped.
pub open spec fn p_grammar(ts: Seq<Tok>, h: int, acc: AstModel) -> Step<AstModel>
    decreases toks_left(ts, h),
{
    let t = tok_at(ts, h).0;
    if t == ANTLRTokenType::TokenID || t == ANTLRTokenType::Fragment {
        let (r, h1) = p_token_rule(ts, h);
        let acc2 = match r {
            Ok(tr) => AstModel { rules: acc.rules, token_rules: acc.token_rules.push(tr) },
            Err(_) => acc,
        };
        if h1 > h {
            p_grammar(ts, h1, acc2)
        } else {
            (Err(ParserErrView::UnexpectedEOF), h1)
        }
    } else if t == ANTLRTokenType::RuleID {
        let (r, h1) = p_rule(ts, h);
        let acc2 = match r {
            Ok(rule) => AstModel { rules: acc.rules.push(rule), token_rules: acc.token_rules },
            Err(_) => acc,
        };
        if h1 > h {
            p_grammar(ts, h1, acc2)
        } else {
            (Err(ParserErrView::UnexpectedEOF), h1)
        }
    } else if t == ANTLRTokenType::EOF {
        (Ok(acc), h)
    } else {
        (Err(ParserErrView::NoTokenMatched { expected: rule_start_types(), got: t }), h)
    }
}

/// `grammar NAME ;` read from `h`, where the `grammar` keyword stands: the
/// declaration is read and set aside.
pub open spec fn p_decl(ts: Seq<Tok>, h: int) -> Step<()> {
    let (n, h1) = match_any(ts, h + 1, id_types());
    match n {
        Err(e) => (Err(e), h1),
        Ok(_) => {
            let (s, h2) = match_tok(ts, h1, ANTLRTokenType::Semi);
            match s {
                Err(e) => (Err(e), h2),
                Ok(_) => (Ok(()), h2),
            }
        },
    }
}

/// A whole grammar: an optional declaration `grammar NAME ;`, then its rules.
pub open spec fn p_spec(ts: Seq<Tok>, h: int) -> Step<AstModel> {
    if tok_at(ts, h).0 == ANTLRTokenType::Grammar {
        let (d, h1) = p_decl(ts, h);
        match d {
            Err(e) => (Err(e), h1),
            Ok(_) => p_grammar(ts, h1, empty_ast()),
        }
    } else {
        p_grammar(ts, h, empty_ast())
    }
}

proof fn lemma_types_exclude_eof()
    ensures
        !suffix_types().contains(ANTLRTokenType::EOF),
        !atom_types().contains(ANTLRTokenType::EOF),
        !id_types().contains(ANTLRTokenType::EOF),
{
    assert(forall|i: int| 0 <= i < suffix_types().len() ==> suffix_types()[i] != ANTLRTokenType::EOF);
    assert(forall|i: int| 0 <= i < atom_types().len() ==> atom_types()[i] != ANTLRTokenType::EOF);
    assert(forall|i: int| 0 <= i < id_types().len() ==> id_types()[i] != ANTLRTokenType::EOF);
}

pub open spec fn empty_ast() -> AstModel {
    AstModel { rules: Seq::empty(), token_rules: Seq::empty() }
}

// ---------------------------------------------------------------------------
// The parser.
// ---------------------------------------------------------------------------

/// The view of a parse result.
pub open spec fn result_view<T: View>(r: Result<T, ParserErr>) -> Result<T::V, ParserErrView> {
    match r {
        Ok(v) => Ok(v@),
        Err(e) => Err(e@),
    }
}

pub open spec fn alt_result_view(r: Result<Option<Alt>, ParserErr>) -> Result<
    Option<AltModel>,
    ParserErrView,
> {
    match r {
        Ok(Some(a)) => Ok(Some(a@)),
        Ok(None) => Ok(None),
        Err(e) => Err(e@),
    }
}

pub open spec fn label_result_view(r: Result<Option<String>, ParserErr>) -> Result<
    Option<Seq<char>>,
    ParserErrView,
> {
    match r {
        Ok(Some(s)) => Ok(Some(s@)),
        Ok(None) => Ok(None),
        Err(e) => Err(e@),
    }
}

/// Positions that leave room for one more step.
pub open spec fn fits(v: ParserView) -> bool {
    0 <= v.head < usize::MAX && v.tokens.len() < usize::MAX
}

/// The tokens stay, and the position moves forward and not past the end (unless
/// it was already there).
pub open spec fn moved_forward(o: ParserView, f: ParserView) -> bool {
    &&& f.tokens == o.tokens
    &&& o.head <= f.head
    &&& (f.head == o.head || f.head <= o.tokens.len())
}

pub open spec fn ast_model_of(rules: Seq<Rule>, token_rules: Seq<TokenRule>) -> AstModel {
    AstModel {
        rules: rules.map_values(|r: Rule| r@),
        token_rules: token_rules.map_values(|r: TokenRule| r@),
    }
}

fn code_set_from_text(text: &String) -> (s: CodeSet)
    ensures
        s@ == code_set_of(text@),
{
    let mut set = CodeSet::new();
    let st = text.as_str();
    let mut it = st.chars();
    let ghost mut read: Seq<char> = Seq::empty();
    proof {
        broadcast use vstd::string::group_string_axioms;

        assert(code_set_of(read) =~= Set::<usize>::empty());
        assert(read + it.remaining() =~= st@);
    }
    loop
        invariant
            read + it.remaining() == st@,
            it.obeys_prophetic_iter_laws(),
            set@ == code_set_of(read),
            st@ == text@,
        ensures
            read == st@,
            set@ == code_set_of(read),
        decreases st@.len() - read.len(),
    {
        match it.next() {
            Some(c) => {
                set.insert(c as usize);
                proof {
                    let old_read = read;
                    read = read.push(c);
                    assert(read + it.remaining() =~= st@);
                    assert(code_set_of(read) =~= code_set_of(old_read).insert(c as usize)) by {
                        assert forall|u: usize| code_set_of(read).contains(u) implies code_set_of(
                            old_read,
                        ).insert(c as usize).contains(u) by {
                            let i = choose|i: int| 0 <= i < read.len() && read[i] as usize == u;
                            if i < old_read.len() {
                                assert(old_read[i] == read[i]);
                            }
                        }
                        assert forall|u: usize| code_set_of(old_read).insert(c as usize).contains(
                            u,
                        ) implies code_set_of(read).contains(u) by {
                            if u == c as usize {
                                assert(read[old_read.len() as int] == c);
                            } else {
                                let i = choose|i: int|
                                    0 <= i < old_read.len() && old_read[i] as usize == u;
                                assert(read[i] == old_read[i]);
                            }
                        }
                    }
                }
            },
            None => {
                assert(read =~= st@);
                break ;
            },
        }
    }
    set
}

/// Whether lexing from the lexer's position returns: it reaches the end of
/// the input or a lexing error, rather than reading on forever.
pub fn lexing_returns(lexer: &Lexer) -> (b: bool)
    requires
        lexer@.head < usize::MAX,
        lexer@.input.len() + 2 < usize::MAX,
    ensures
        b == lex_all(lexer@.input, lexer@.head) is Some,
{
    let ghost s = lexer@.input;
    let ghost h0 = lexer@.head;
    let mut lx = lexer.duplicate();
    proof {
        lx.lemma_head_bounds();
    }
    loop
        invariant
            s == lexer@.input,
            h0 == lexer@.head,
            lx@.input == s,
            0 <= lx@.head,
            s.len() + 2 < usize::MAX,
            lx@.head <= s.len() + 1 || lx@.head == h0,
            lx@.head < usize::MAX,
            (lex_all(s, h0) is Some) == (lex_all(s, lx@.head) is Some),
        decreases chars_left(s, lx@.head),
    {
        let ghost h = lx@.head;
        proof {
            lemma_lex_token_advances(s, h);
        }
        if !lx.token_returns() {
            assert(lex_all(s, h) is None);
            return false;
        }
        match lx.next_token() {
            Err(e) => {
                assert(lex_all(s, h) == Some(Err::<Seq<Tok>, LexerErr>(e)));
                return true;
            },
            Ok(t) => {
                if t.token_type() == ANTLRTokenType::EOF {
                    assert(lex_all(s, h) == Some(Ok::<Seq<Tok>, LexerErr>(Seq::empty())));
                    return true;
                }
            },
        }
    }
}

impl Parser {
    fn eof_token() -> (t: ANTLRToken)
        ensures
            t@ == (ANTLRTokenType::EOF, Seq::<char>::empty()),
    {
        ANTLRToken::new(ANTLRTokenType::EOF, String::new())
    }

    fn token_at(&self, i: usize) -> (t: ANTLRToken)
        ensures
            t@ == tok_at(self@.tokens, i as int),
    {
        if i < self.tokens.len() {
            let t = &self.tokens[i];
            ANTLRToken::new(t.token_type(), t.text())
        } else {
            Self::eof_token()
        }
    }

    pub fn new(lexer: Lexer) -> (r: Result<Parser, LexerErr>)
        requires
            lexer@.head < usize::MAX,
            lexer@.input.len() + 2 < usize::MAX,
            lex_all(lexer@.input, lexer@.head) is Some,
        ensures
            lex_all(lexer@.input, lexer@.head) matches Some(Ok(ts)) ==> (r matches Ok(p) && p@.tokens
                == ts && p@.head == 0),
            lex_all(lexer@.input, lexer@.head) matches Some(Err(e)) ==> r == Err::<Parser, LexerErr>(e),
    {
        let ghost s = lexer@.input;
        let ghost h0 = lexer@.head;
        let ghost target = lex_all(lexer@.input, lexer@.head);
        let mut lexer = lexer;
        proof {
            lexer.lemma_head_bounds();
        }
        let mut tokens: Vec<ANTLRToken> = Vec::new();
        let mut failure: Option<LexerErr> = None;
        loop
            invariant_except_break
                target == prepend_toks(tokens_view(tokens@), lex_all(s, lexer@.head as int)),
                lexer@.head <= s.len() + 1 || lexer@.head == h0,
                lexer@.head < usize::MAX,
                failure is None,
            invariant
                lexer@.input == s,
                0 <= lexer@.head,
                s.len() + 2 < usize::MAX,
                target is Some,
                target == lex_all(s, h0),
            ensures
                match failure {
                    Some(e) => target == Some(Err::<Seq<Tok>, LexerErr>(e)),
                    None => target == Some(Ok::<Seq<Tok>, LexerErr>(tokens_view(tokens@))),
                },
            decreases chars_left(s, lexer@.head),
        {
            let ghost h = lexer@.head;
            proof {
                lemma_lex_token_advances(s, h);
            }
            let token = match lexer.next_token() {
                Ok(t) => t,
                Err(e) => {
                    assert(lex_all(s, h as int) == Some(Err::<Seq<Tok>, LexerErr>(e)));
                    failure = Some(e);
                    break ;
                },
            };
            let tt = token.token_type();
            if tt == ANTLRTokenType::WS || tt == ANTLRTokenType::Comment || tt
                == ANTLRTokenType::CommentBlock {
                continue ;
            }
            if tt == ANTLRTokenType::EOF {
                proof {
                    assert(tokens_view(tokens@) + Seq::<Tok>::empty() =~= tokens_view(tokens@));
                }
                break ;
            }
            let ghost before = tokens@;
            tokens.push(token);
            proof {
                assert(tokens_view(tokens@) =~= tokens_view(before).push(token@));
                match lex_all(s, lexer@.head as int) {
                    Some(Ok(rest)) => {
                        assert(tokens_view(before) + (seq![token@] + rest) =~= tokens_view(tokens@)
                            + rest);
                    },
                    _ => {},
                }
            }
        }
        if let Some(e) = failure {
            return Err(e);
        }
        Ok(Parser { tokens, head: 0 })
    }

    pub fn next(&mut self) -> (t: ANTLRToken)
        requires
            old(self)@.head < usize::MAX,
        ensures
            final(self)@.tokens == old(self)@.tokens,
            final(self)@.head == old(self)@.head + 1,
            t@ == tok_at(old(self)@.tokens, old(self)@.head),
    {
        let res = self.token_at(self.head);
        self.head += 1;
        res
    }

    pub fn consume(&mut self, amount: usize)
        requires
            old(self)@.head + amount <= usize::MAX,
        ensures
            final(self)@.tokens == old(self)@.tokens,
            final(self)@.head == old(self)@.head + amount,
    {
        self.head += amount
    }

    pub fn peek(&self, by: usize) -> (t: ANTLRToken)
        requires
            1 <= self@.head + by <= usize::MAX,
        ensures
            t@ == tok_at(self@.tokens, self@.head + by - 1),
    {
        self.token_at(self.head + by - 1)
    }

    pub fn peek_type(&self, by: usize) -> (t: ANTLRTokenType)
        requires
            1 <= self@.head + by <= usize::MAX,
        ensures
            t == tok_at(self@.tokens, self@.head + by - 1).0,
    {
        let i = self.head + by - 1;
        if i < self.tokens.len() {
            self.tokens[i].token_type()
        } else {
            ANTLRTokenType::EOF
        }
    }

    pub fn peek_n(&self, by: usize, count: usize) -> (r: Option<&[ANTLRToken]>)
        requires
            1 <= self@.head + by,
            self@.head + by + count <= usize::MAX,
        ensures
            match r {
                Some(toks) => {
                    &&& self@.head + by - 1 + count <= self@.tokens.len()
                    &&& tokens_view(toks@) == self@.tokens.subrange(
                        self@.head + by - 1,
                        self@.head + by - 1 + count,
                    )
                },
                None => self@.head + by - 1 + count > self@.tokens.len(),
            },
    {
        let start = self.head + by - 1;
        let end = self.head + by + count - 1;
        if end <= self.tokens.len() {
            let s = vstd::slice::slice_subrange(self.tokens.as_slice(), start, end);
            assert(tokens_view(s@) =~= self@.tokens.subrange(start as int, end as int));
            Some(s)
        } else {
            None
        }
    }

    pub fn match_token(&mut self, token_type: ANTLRTokenType) -> (r: Result<ANTLRToken, ParserErr>)
        requires
            fits(old(self)@),
        ensures
            final(self)@.tokens == old(self)@.tokens,
            (result_view(r), final(self)@.head) == match_tok(
                old(self)@.tokens,
                old(self)@.head,
                token_type,
            ),
    {
        let peek = self.peek(1);
        if peek.token_type() != token_type {
            return Err(ParserErr::UnexpectedToken { expected: token_type, got: peek.token_type() });
        };
        self.consume(1);
        Ok(peek)
    }

    pub fn match_any_token(&mut self, token_types: Vec<ANTLRTokenType>) -> (r: Result<
        ANTLRToken,
        ParserErr,
    >)
        requires
            fits(old(self)@),
        ensures
            final(self)@.tokens == old(self)@.tokens,
            (result_view(r), final(self)@.head) == match_any(
                old(self)@.tokens,
                old(self)@.head,
                token_types@,
            ),
    {
        let peek = self.peek(1);
        let mut i: usize = 0;
        while i < token_types.len()
            invariant
                self@ == old(self)@,
                fits(old(self)@),
                peek@ == tok_at(self@.tokens, self@.head),
                i <= token_types.len(),
                forall|k: int| 0 <= k < i ==> token_types@[k] != peek@.0,
            decreases token_types.len() - i,
        {
            if peek.token_type() == token_types[i] {
                self.consume(1);
                assert(token_types@.contains(peek@.0)) by {
                    assert(token_types@[i as int] == peek@.0);
                }
                return Ok(peek);
            }
            i += 1;
        }
        let got = peek.token_type();
        Err(ParserErr::NoTokenMatched { expected: token_types, got })
    }
}


impl Parser {
    pub fn ebnf_suffix(&mut self) -> (r: Result<EBNFSuffix, ParserErr>)
        requires
            fits(old(self)@),
        ensures
            moved_forward(old(self)@, final(self)@),
            (result_view(r), final(self)@.head) == p_suffix(old(self)@.tokens, old(self)@.head),
    {
        let types = vec![ANTLRTokenType::Question, ANTLRTokenType::Star, ANTLRTokenType::Plus];
        assert(types@ =~= suffix_types());
        let token = self.match_any_token(types)?;
        let tt = token.token_type();
        if tt == ANTLRTokenType::Question {
            Ok(EBNFSuffix::Optional)
        } else if tt == ANTLRTokenType::Star {
            // A lazy `*?` reads as a plain `*`.
            let _ = self.match_token(ANTLRTokenType::Question);
            Ok(EBNFSuffix::Star)
        } else {
            // A lazy `+?` reads as a plain `+`.
            let _ = self.match_token(ANTLRTokenType::Question);
            Ok(EBNFSuffix::Plus)
        }
    }

    pub fn atom(&mut self) -> (r: Result<Atom, ParserErr>)
        requires
            fits(old(self)@),
        ensures
            moved_forward(old(self)@, final(self)@),
            (result_view(r), final(self)@.head) == p_atom(old(self)@.tokens, old(self)@.head),
    {
        let types = vec![ANTLRTokenType::StringLit, ANTLRTokenType::RuleID, ANTLRTokenType::TokenID];
        assert(types@ =~= atom_types());
        let token = self.match_any_token(types)?;
        if token.token_type() == ANTLRTokenType::StringLit {
            Ok(Atom::StringLit(token.text()))
        } else {
            Ok(Atom::ID(token.text()))
        }
    }

    pub fn element(&mut self) -> (r: Result<Element, ParserErr>)
        requires
            fits(old(self)@),
        ensures
            moved_forward(old(self)@, final(self)@),
            (result_view(r), final(self)@.head) == p_element(old(self)@.tokens, old(self)@.head),
            r is Ok ==> old(self)@.head < final(self)@.head && old(self)@.head
                < old(self)@.tokens.len(),
        decreases toks_left(old(self)@.tokens, old(self)@.head), 1int,
    {
        proof {
            lemma_types_exclude_eof();
        }
        let tt = self.peek_type(1);
        if tt == ANTLRTokenType::StringLit || tt == ANTLRTokenType::TokenID || tt
            == ANTLRTokenType::RuleID {
            let atom = self.atom()?;
            let suffix = self.ebnf_suffix().ok();
            Ok(Element::Atom { atom, suffix })
        } else if tt == ANTLRTokenType::Not || tt == ANTLRTokenType::Charset {
            let token = self.peek(1);
            if token.token_type() == ANTLRTokenType::Not {
                self.consume(1);
                let token = self.match_token(ANTLRTokenType::Charset)?;
                let suffix = self.ebnf_suffix().ok();
                Ok(Element::CharSet { inverted: true, set: code_set_from_text(&token.text()), suffix })
            } else {
                self.consume(1);
                let suffix = self.ebnf_suffix().ok();
                Ok(Element::CharSet { inverted: false, set: code_set_from_text(&token.text()), suffix })
            }
        } else if tt == ANTLRTokenType::LParen {
            let block = self.block()?;
            let suffix = self.ebnf_suffix().ok();
            Ok(Element::Block { block, suffix })
        } else {
            let expected = vec![
                ANTLRTokenType::StringLit,
                ANTLRTokenType::TokenID,
                ANTLRTokenType::RuleID,
                ANTLRTokenType::LParen,
            ];
            assert(expected@ =~= element_types());
            Err(ParserErr::NoTokenMatched { expected, got: tt })
        }
    }

    pub fn block(&mut self) -> (r: Result<Block, ParserErr>)
        requires
            fits(old(self)@),
        ensures
            moved_forward(old(self)@, final(self)@),
            (result_view(r), final(self)@.head) == p_block(old(self)@.tokens, old(self)@.head),
            r is Ok ==> old(self)@.head < final(self)@.head,
        decreases toks_left(old(self)@.tokens, old(self)@.head), 0int,
    {
        self.match_token(ANTLRTokenType::LParen)?;
        let alts = self.alt_list()?;
        self.match_token(ANTLRTokenType::RParen)?;
        Ok(Block(alts))
    }

    fn label(&mut self) -> (r: Result<Option<String>, ParserErr>)
        requires
            fits(old(self)@),
        ensures
            moved_forward(old(self)@, final(self)@),
            (label_result_view(r), final(self)@.head) == p_label(old(self)@.tokens, old(self)@.head),
    {
        if self.match_token(ANTLRTokenType::Pound).is_ok() {
            let types = vec![ANTLRTokenType::RuleID, ANTLRTokenType::TokenID];
            assert(types@ =~= id_types());
            Ok(Some(self.match_any_token(types)?.text()))
        } else {
            Ok(None)
        }
    }

    fn channel(&mut self) -> (r: Result<Option<String>, ParserErr>)
        requires
            fits(old(self)@),
        ensures
            moved_forward(old(self)@, final(self)@),
            (label_result_view(r), final(self)@.head) == p_channel(old(self)@.tokens, old(self)@.head),
    {
        if self.match_token(ANTLRTokenType::Arrow).is_ok() {
            // Match only channel right now
            self.match_token(ANTLRTokenType::RuleID)?;
            self.match_token(ANTLRTokenType::LParen)?;
            let types = vec![ANTLRTokenType::RuleID, ANTLRTokenType::TokenID];
            assert(types@ =~= id_types());
            let id = self.match_any_token(types)?.text();
            self.match_token(ANTLRTokenType::RParen)?;
            Ok(Some(id))
        } else {
            Ok(None)
        }
    }

    // An Ok(None) result means an empty alt
    pub fn alt(&mut self) -> (r: Result<Option<Alt>, ParserErr>)
        requires
            fits(old(self)@),
        ensures
            moved_forward(old(self)@, final(self)@),
            (alt_result_view(r), final(self)@.head) == p_alt(old(self)@.tokens, old(self)@.head),
        decreases toks_left(old(self)@.tokens, old(self)@.head), 3int,
    {
        let ghost ts = self@.tokens;
        let ghost h0 = self@.head;
        let mut elements: Vec<Element> = Vec::new();
        assert(elements_view(elements@) =~= Seq::<ElementModel>::empty());
        loop
            invariant_except_break
                p_elements(ts, h0, Seq::empty()) == p_elements(
                    ts,
                    self@.head,
                    elements_view(elements@),
                ),
            invariant
                fits(self@),
                moved_forward(old(self)@, self@),
                ts == old(self)@.tokens,
                h0 == old(self)@.head,
            ensures
                p_elements(ts, h0, Seq::empty()) == (elements_view(elements@), self@.head),
            decreases toks_left(ts, self@.head),
        {
            let ghost h = self@.head;
            let ghost before = elements@;
            match self.element() {
                Ok(e) => {
                    elements.push(e);
                    assert(elements_view(elements@) =~= elements_view(before).push(e@));
                },
                Err(_) => {
                    break ;
                },
            }
        }
        if elements.len() == 0 {
            return Ok(None);
        }
        let label = self.label()?;
        let channel = self.channel()?;
        Ok(Some(Alt::new(label, elements, channel)))
    }

    // Alts seperated by OR
    pub fn alt_list(&mut self) -> (r: Result<AltList, ParserErr>)
        requires
            fits(old(self)@),
        ensures
            moved_forward(old(self)@, final(self)@),
            (result_view(r), final(self)@.head) == p_alt_list(old(self)@.tokens, old(self)@.head),
        decreases toks_left(old(self)@.tokens, old(self)@.head), 5int,
    {
        let ghost ts = self@.tokens;
        let mut optional = false;
        let mut alts: Vec<Alt> = Vec::new();
        let first = self.alt()?;
        let ghost first_view = alt_result_view(Ok(first))->Ok_0;
        match first {
            Some(a) => alts.push(a),
            None => optional = true,
        };
        proof {
            assert(alts_view(alts@) =~= add_alt(
                AltListModel { optional: false, alts: Seq::empty() },
                first_view,
            ).alts);
        }
        loop
            invariant_except_break
                p_alt_list(ts, old(self)@.head) == p_alt_list_rest(
                    ts,
                    self@.head,
                    AltListModel { optional, alts: alts_view(alts@) },
                ),
            invariant
                fits(self@),
                moved_forward(old(self)@, self@),
                ts == old(self)@.tokens,
            ensures
                p_alt_list(ts, old(self)@.head) == (
                    Ok::<AltListModel, ParserErrView>(
                        AltListModel { optional, alts: alts_view(alts@) },
                    ),
                    self@.head,
                ),
            decreases toks_left(ts, self@.head),
        {
            if self.match_token(ANTLRTokenType::OR).is_err() {
                break ;
            }
            let ghost before = alts@;
            match self.alt()? {
                Some(a) => {
                    alts.push(a);
                    assert(alts_view(alts@) =~= alts_view(before).push(a@));
                },
                None => optional = true,
            }
        }
        Ok(AltList::new(optional, alts))
    }

    pub fn rule_spec(&mut self) -> (r: Result<Rule, ParserErr>)
        requires
            fits(old(self)@),
        ensures
            moved_forward(old(self)@, final(self)@),
            (result_view(r), final(self)@.head) == p_rule(old(self)@.tokens, old(self)@.head),
            tok_at(old(self)@.tokens, old(self)@.head).0 == ANTLRTokenType::RuleID
                ==> old(self)@.head < final(self)@.head,
    {
        let rule_name = self.match_token(ANTLRTokenType::RuleID)?.text();
        self.match_token(ANTLRTokenType::Colon)?;
        let alts = self.alt_list()?;
        self.match_token(ANTLRTokenType::Semi)?;
        Ok(Rule::new(rule_name, alts))
    }

    pub fn token_rule_spec(&mut self) -> (r: Result<TokenRule, ParserErr>)
        requires
            fits(old(self)@),
        ensures
            moved_forward(old(self)@, final(self)@),
            (result_view(r), final(self)@.head) == p_token_rule(old(self)@.tokens, old(self)@.head),
            tok_at(old(self)@.tokens, old(self)@.head).0 == ANTLRTokenType::TokenID || tok_at(
                old(self)@.tokens,
                old(self)@.head,
            ).0 == ANTLRTokenType::Fragment ==> old(self)@.head < final(self)@.head,
    {
        let is_fragment = self.peek_type(1) == ANTLRTokenType::Fragment;
        if is_fragment {
            self.consume(1);
        }
        let rule_name = self.match_token(ANTLRTokenType::TokenID)?.text();
        self.match_token(ANTLRTokenType::Colon)?;
        let alts = self.alt_list()?;
        self.match_token(ANTLRTokenType::Semi)?;
        Ok(TokenRule::new(is_fragment, rule_name, alts))
    }

    pub fn grammar_spec(&mut self) -> (r: Result<ANTLRAst, ParserErr>)
        requires
            fits(old(self)@),
        ensures
            moved_forward(old(self)@, final(self)@),
            (result_view(r), final(self)@.head) == p_spec(old(self)@.tokens, old(self)@.head),
    {
        if self.peek_type(1) == ANTLRTokenType::Grammar {
            self.match_token(ANTLRTokenType::Grammar)?;
            let names = vec![ANTLRTokenType::RuleID, ANTLRTokenType::TokenID];
            assert(names@ =~= id_types());
            self.match_any_token(names)?;
            self.match_token(ANTLRTokenType::Semi)?;
        }
        self.grammar_rules()
    }

    /// The rules of a grammar, up to the end of the input.
    fn grammar_rules(&mut self) -> (r: Result<ANTLRAst, ParserErr>)
        requires
            fits(old(self)@),
        ensures
            moved_forward(old(self)@, final(self)@),
            (result_view(r), final(self)@.head) == p_grammar(
                old(self)@.tokens,
                old(self)@.head,
                empty_ast(),
            ),
    {
        let ghost ts = self@.tokens;
        let mut rules: Vec<Rule> = Vec::new();
        let mut token_rules: Vec<TokenRule> = Vec::new();
        assert(ast_model_of(rules@, token_rules@).rules =~= empty_ast().rules);
        assert(ast_model_of(rules@, token_rules@).token_rules =~= empty_ast().token_rules);
        loop
            invariant
                fits(self@),
                moved_forward(old(self)@, self@),
                ts == old(self)@.tokens,
                p_grammar(ts, old(self)@.head, empty_ast()) == p_grammar(
                    ts,
                    self@.head,
                    ast_model_of(rules@, token_rules@),
                ),
            ensures
                fits(self@),
                moved_forward(old(self)@, self@),
                p_grammar(ts, old(self)@.head, empty_ast()) == (
                    Ok::<AstModel, ParserErrView>(ast_model_of(rules@, token_rules@)),
                    self@.head,
                ),
            decreases toks_left(ts, self@.head),
        {
            let tt = self.peek_type(1);
            if tt == ANTLRTokenType::TokenID || tt == ANTLRTokenType::Fragment {
                let ghost before = token_rules@;
                match self.token_rule_spec() {
                    Ok(r) => {
                        token_rules.push(r);
                        assert(ast_model_of(rules@, token_rules@).token_rules =~= ast_model_of(
                            rules@,
                            before,
                        ).token_rules.push(r@));
                    },
                    Err(_) => {},
                }
            } else if tt == ANTLRTokenType::RuleID {
                let ghost before = rules@;
                match self.rule_spec() {
                    Ok(r) => {
                        rules.push(r);
                        assert(ast_model_of(rules@, token_rules@).rules =~= ast_model_of(
                            before,
                            token_rules@,
                        ).rules.push(r@));
                    },
                    Err(_) => {},
                }
            } else if tt == ANTLRTokenType::EOF {
                break ;
            } else {
                let expected = vec![ANTLRTokenType::TokenID, ANTLRTokenType::RuleID, ANTLRTokenType::EOF];
                assert(expected@ =~= rule_start_types());
                return Err(ParserErr::NoTokenMatched { expected, got: tt });
            }
        }
        Ok(ANTLRAst::new(rules, token_rules))
    }
}

} // verus!
