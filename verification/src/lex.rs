use vstd::prelude::*;

use crate::text::{char_from_u32, is_scalar_value, string_from_chars};
use vstd::std_specs::iter::IteratorSpec;

verus! {

/// The kinds of token produced by the grammar lexer.
#[derive(Clone, Copy, Debug, PartialEq, Eq, Structural)]
pub enum ANTLRTokenType {
    EOF,
    Comma,
    Semi,
    WS,
    LParen,
    RParen,
    LBrace,
    RBrace,
    GT,
    LT,
    Assign,
    OR,
    Dollar,
    Pound,
    At,
    Not,
    Question,
    Arrow,
    RangeDash,
    Colon,
    DoubleColon,
    Star,
    Int,
    Dot,
    Range,
    Plus,
    PlusAssign,
    Comment,
    CommentBlock,
    RuleID,
    TokenID,
    Fragment,
    ParserToken,
    LexerToken,
    Grammar,
    Options,
    Tokens,
    Channels,
    Import,
    Public,
    Protected,
    Private,
    Returns,
    Locals,
    Throws,
    Catch,
    Finally,
    Mode,
    StringLit,
    Charset,
}

/// A token: its kind and the text it carries (empty for punctuation and keywords).
#[derive(Clone, Debug)]
pub struct ANTLRToken {
    token_type: ANTLRTokenType,
    text: String,
}

impl View for ANTLRToken {
    type V = (ANTLRTokenType, Seq<char>);

    closed spec fn view(&self) -> (ANTLRTokenType, Seq<char>) {
        (self.token_type, self.text@)
    }
}

impl ANTLRToken {
    pub fn new(token_type: ANTLRTokenType, text: String) -> (t: ANTLRToken)
        ensures
            t@ == (token_type, text@),
    {
        ANTLRToken { token_type, text }
    }

    pub fn token_type(&self) -> (t: ANTLRTokenType)
        ensures
            t == self@.0,
    {
        self.token_type
    }

    pub fn text(&self) -> (s: String)
        ensures
            s@ == self@.1,
    {
        self.text.clone()
    }
}

/// Why the lexer could not produce a token.
#[derive(Debug, PartialEq, Eq, Structural)]
pub enum LexerErr {
    EOF,
    UnexpectedCharacter { expected: char, got: Option<char> },
    // A character that is not recognized by the lexer
    UnkownCharacter(char),
    UnmatchedKeyword,
}

/// A lexer over the characters of a grammar, with a read position.
pub struct Lexer {
    input: Vec<char>,
    head: usize,
}

/// The abstract state of a lexer: its characters and its read position.
pub struct LexerView {
    pub input: Seq<char>,
    pub head: int,
}

impl View for Lexer {
    type V = LexerView;

    closed spec fn view(&self) -> LexerView {
        LexerView { input: self.input@, head: self.head as int }
    }
}

// ---------------------------------------------------------------------------
// The token grammar, as spec functions over the characters and a position.
// A position past the end reads as `None`. Each function gives the result and
// the position after it, or `None` where the lexer does not return (it panics
// or never stops reading).
// ---------------------------------------------------------------------------

/// The character at position `i`, if there is one.
pub open spec fn char_at(s: Seq<char>, i: int) -> Option<char> {
    if 0 <= i < s.len() {
        Some(s[i])
    } else {
        None
    }
}

pub open spec fn is_lower(c: char) -> bool {
    'a' <= c && c <= 'z'
}

pub open spec fn is_upper(c: char) -> bool {
    'A' <= c && c <= 'Z'
}

pub open spec fn is_ascii_letter(c: char) -> bool {
    is_lower(c) || is_upper(c)
}

/// The characters that continue an integer after its first digit: `'0'` up to
/// and excluding `'9'`.
pub open spec fn continues_int(c: char) -> bool {
    '0' <= c && c < '9'
}

pub open spec fn is_ws(c: char) -> bool {
    c == ' ' || c == '\t' || c == '\r' || c == '\n'
}

/// The characters that continue an identifier.
pub open spec fn is_id_char(c: char) -> bool {
    is_ascii_letter(c) || ('0' <= c && c <= '9') || c == '_'
}

/// The classes of characters that the lexer reads in runs.
pub enum CharClass {
    IntTail,
    Space,
    IdChar,
}

pub open spec fn in_class(c: char, k: CharClass) -> bool {
    match k {
        CharClass::IntTail => continues_int(c),
        CharClass::Space => is_ws(c),
        CharClass::IdChar => is_id_char(c),
    }
}

/// The length of the run of characters of class `k` that starts at `i`.
pub open spec fn run_len(s: Seq<char>, i: int, k: CharClass) -> nat
    decreases s.len() - i,
{
    if 0 <= i < s.len() && in_class(s[i], k) {
        1 + run_len(s, i + 1, k)
    } else {
        0
    }
}

/// The first index `j >= i` at which the keyword `kw` differs from the input read
/// from `start` (a missing character counts as a difference).
pub open spec fn keyword_mismatch(s: Seq<char>, start: int, kw: Seq<char>, i: int) -> Option<int>
    decreases kw.len() - i,
{
    if i < 0 || i >= kw.len() {
        None
    } else if char_at(s, start + i) != Some(kw[i]) {
        Some(i)
    } else {
        keyword_mismatch(s, start, kw, i + 1)
    }
}

/// What `match_keyword` gives for the keyword `kw` read from `start`, and the
/// position after it: a mismatch leaves the position, a full match moves past the
/// keyword and fails (`Err(None)`) where a letter follows.
pub open spec fn keyword_result(s: Seq<char>, start: int, kw: Seq<char>) -> (
    Result<(), Option<usize>>,
    int,
) {
    match keyword_mismatch(s, start, kw, 0) {
        Some(i) => (Err(Some(i as usize)), start),
        None => {
            let end = start + kw.len();
            match char_at(s, end) {
                Some(c) => if is_ascii_letter(c) {
                    (Err(None), end)
                } else {
                    (Ok(()), end)
                },
                None => (Ok(()), end),
            }
        },
    }
}

/// Tries the keywords in order, each from where the previous attempt left the
/// position; the first that matches gives its token.
pub open spec fn keyword_chain(
    s: Seq<char>,
    p: int,
    kws: Seq<(Seq<char>, ANTLRTokenType)>,
) -> (Result<(ANTLRTokenType, Seq<char>), LexerErr>, int)
    decreases kws.len(),
{
    if kws.len() == 0 {
        (Err(LexerErr::UnmatchedKeyword), p)
    } else {
        let (r, p2) = keyword_result(s, p, kws[0].0);
        if r is Ok {
            (Ok((kws[0].1, Seq::empty())), p2)
        } else {
            keyword_chain(s, p2, kws.drop_first())
        }
    }
}

/// The position just past the first newline at or after `p`.
pub open spec fn line_comment_end(s: Seq<char>, p: int) -> Option<int>
    decreases s.len() - p,
{
    if p < 0 || p >= s.len() {
        None
    } else if s[p] == '\n' {
        Some(p + 1)
    } else {
        line_comment_end(s, p + 1)
    }
}

/// The position just past the first `*` followed by `/`, looking from `p`.
pub open spec fn block_comment_end(s: Seq<char>, p: int) -> Option<int>
    decreases s.len() - p,
{
    if p < 0 || p >= s.len() {
        None
    } else if s[p] == '*' && char_at(s, p + 1) == Some('/') {
        Some(p + 2)
    } else {
        block_comment_end(s, p + 1)
    }
}

/// The character that an escape `\x` stands for.
pub open spec fn escaped(x: char) -> char {
    if x == 'n' {
        '\n'
    } else if x == 't' {
        '\t'
    } else if x == 'r' {
        '\r'
    } else if x == 'f' {
        '\u{000C}'
    } else {
        x
    }
}

/// Reads one character `x` of a quoted literal (`in_set` false) or of a set body
/// (`in_set` true): the new escape flag and the text so far.
pub open spec fn literal_step(x: char, esc: bool, acc: Seq<char>, in_set: bool) -> (bool, Seq<char>) {
    if x == '\\' {
        if esc {
            (false, acc.push('\\'))
        } else {
            (true, acc)
        }
    } else if (!in_set && x == '\'') || (in_set && (x == ']' || x == '-')) {
        (false, acc.push(x))
    } else if x == 'n' || x == 't' || x == 'r' || x == 'f' {
        if esc {
            (false, acc.push(escaped(x)))
        } else {
            (false, acc.push(x))
        }
    } else if x == 'u' {
        (false, acc.push('u'))
    } else {
        (esc, acc.push(x))
    }
}

/// The body of a quoted literal, read from `p` with escape flag `esc` and text `acc`.
pub open spec fn scan_string_lit(s: Seq<char>, p: int, esc: bool, acc: Seq<char>) -> Option<
    (Result<(ANTLRTokenType, Seq<char>), LexerErr>, int),
>
    decreases s.len() - p,
{
    match char_at(s, p) {
        None => Some((Err(LexerErr::EOF), p + 1)),
        Some(x) => if x == '\'' && !esc {
            Some((Ok((ANTLRTokenType::StringLit, acc)), p + 1))
        } else if x == 'u' && esc {
            None
        } else {
            let (e2, a2) = literal_step(x, esc, acc, false);
            scan_string_lit(s, p + 1, e2, a2)
        },
    }
}

/// The characters from `lo` up to `hi` (both code points), leaving out those
/// that are no scalar value.
pub open spec fn code_run(lo: int, hi: int) -> Seq<char>
    decreases hi - lo + 1,
{
    if hi < lo {
        Seq::empty()
    } else {
        let rest = code_run(lo, hi - 1);
        if is_scalar_value(hi) {
            rest.push(hi as char)
        } else {
            rest
        }
    }
}

/// The characters of the inclusive range `from..=until`.
pub open spec fn char_range(from: char, until: char) -> Seq<char> {
    code_run(from as int, until as int)
}

/// The body of a set `[...]`, read from `p` with escape flag `esc` and text `acc`.
pub open spec fn scan_charset(s: Seq<char>, p: int, esc: bool, acc: Seq<char>) -> Option<
    (Result<(ANTLRTokenType, Seq<char>), LexerErr>, int),
>
    decreases s.len() + 1 - p, 0int,
{
    match char_at(s, p) {
        None => Some((Err(LexerErr::EOF), p + 1)),
        Some(x) => if x == ']' && !esc {
            Some((Ok((ANTLRTokenType::Charset, acc)), p + 1))
        } else if x == '-' && !esc {
            Some((Err(LexerErr::UnkownCharacter('-')), p + 1))
        } else if x == 'u' && esc {
            None
        } else {
            let (e2, a2) = literal_step(x, esc, acc, true);
            charset_range(s, p + 1, e2, a2)
        },
    }
}

/// After one character of a set body at `q`: an unescaped `-` and the character
/// after it replace the last character read by the range from it to that character.
pub open spec fn charset_range(s: Seq<char>, q: int, esc: bool, acc: Seq<char>) -> Option<
    (Result<(ANTLRTokenType, Seq<char>), LexerErr>, int),
>
    decreases s.len() + 1 - q, 1int,
{
    if !esc && char_at(s, q) == Some('-') {
        match char_at(s, q + 1) {
            None => Some((Err(LexerErr::EOF), q)),
            Some(u) => if u == '\\' {
                None
            } else {
                scan_charset(s, q + 2, esc, acc.drop_last() + char_range(acc.last(), u))
            },
        }
    } else {
        scan_charset(s, q, esc, acc)
    }
}

/// A token that is the single character read.
pub open spec fn single(t: ANTLRTokenType, p: int) -> Option<
    (Result<(ANTLRTokenType, Seq<char>), LexerErr>, int),
> {
    Some((Ok((t, Seq::empty())), p))
}

/// A token of one character, or of two where the next character is `second`.
pub open spec fn one_or_two(
    s: Seq<char>,
    p: int,
    second: char,
    two: ANTLRTokenType,
    one: ANTLRTokenType,
) -> Option<(Result<(ANTLRTokenType, Seq<char>), LexerErr>, int)> {
    if char_at(s, p) == Some(second) {
        single(two, p + 1)
    } else {
        single(one, p)
    }
}

/// Keyword tokens, tried in order, for the letters that can start one.
pub open spec fn keywords_for(c: char) -> Seq<(Seq<char>, ANTLRTokenType)> {
    if c == 'p' {
        seq![
            ("arser"@, ANTLRTokenType::ParserToken),
            ("rotected"@, ANTLRTokenType::Protected),
            ("ublic"@, ANTLRTokenType::Public),
            ("rivate"@, ANTLRTokenType::Private),
        ]
    } else if c == 'o' {
        seq![("ptions"@, ANTLRTokenType::Options)]
    } else if c == 'f' {
        seq![("inally"@, ANTLRTokenType::Finally), ("ragment"@, ANTLRTokenType::Fragment)]
    } else if c == 't' {
        seq![("hrows"@, ANTLRTokenType::Throws)]
    } else if c == 'c' {
        seq![("atch"@, ANTLRTokenType::Catch), ("hannels"@, ANTLRTokenType::Channels)]
    } else if c == 'r' {
        seq![("ptions"@, ANTLRTokenType::Options)]
    } else if c == 'i' {
        seq![("mport"@, ANTLRTokenType::Import)]
    } else if c == 'm' {
        seq![("ode"@, ANTLRTokenType::Mode)]
    } else if c == 'l' {
        seq![("exer"@, ANTLRTokenType::LexerToken), ("ocals"@, ANTLRTokenType::Locals)]
    } else {
        Seq::empty()
    }
}

/// The `grammar` keyword, read from `p` just past its `g`. It is a keyword only
/// as a whole word: where the input does not go on with `rammar` and then a
/// character that is no letter, nothing is read, and a name such as
/// `grammarSpec` stays a name.
pub open spec fn grammar_keyword(s: Seq<char>, p: int) -> Option<
    (Result<(ANTLRTokenType, Seq<char>), LexerErr>, int),
> {
    let (r, p2) = keyword_result(s, p, "rammar"@);
    if r is Ok {
        single(ANTLRTokenType::Grammar, p2)
    } else {
        Some((Err(LexerErr::UnmatchedKeyword), p))
    }
}

pub open spec fn starts_keyword(c: char) -> bool {
    c == 'p' || c == 'o' || c == 'f' || c == 't' || c == 'c' || c == 'r' || c == 'i' || c == 'm'
        || c == 'l'
}

/// The token that starts with `c`, read from `p` (just past `c`), before the
/// fallback to identifiers.
pub open spec fn lex_symbol(s: Seq<char>, p: int, c: char) -> Option<
    (Result<(ANTLRTokenType, Seq<char>), LexerErr>, int),
> {
    if c == ',' {
        single(ANTLRTokenType::Comma, p)
    } else if c == ';' {
        single(ANTLRTokenType::Semi, p)
    } else if c == '(' {
        single(ANTLRTokenType::LParen, p)
    } else if c == ')' {
        single(ANTLRTokenType::RParen, p)
    } else if c == '{' {
        single(ANTLRTokenType::LBrace, p)
    } else if c == '}' {
        single(ANTLRTokenType::RBrace, p)
    } else if c == '>' {
        single(ANTLRTokenType::GT, p)
    } else if c == '<' {
        single(ANTLRTokenType::LT, p)
    } else if c == '=' {
        single(ANTLRTokenType::Assign, p)
    } else if c == '|' {
        single(ANTLRTokenType::OR, p)
    } else if c == '$' {
        single(ANTLRTokenType::Dollar, p)
    } else if c == '?' {
        single(ANTLRTokenType::Question, p)
    } else if c == '*' {
        single(ANTLRTokenType::Star, p)
    } else if c == '@' {
        single(ANTLRTokenType::At, p)
    } else if c == '#' {
        single(ANTLRTokenType::Pound, p)
    } else if c == '~' {
        single(ANTLRTokenType::Not, p)
    } else if c == '0' {
        single(ANTLRTokenType::Int, p)
    } else if '1' <= c && c <= '9' {
        let n = run_len(s, p, CharClass::IntTail);
        Some((Ok((ANTLRTokenType::Int, s.subrange(p, p + n))), p + n))
    } else if c == ':' {
        one_or_two(s, p, ':', ANTLRTokenType::DoubleColon, ANTLRTokenType::Colon)
    } else if c == '+' {
        one_or_two(s, p, '=', ANTLRTokenType::PlusAssign, ANTLRTokenType::Plus)
    } else if c == '.' {
        one_or_two(s, p, '.', ANTLRTokenType::Range, ANTLRTokenType::Dot)
    } else if c == '-' {
        match char_at(s, p) {
            Some(n) => if n == '>' {
                single(ANTLRTokenType::Arrow, p + 1)
            } else {
                Some((Err(LexerErr::UnexpectedCharacter { expected: '>', got: Some(n) }), p))
            },
            None => Some((Err(LexerErr::EOF), p)),
        }
    } else if is_ws(c) {
        let n = run_len(s, p, CharClass::Space);
        single(ANTLRTokenType::WS, p + n)
    } else if c == 'g' {
        grammar_keyword(s, p)
    } else if starts_keyword(c) {
        let (r, p2) = keyword_chain(s, p, keywords_for(c));
        Some((r, p2))
    } else if c == '/' {
        match char_at(s, p) {
            Some(n) => if n == '/' {
                match line_comment_end(s, p) {
                    Some(e) => single(ANTLRTokenType::Comment, e),
                    None => None,
                }
            } else if n == '*' {
                match block_comment_end(s, p) {
                    Some(e) => single(ANTLRTokenType::CommentBlock, e),
                    None => None,
                }
            } else {
                Some((Err(LexerErr::UnexpectedCharacter { expected: '/', got: Some(n) }), p))
            },
            None => Some((Err(LexerErr::UnexpectedCharacter { expected: '/', got: None }), p)),
        }
    } else if c == '\'' {
        scan_string_lit(s, p, false, Seq::empty())
    } else if c == '[' {
        scan_charset(s, p, false, Seq::empty())
    } else {
        Some((Err(LexerErr::UnkownCharacter(c)), p))
    }
}

/// The token that `next_token` reads at position `h`, and the position after it;
/// `None` where it does not return.
pub open spec fn lex_token(s: Seq<char>, h: int) -> Option<
    (Result<(ANTLRTokenType, Seq<char>), LexerErr>, int),
> {
    match char_at(s, h) {
        None => Some((Ok((ANTLRTokenType::EOF, Seq::empty())), h + 1)),
        Some(c) => match lex_symbol(s, h + 1, c) {
            None => None,
            Some((r, p)) => match r {
                Ok(t) => Some((Ok(t), p)),
                Err(e) => if is_ascii_letter(c) {
                    let n = run_len(s, p, CharClass::IdChar);
                    let kind = if is_upper(c) {
                        ANTLRTokenType::TokenID
                    } else {
                        ANTLRTokenType::RuleID
                    };
                    Some((Ok((kind, seq![c] + s.subrange(p, p + n))), p + n))
                } else {
                    Some((Err(e), p))
                },
            },
        },
    }
}


/// The view of a lexing result: the token's kind and text, or the error.
pub open spec fn token_result_view(r: Result<ANTLRToken, LexerErr>) -> Result<(ANTLRTokenType, Seq<char>), LexerErr> {
    match r {
        Ok(t) => Ok(t@),
        Err(e) => Err(e),
    }
}

fn char_in_class(c: char, k: &CharClass) -> (b: bool)
    ensures
        b == in_class(c, *k),
{
    match k {
        CharClass::IntTail => '0' <= c && c < '9',
        CharClass::Space => c == ' ' || c == '\t' || c == '\r' || c == '\n',
        CharClass::IdChar => ('A' <= c && c <= 'Z') || ('a' <= c && c <= 'z') || ('0' <= c && c
            <= '9') || c == '_',
    }
}

/// Appends the characters of `from..=until` to `text`.
fn push_char_range(text: &mut Vec<char>, from: char, until: char)
    ensures
        final(text)@ == old(text)@ + char_range(from, until),
{
    let lo = from as u32;
    let hi = until as u32;
    let mut u = lo;
    proof {
        assert(code_run(lo as int, lo - 1) =~= Seq::<char>::empty());
        assert(old(text)@ + Seq::<char>::empty() =~= old(text)@);
    }
    while u <= hi
        invariant
            lo <= u,
            lo <= hi + 1 ==> u <= hi + 1,
            hi < lo ==> u == lo,
            hi <= 0x10FFFF,
            text@ == old(text)@ + code_run(lo as int, u - 1),
        decreases hi + 1 - u,
    {
        let c = char_from_u32(u);
        let ghost before = text@;
        match c {
            Some(ch) => {
                text.push(ch);
                assert(text@ =~= old(text)@ + code_run(lo as int, u as int));
            },
            None => {
                assert(text@ =~= old(text)@ + code_run(lo as int, u as int));
            },
        }
        u = u + 1;
    }
    proof {
        if hi < lo {
            assert(code_run(from as int, until as int) =~= Seq::<char>::empty());
            assert(text@ =~= old(text)@ + code_run(from as int, until as int));
        }
    }
}

impl Lexer {
    /// The read position is a machine integer.
    pub proof fn lemma_head_bounds(&self)
        ensures
            0 <= self@.head <= usize::MAX,
    {
    }

    pub fn new(input: String) -> (l: Lexer)
        ensures
            l@.input == input@,
            l@.head == 0,
    {
        let mut chars: Vec<char> = Vec::new();
        let s = input.as_str();
        let mut it = s.chars();
        proof {
            broadcast use vstd::string::group_string_axioms;
        }
        loop
            invariant
                chars@ + it.remaining() == s@,
                it.obeys_prophetic_iter_laws(),
            ensures
                chars@ == s@,
            decreases s@.len() - chars@.len(),
        {
            let ghost before = it.remaining();
            match it.next() {
                Some(c) => {
                    chars.push(c);
                    assert(chars@ + it.remaining() =~= s@);
                },
                None => {
                    assert(chars@ =~= s@);
                    break ;
                },
            }
        }
        Lexer { input: chars, head: 0 }
    }

    pub fn next(&mut self) -> (c: Option<char>)
        requires
            old(self)@.head < usize::MAX,
        ensures
            final(self)@.input == old(self)@.input,
            final(self)@.head == old(self)@.head + 1,
            c == char_at(old(self)@.input, old(self)@.head),
    {
        let res = if self.head < self.input.len() {
            Some(self.input[self.head])
        } else {
            None
        };
        self.head += 1;
        res
    }

    pub fn consume(&mut self, amount: usize)
        requires
            old(self)@.head + amount <= usize::MAX,
        ensures
            final(self)@.input == old(self)@.input,
            final(self)@.head == old(self)@.head + amount,
    {
        self.head += amount
    }

    pub fn peek(&self, by: usize) -> (c: Option<char>)
        requires
            1 <= self@.head + by <= usize::MAX,
        ensures
            c == char_at(self@.input, self@.head + by - 1),
    {
        let i = self.head + by - 1;
        if i < self.input.len() {
            Some(self.input[i])
        } else {
            None
        }
    }

    pub fn peek_n(&self, by: usize, count: usize) -> (r: Option<&[char]>)
        requires
            1 <= self@.head + by,
            self@.head + by + count <= usize::MAX,
        ensures
            match r {
                Some(chars) => {
                    &&& self@.head + by - 1 + count <= self@.input.len()
                    &&& chars@ == self@.input.subrange(
                        self@.head + by - 1,
                        self@.head + by - 1 + count,
                    )
                },
                None => self@.head + by - 1 + count > self@.input.len(),
            },
    {
        let start = self.head + by - 1;
        let end = self.head + by + count - 1;
        if end <= self.input.len() {
            Some(vstd::slice::slice_subrange(self.input.as_slice(), start, end))
        } else {
            None
        }
    }

    pub fn match_keyword(&mut self, string: &str) -> (r: Result<(), Option<usize>>)
        requires
            old(self)@.head < usize::MAX,
            old(self)@.input.len() < usize::MAX,
        ensures
            final(self)@.input == old(self)@.input,
            (r, final(self)@.head) == keyword_result(old(self)@.input, old(self)@.head, string@),
    {
        let n = string.unicode_len();
        let mut index: usize = 0;
        while index < n
            invariant
                self@ == old(self)@,
                n == string@.len(),
                index <= n,
                old(self)@.head < usize::MAX,
                old(self)@.input.len() < usize::MAX,
                index > 0 ==> self@.head + index <= self@.input.len(),
                keyword_mismatch(self@.input, self@.head, string@, 0) == keyword_mismatch(
                    self@.input,
                    self@.head,
                    string@,
                    index as int,
                ),
            decreases n - index,
        {
            let c = string.get_char(index);
            match self.peek(index + 1) {
                None => {
                    return Err(Some(index));
                },
                Some(d) => {
                    if c != d {
                        return Err(Some(index));
                    }
                },
            }
            index += 1;
        }
        proof {
            if n > 0 {
                assert(self@.head + n <= self@.input.len());
            }
        }
        self.consume(n);
        match self.peek(1) {
            Some(c) => {
                if ('A' <= c && c <= 'Z') || ('a' <= c && c <= 'z') {
                    Err(None)
                } else {
                    Ok(())
                }
            },
            None => Ok(()),
        }
    }
}

/// The keyword table given as pairs of exec strings and token kinds, viewed as
/// character sequences.
pub open spec fn keyword_views(kws: Seq<(&str, ANTLRTokenType)>) -> Seq<(Seq<char>, ANTLRTokenType)> {
    kws.map_values(|k: (&str, ANTLRTokenType)| (k.0@, k.1))
}

fn keyword_table(c: char) -> (kws: Vec<(&'static str, ANTLRTokenType)>)
    ensures
        keyword_views(kws@) == keywords_for(c),
{
    let kws = if c == 'p' {
        vec![
            ("arser", ANTLRTokenType::ParserToken),
            ("rotected", ANTLRTokenType::Protected),
            ("ublic", ANTLRTokenType::Public),
            ("rivate", ANTLRTokenType::Private),
        ]
    } else if c == 'o' {
        vec![("ptions", ANTLRTokenType::Options)]
    } else if c == 'f' {
        vec![("inally", ANTLRTokenType::Finally), ("ragment", ANTLRTokenType::Fragment)]
    } else if c == 't' {
        vec![("hrows", ANTLRTokenType::Throws)]
    } else if c == 'c' {
        vec![("atch", ANTLRTokenType::Catch), ("hannels", ANTLRTokenType::Channels)]
    } else if c == 'r' {
        vec![("ptions", ANTLRTokenType::Options)]
    } else if c == 'i' {
        vec![("mport", ANTLRTokenType::Import)]
    } else if c == 'm' {
        vec![("ode", ANTLRTokenType::Mode)]
    } else if c == 'l' {
        vec![("exer", ANTLRTokenType::LexerToken), ("ocals", ANTLRTokenType::Locals)]
    } else {
        Vec::new()
    };
    assert(keyword_views(kws@) =~= keywords_for(c));
    kws
}

proof fn lemma_keyword_result_bound(s: Seq<char>, start: int, kw: Seq<char>)
    requires
        0 <= start <= s.len(),
    ensures
        start <= keyword_result(s, start, kw).1 <= s.len(),
{
    lemma_keyword_result(s, start, kw);
    if keyword_result(s, start, kw).1 != start {
        lemma_keyword_mismatch_none(s, start, kw, 0);
        if kw.len() > 0 {
            assert(char_at(s, start + kw.len() - 1) == Some(kw[kw.len() - 1]));
        }
    }
}

impl Lexer {
    /// Reads the run of characters of class `k` from the position, appending them
    /// to `text` when `keep`.
    fn read_run(&mut self, k: CharClass, text: &mut Vec<char>, keep: bool)
        requires
            0 <= old(self)@.head <= old(self)@.input.len(),
            old(self)@.input.len() < usize::MAX,
        ensures
            final(self)@.input == old(self)@.input,
            final(self)@.head == old(self)@.head + run_len(old(self)@.input, old(self)@.head, k),
            final(text)@ == if keep {
                old(text)@ + old(self)@.input.subrange(old(self)@.head, final(self)@.head)
            } else {
                old(text)@
            },
    {
        loop
            invariant
                self@.input == old(self)@.input,
                old(self)@.head <= self@.head <= self@.input.len(),
                self@.input.len() < usize::MAX,
                run_len(self@.input, old(self)@.head, k) == (self@.head - old(self)@.head) + run_len(
                    self@.input,
                    self@.head,
                    k,
                ),
                text@ == if keep {
                    old(text)@ + self@.input.subrange(old(self)@.head, self@.head)
                } else {
                    old(text)@
                },
            ensures
                run_len(self@.input, self@.head, k) == 0,
            decreases self@.input.len() - self@.head,
        {
            match self.peek(1) {
                Some(c) => {
                    if char_in_class(c, &k) {
                        let ghost before = text@;
                        if keep {
                            text.push(c);
                        }
                        self.consume(1);
                        proof {
                            if keep {
                                assert(text@ =~= old(text)@ + self@.input.subrange(
                                    old(self)@.head,
                                    self@.head,
                                ));
                            }
                        }
                    } else {
                        break ;
                    }
                },
                None => {
                    break ;
                },
            }
        }
    }

    fn skip_line_comment(&mut self)
        requires
            0 <= old(self)@.head,
            line_comment_end(old(self)@.input, old(self)@.head) is Some,
            old(self)@.input.len() < usize::MAX,
        ensures
            final(self)@.input == old(self)@.input,
            line_comment_end(old(self)@.input, old(self)@.head) == Some(final(self)@.head),
    {
        let ghost e = line_comment_end(self@.input, self@.head)->0;
        proof {
            lemma_line_comment_end(self@.input, self@.head);
        }
        loop
            invariant_except_break
                0 <= self@.head < e <= self@.input.len(),
                line_comment_end(self@.input, self@.head) == Some(e),
            invariant
                self@.input == old(self)@.input,
                self@.input.len() < usize::MAX,
                line_comment_end(old(self)@.input, old(self)@.head) == Some(e),
            ensures
                self@.head == e,
            decreases e - self@.head,
        {
            if let Some('\n') = self.next() {
                break ;
            }
            proof {
                lemma_line_comment_end(self@.input, self@.head);
            }
        }
    }

    fn skip_block_comment(&mut self)
        requires
            0 <= old(self)@.head,
            block_comment_end(old(self)@.input, old(self)@.head) is Some,
            old(self)@.input.len() < usize::MAX,
        ensures
            final(self)@.input == old(self)@.input,
            block_comment_end(old(self)@.input, old(self)@.head) == Some(final(self)@.head),
    {
        let ghost e = block_comment_end(self@.input, self@.head)->0;
        proof {
            lemma_block_comment_end(self@.input, self@.head);
        }
        loop
            invariant_except_break
                0 <= self@.head < e <= self@.input.len(),
                block_comment_end(self@.input, self@.head) == Some(e),
            invariant
                self@.input == old(self)@.input,
                self@.input.len() < usize::MAX,
                block_comment_end(old(self)@.input, old(self)@.head) == Some(e),
            ensures
                self@.head == e,
            decreases e - self@.head,
        {
            if let Some('*') = self.next() {
                if let Some('/') = self.peek(1) {
                    self.consume(1);
                    break ;
                }
            }
            proof {
                lemma_block_comment_end(self@.input, self@.head);
            }
        }
    }

    fn lex_string_lit(&mut self, text: &mut Vec<char>) -> (r: Result<ANTLRTokenType, LexerErr>)
        requires
            0 <= old(self)@.head <= old(self)@.input.len(),
            old(self)@.input.len() < usize::MAX,
            scan_string_lit(old(self)@.input, old(self)@.head, false, old(text)@) is Some,
        ensures
            final(self)@.input == old(self)@.input,
            scan_string_lit(old(self)@.input, old(self)@.head, false, old(text)@) == Some(
                (
                    match r {
                        Ok(t) => Ok((t, final(text)@)),
                        Err(e) => Err(e),
                    },
                    final(self)@.head,
                ),
            ),
    {
        let ghost target = scan_string_lit(self@.input, self@.head, false, text@);
        let mut esc = false;
        loop
            invariant
                self@.input == old(self)@.input,
                0 <= self@.head <= self@.input.len(),
                self@.input.len() < usize::MAX,
                target == scan_string_lit(old(self)@.input, old(self)@.head, false, old(text)@),
                target is Some,
                scan_string_lit(self@.input, self@.head, esc, text@) == target,
            decreases self@.input.len() + 1 - self@.head,
        {
            match self.next() {
                None => {
                    return Err(LexerErr::EOF);
                },
                Some('\\') => {
                    if esc {
                        text.push('\\');
                        esc = false;
                    } else {
                        esc = true
                    }
                },
                Some('\'') => {
                    if esc {
                        text.push('\'');
                        esc = false;
                    } else {
                        return Ok(ANTLRTokenType::StringLit);
                    }
                },
                Some('n') => {
                    if esc {
                        text.push('\n');
                        esc = false;
                    } else {
                        text.push('n')
                    }
                },
                Some('t') => {
                    if esc {
                        text.push('\t');
                        esc = false;
                    } else {
                        text.push('t')
                    }
                },
                Some('r') => {
                    if esc {
                        text.push('\r');
                        esc = false;
                    } else {
                        text.push('r')
                    }
                },
                Some('f') => {
                    if esc {
                        text.push('\u{000C}');
                        esc = false;
                    } else {
                        text.push('f')
                    }
                },
                Some('u') => {
                    if esc {
                        // Unicode escapes are refused by the precondition.
                        proof {
                            assert(false);
                        }
                        return Err(LexerErr::EOF);
                    } else {
                        text.push('u')
                    }
                },
                Some(n) => {
                    text.push(n);
                },
            }
        }
    }

    fn lex_charset(&mut self, text: &mut Vec<char>) -> (r: Result<ANTLRTokenType, LexerErr>)
        requires
            0 <= old(self)@.head <= old(self)@.input.len(),
            old(self)@.input.len() < usize::MAX,
            scan_charset(old(self)@.input, old(self)@.head, false, old(text)@) is Some,
        ensures
            final(self)@.input == old(self)@.input,
            scan_charset(old(self)@.input, old(self)@.head, false, old(text)@) == Some(
                (
                    match r {
                        Ok(t) => Ok((t, final(text)@)),
                        Err(e) => Err(e),
                    },
                    final(self)@.head,
                ),
            ),
    {
        let ghost target = scan_charset(self@.input, self@.head, false, text@);
        let mut esc = false;
        loop
            invariant
                self@.input == old(self)@.input,
                0 <= self@.head <= self@.input.len(),
                self@.input.len() < usize::MAX,
                target == scan_charset(old(self)@.input, old(self)@.head, false, old(text)@),
                target is Some,
                scan_charset(self@.input, self@.head, esc, text@) == target,
            decreases self@.input.len() + 1 - self@.head,
        {
            match self.next() {
                None => {
                    return Err(LexerErr::EOF);
                },
                Some('\\') => {
                    if esc {
                        text.push('\\');
                        esc = false;
                    } else {
                        esc = true
                    }
                },
                Some(']') => {
                    if esc {
                        text.push(']');
                        esc = false;
                    } else {
                        return Ok(ANTLRTokenType::Charset);
                    }
                },
                Some('-') => {
                    if esc {
                        text.push('-');
                        esc = false;
                    } else {
                        return Err(LexerErr::UnkownCharacter('-'));
                    }
                },
                Some('n') => {
                    if esc {
                        text.push('\n');
                        esc = false;
                    } else {
                        text.push('n')
                    }
                },
                Some('t') => {
                    if esc {
                        text.push('\t');
                        esc = false;
                    } else {
                        text.push('t')
                    }
                },
                Some('r') => {
                    if esc {
                        text.push('\r');
                        esc = false;
                    } else {
                        text.push('r')
                    }
                },
                Some('f') => {
                    if esc {
                        text.push('\u{000C}');
                        esc = false;
                    } else {
                        text.push('f')
                    }
                },
                Some('u') => {
                    if esc {
                        // Unicode escapes are refused by the precondition.
                        proof {
                            assert(false);
                        }
                        return Err(LexerErr::EOF);
                    } else {
                        text.push('u')
                    }
                },
                Some(n) => {
                    text.push(n);
                },
            }
            assert(!esc ==> text@.len() > 0);
            assert(charset_range(self@.input, self@.head, esc, text@) == target);
            if !esc {
                if let Some('-') = self.peek(1) {
                    let until = match self.peek(2) {
                        None => {
                            return Err(LexerErr::EOF);
                        },
                        Some('\\') => {
                            // Escaped range ends are refused by the precondition.
                            proof {
                                assert(false);
                            }
                            return Err(LexerErr::EOF);
                        },
                        Some(n) => n,
                    };
                    self.consume(2);
                    let from = match text.pop() {
                        Some(f) => f,
                        None => {
                            proof {
                                assert(false);
                            }
                            return Err(LexerErr::EOF);
                        },
                    };
                    push_char_range(text, from, until);
                }
            }
        }
    }

    fn try_keywords(&mut self, kws: &Vec<(&'static str, ANTLRTokenType)>) -> (r: Result<
        ANTLRTokenType,
        LexerErr,
    >)
        requires
            0 <= old(self)@.head <= old(self)@.input.len(),
            old(self)@.input.len() < usize::MAX,
        ensures
            final(self)@.input == old(self)@.input,
            keyword_chain(old(self)@.input, old(self)@.head, keyword_views(kws@)) == (
                match r {
                    Ok(t) => Ok((t, Seq::<char>::empty())),
                    Err(e) => Err(e),
                },
                final(self)@.head,
            ),
    {
        let ghost all = keyword_views(kws@);
        let mut i: usize = 0;
        assert(all.skip(0) =~= all);
        while i < kws.len()
            invariant
                self@.input == old(self)@.input,
                0 <= self@.head <= self@.input.len(),
                self@.input.len() < usize::MAX,
                all == keyword_views(kws@),
                i <= kws.len(),
                keyword_chain(old(self)@.input, old(self)@.head, all) == keyword_chain(
                    self@.input,
                    self@.head,
                    all.skip(i as int),
                ),
            decreases kws.len() - i,
        {
            let (kw, t) = kws[i];
            let ghost start = self@.head;
            proof {
                lemma_keyword_result_bound(self@.input, start, kw@);
                assert(all.skip(i as int)[0] == (kw@, t));
                assert(all.skip(i as int).drop_first() =~= all.skip(i + 1));
            }
            if self.match_keyword(kw).is_ok() {
                return Ok(t);
            }
            i += 1;
        }
        proof {
            assert(all.skip(i as int) =~= Seq::<(Seq<char>, ANTLRTokenType)>::empty());
        }
        Err(LexerErr::UnmatchedKeyword)
    }

    /// Reads the token that starts with `c` (already read), before the fallback
    /// to identifiers.
    fn lex_symbol(&mut self, c: char, text: &mut Vec<char>) -> (r: Result<ANTLRTokenType, LexerErr>)
        requires
            0 <= old(self)@.head <= old(self)@.input.len(),
            old(self)@.input.len() + 2 < usize::MAX,
            old(text)@ == Seq::<char>::empty(),
            lex_symbol(old(self)@.input, old(self)@.head, c) is Some,
        ensures
            final(self)@.input == old(self)@.input,
            lex_symbol(old(self)@.input, old(self)@.head, c) == Some(
                (
                    match r {
                        Ok(t) => Ok((t, final(text)@)),
                        Err(e) => Err(e),
                    },
                    final(self)@.head,
                ),
            ),
            is_ascii_letter(c) ==> final(text)@ == old(text)@,
    {
        if c == ',' {
            Ok(ANTLRTokenType::Comma)
        } else if c == ';' {
            Ok(ANTLRTokenType::Semi)
        } else if c == '(' {
            Ok(ANTLRTokenType::LParen)
        } else if c == ')' {
            Ok(ANTLRTokenType::RParen)
        } else if c == '{' {
            Ok(ANTLRTokenType::LBrace)
        } else if c == '}' {
            Ok(ANTLRTokenType::RBrace)
        } else if c == '>' {
            Ok(ANTLRTokenType::GT)
        } else if c == '<' {
            Ok(ANTLRTokenType::LT)
        } else if c == '=' {
            Ok(ANTLRTokenType::Assign)
        } else if c == '|' {
            Ok(ANTLRTokenType::OR)
        } else if c == '$' {
            Ok(ANTLRTokenType::Dollar)
        } else if c == '?' {
            Ok(ANTLRTokenType::Question)
        } else if c == '*' {
            Ok(ANTLRTokenType::Star)
        } else if c == '@' {
            Ok(ANTLRTokenType::At)
        } else if c == '#' {
            Ok(ANTLRTokenType::Pound)
        } else if c == '~' {
            Ok(ANTLRTokenType::Not)
        } else if c == '0' {
            Ok(ANTLRTokenType::Int)
        } else if '1' <= c && c <= '9' {
            self.read_run(CharClass::IntTail, text, true);
            Ok(ANTLRTokenType::Int)
        } else if c == ':' {
            match self.peek(1) {
                Some(':') => {
                    self.consume(1);
                    Ok(ANTLRTokenType::DoubleColon)
                },
                _ => Ok(ANTLRTokenType::Colon),
            }
        } else if c == '+' {
            match self.peek(1) {
                Some('=') => {
                    self.consume(1);
                    Ok(ANTLRTokenType::PlusAssign)
                },
                _ => Ok(ANTLRTokenType::Plus),
            }
        } else if c == '.' {
            match self.peek(1) {
                Some('.') => {
                    self.consume(1);
                    Ok(ANTLRTokenType::Range)
                },
                _ => Ok(ANTLRTokenType::Dot),
            }
        } else if c == '-' {
            match self.peek(1) {
                Some('>') => {
                    self.consume(1);
                    Ok(ANTLRTokenType::Arrow)
                },
                Some(n) => Err(LexerErr::UnexpectedCharacter { expected: '>', got: Some(n) }),
                None => Err(LexerErr::EOF),
            }
        } else if c == ' ' || c == '\t' || c == '\r' || c == '\n' {
            self.read_run(CharClass::Space, text, false);
            Ok(ANTLRTokenType::WS)
        } else if c == 'g' {
            let start = self.head;
            proof {
                lemma_keyword_result_bound(self@.input, self@.head, "rammar"@);
            }
            if self.match_keyword("rammar").is_ok() {
                Ok(ANTLRTokenType::Grammar)
            } else {
                self.head = start;
                Err(LexerErr::UnmatchedKeyword)
            }
        } else if c == 'p' || c == 'o' || c == 'f' || c == 't' || c == 'c' || c == 'r' || c == 'i'
            || c == 'm' || c == 'l' {
            let kws = keyword_table(c);
            self.try_keywords(&kws)
        } else if c == '/' {
            match self.peek(1) {
                Some('/') => {
                    self.skip_line_comment();
                    Ok(ANTLRTokenType::Comment)
                },
                Some('*') => {
                    self.skip_block_comment();
                    Ok(ANTLRTokenType::CommentBlock)
                },
                n => Err(LexerErr::UnexpectedCharacter { expected: '/', got: n }),
            }
        } else if c == '\'' {
            self.lex_string_lit(text)
        } else if c == '[' {
            self.lex_charset(text)
        } else {
            Err(LexerErr::UnkownCharacter(c))
        }
    }

    pub fn next_token(&mut self) -> (r: Result<ANTLRToken, LexerErr>)
        requires
            old(self)@.head < usize::MAX,
            old(self)@.input.len() + 2 < usize::MAX,
            lex_token(old(self)@.input, old(self)@.head) is Some,
        ensures
            final(self)@.input == old(self)@.input,
            lex_token(old(self)@.input, old(self)@.head) == Some(
                (token_result_view(r), final(self)@.head),
            ),
    {
        let mut current_text: Vec<char> = Vec::new();
        let character = match self.next() {
            Some(c) => c,
            None => {
                return Ok(
                    ANTLRToken {
                        token_type: ANTLRTokenType::EOF,
                        text: string_from_chars(&current_text),
                    },
                );
            },
        };
        proof {
            if is_ascii_letter(character) {
                lemma_lex_symbol_letter_bound(self@.input, self@.head, character);
            }
        }
        let token = self.lex_symbol(character, &mut current_text);
        match token {
            Ok(t) => Ok(ANTLRToken { token_type: t, text: string_from_chars(&current_text) }),
            Err(e) => {
                let is_token;
                if 'a' <= character && character <= 'z' {
                    is_token = false;
                    current_text.push(character);
                } else if 'A' <= character && character <= 'Z' {
                    is_token = true;
                    current_text.push(character);
                } else {
                    return Err(e);
                }
                let ghost p = self@.head;
                self.read_run(CharClass::IdChar, &mut current_text, true);
                proof {
                    assert(current_text@ =~= seq![character] + self@.input.subrange(p, self@.head));
                }
                Ok(
                    ANTLRToken {
                        token_type: if is_token {
                            ANTLRTokenType::TokenID
                        } else {
                            ANTLRTokenType::RuleID
                        },
                        text: string_from_chars(&current_text),
                    },
                )
            },
        }
    }
}

// ---------------------------------------------------------------------------
// Facts about the token grammar.
// ---------------------------------------------------------------------------

proof fn lemma_run_len_bound(s: Seq<char>, i: int, p: CharClass)
    requires
        0 <= i <= s.len(),
    ensures
        i + run_len(s, i, p) <= s.len(),
    decreases s.len() - i,
{
    if i < s.len() && in_class(s[i], p) {
        lemma_run_len_bound(s, i + 1, p);
    }
}

proof fn lemma_line_comment_end(s: Seq<char>, p: int)
    requires
        0 <= p,
    ensures
        line_comment_end(s, p) matches Some(e) ==> p < e <= s.len(),
    decreases s.len() - p,
{
    if p < s.len() && s[p] != '\n' {
        lemma_line_comment_end(s, p + 1);
    }
}

proof fn lemma_block_comment_end(s: Seq<char>, p: int)
    requires
        0 <= p,
    ensures
        block_comment_end(s, p) matches Some(e) ==> p < e <= s.len(),
    decreases s.len() - p,
{
    if p < s.len() && !(s[p] == '*' && char_at(s, p + 1) == Some('/')) {
        lemma_block_comment_end(s, p + 1);
    }
}

proof fn lemma_keyword_result(s: Seq<char>, start: int, kw: Seq<char>)
    ensures
        start <= keyword_result(s, start, kw).1 <= start + kw.len(),
        keyword_result(s, start, kw).1 != start ==> keyword_mismatch(s, start, kw, 0) is None,
{
}

proof fn lemma_keyword_mismatch_none(s: Seq<char>, start: int, kw: Seq<char>, i: int)
    requires
        0 <= i,
        keyword_mismatch(s, start, kw, i) is None,
    ensures
        forall|j: int| i <= j < kw.len() ==> char_at(s, start + j) == Some(kw[j]),
    decreases kw.len() - i,
{
    if i < kw.len() {
        lemma_keyword_mismatch_none(s, start, kw, i + 1);
    }
}

proof fn lemma_keyword_chain(s: Seq<char>, p: int, kws: Seq<(Seq<char>, ANTLRTokenType)>)
    requires
        0 <= p <= s.len(),
    ensures
        p <= keyword_chain(s, p, kws).1 <= s.len(),
    decreases kws.len(),
{
    if kws.len() > 0 {
        let (r, p2) = keyword_result(s, p, kws[0].0);
        lemma_keyword_result(s, p, kws[0].0);
        if p2 != p {
            lemma_keyword_mismatch_none(s, p, kws[0].0, 0);
            if kws[0].0.len() > 0 {
                assert(char_at(s, p + kws[0].0.len() - 1) == Some(kws[0].0[kws[0].0.len() - 1]));
            }
        }
        if !(r is Ok) {
            lemma_keyword_chain(s, p2, kws.drop_first());
        }
    }
}

proof fn lemma_scan_string_lit(s: Seq<char>, p: int, esc: bool, acc: Seq<char>)
    requires
        0 <= p <= s.len(),
    ensures
        scan_string_lit(s, p, esc, acc) matches Some((_, e)) ==> p < e <= s.len() + 1,
    decreases s.len() - p,
{
    if p < s.len() {
        let x = s[p];
        if !(x == '\'' && !esc) && !(x == 'u' && esc) {
            let (e2, a2) = literal_step(x, esc, acc, false);
            lemma_scan_string_lit(s, p + 1, e2, a2);
        }
    }
}

proof fn lemma_scan_charset(s: Seq<char>, p: int, esc: bool, acc: Seq<char>)
    requires
        0 <= p <= s.len(),
    ensures
        scan_charset(s, p, esc, acc) matches Some((_, e)) ==> p < e <= s.len() + 1,
    decreases s.len() + 1 - p, 0int,
{
    if p < s.len() {
        let x = s[p];
        if !(x == ']' && !esc) && !(x == '-' && !esc) && !(x == 'u' && esc) {
            let (e2, a2) = literal_step(x, esc, acc, true);
            lemma_charset_range(s, p + 1, e2, a2);
        }
    }
}

proof fn lemma_charset_range(s: Seq<char>, q: int, esc: bool, acc: Seq<char>)
    requires
        1 <= q <= s.len(),
    ensures
        charset_range(s, q, esc, acc) matches Some((_, e)) ==> q <= e <= s.len() + 1,
    decreases s.len() + 1 - q, 1int,
{
    if !esc && char_at(s, q) == Some('-') {
        match char_at(s, q + 1) {
            None => {},
            Some(u) => if u != '\\' {
                lemma_scan_charset(s, q + 2, esc, acc.drop_last() + char_range(acc.last(), u));
            },
        }
    } else {
        lemma_scan_charset(s, q, esc, acc);
    }
}

proof fn lemma_lex_symbol_letter_bound(s: Seq<char>, p: int, c: char)
    requires
        0 <= p <= s.len(),
        is_ascii_letter(c),
    ensures
        lex_symbol(s, p, c) matches Some((_, p2)) ==> p <= p2 <= s.len(),
{
    if starts_keyword(c) {
        lemma_keyword_chain(s, p, keywords_for(c));
    }
    if c == 'g' {
        lemma_keyword_result_bound(s, p, "rammar"@);
    }
}

/// Reading a token always moves the position forward, and never more than one
/// past the end of the input (or one past where it started, beyond the end).
pub proof fn lemma_lex_token_advances(s: Seq<char>, h: int)
    requires
        0 <= h,
    ensures
        lex_token(s, h) matches Some((_, e)) ==> h < e && (e <= s.len() + 1 || e == h + 1),
{
    if h < s.len() {
        let c = s[h];
        let p = h + 1;
        if '1' <= c && c <= '9' {
            lemma_run_len_bound(s, p, CharClass::IntTail);
        } else if is_ws(c) {
            lemma_run_len_bound(s, p, CharClass::Space);
        } else if c == 'g' {
            lemma_keyword_result_bound(s, p, "rammar"@);
        } else if starts_keyword(c) {
            lemma_keyword_chain(s, p, keywords_for(c));
        } else if c == '/' {
            lemma_line_comment_end(s, p);
            lemma_block_comment_end(s, p);
        } else if c == '\'' {
            lemma_scan_string_lit(s, p, false, Seq::empty());
        } else if c == '[' {
            lemma_scan_charset(s, p, false, Seq::empty());
        }
        match lex_symbol(s, p, c) {
            Some((Err(_), p2)) => {
                if is_ascii_letter(c) {
                    if starts_keyword(c) {
                        lemma_keyword_chain(s, p, keywords_for(c));
                    }
                    if c == 'g' {
                        lemma_keyword_result_bound(s, p, "rammar"@);
                    }
                    lemma_run_len_bound(s, p2, CharClass::IdChar);
                }
            },
            _ => {},
        }
    }
}


// ---------------------------------------------------------------------------
// Whether reading a token returns: the lexer reads on forever through an
// unclosed comment, and does not take a `\u` escape or an escaped range end.
// ---------------------------------------------------------------------------

proof fn lemma_string_lit_acc(s: Seq<char>, p: int, esc: bool, acc: Seq<char>)
    ensures
        scan_string_lit(s, p, esc, acc) is Some == scan_string_lit(s, p, esc, Seq::empty()) is Some,
    decreases s.len() - p,
{
    if let Some(x) = char_at(s, p) {
        if !(x == '\'' && !esc) && !(x == 'u' && esc) {
            let (e2, a2) = literal_step(x, esc, acc, false);
            let (f2, b2) = literal_step(x, esc, Seq::empty(), false);
            assert(e2 == f2);
            lemma_string_lit_acc(s, p + 1, e2, a2);
            lemma_string_lit_acc(s, p + 1, e2, b2);
        }
    }
}

proof fn lemma_charset_acc(s: Seq<char>, p: int, esc: bool, acc: Seq<char>)
    ensures
        scan_charset(s, p, esc, acc) is Some == scan_charset(s, p, esc, Seq::empty()) is Some,
    decreases s.len() + 1 - p, 0int,
{
    if let Some(x) = char_at(s, p) {
        if !(x == ']' && !esc) && !(x == '-' && !esc) && !(x == 'u' && esc) {
            let (e2, a2) = literal_step(x, esc, acc, true);
            let (f2, b2) = literal_step(x, esc, Seq::empty(), true);
            assert(e2 == f2);
            lemma_range_acc(s, p + 1, e2, a2);
            lemma_range_acc(s, p + 1, e2, b2);
        }
    }
}

proof fn lemma_range_acc(s: Seq<char>, q: int, esc: bool, acc: Seq<char>)
    ensures
        charset_range(s, q, esc, acc) is Some == scan_charset(s, q, esc, Seq::empty()) is Some
            || (!esc && char_at(s, q) == Some('-') && (charset_range(s, q, esc, acc) is Some
            == (char_at(s, q + 1) != Some('\\') && (char_at(s, q + 1) is None || scan_charset(
            s,
            q + 2,
            esc,
            Seq::empty(),
        ) is Some)))),
        !esc && char_at(s, q) == Some('-') ==> (charset_range(s, q, esc, acc) is Some == (char_at(
            s,
            q + 1,
        ) != Some('\\') && (char_at(s, q + 1) is None || scan_charset(s, q + 2, esc, Seq::empty()) is Some))),
        !(!esc && char_at(s, q) == Some('-')) ==> charset_range(s, q, esc, acc) is Some
            == scan_charset(s, q, esc, Seq::empty()) is Some,
    decreases s.len() + 1 - q, 1int,
{
    if !esc && char_at(s, q) == Some('-') {
        if let Some(u) = char_at(s, q + 1) {
            if u != '\\' {
                lemma_charset_acc(s, q + 2, esc, acc.drop_last() + char_range(acc.last(), u));
            }
        }
    } else {
        lemma_charset_acc(s, q, esc, acc);
    }
}

/// Whether a line comment read from `p` ends.
fn line_comment_ends(s: &Vec<char>, p: usize) -> (b: bool)
    ensures
        b == line_comment_end(s@, p as int) is Some,
{
    let mut k = p;
    while k < s.len()
        invariant
            p <= k,
            line_comment_end(s@, p as int) == line_comment_end(s@, k as int),
        decreases s.len() - k,
    {
        if s[k] == '\n' {
            return true;
        }
        k += 1;
    }
    false
}

/// Whether a block comment read from `p` ends.
fn block_comment_ends(s: &Vec<char>, p: usize) -> (b: bool)
    ensures
        b == block_comment_end(s@, p as int) is Some,
{
    let mut k = p;
    while k < s.len()
        invariant
            p <= k,
            block_comment_end(s@, p as int) == block_comment_end(s@, k as int),
        decreases s.len() - k,
    {
        if s[k] == '*' && k + 1 < s.len() && s[k + 1] == '/' {
            return true;
        }
        k += 1;
    }
    false
}

/// The escape flag after reading `x` of a literal or set body.
fn escape_after(x: char, esc: bool, in_set: bool) -> (e: bool)
    ensures
        e == literal_step(x, esc, Seq::empty(), in_set).0,
{
    if x == '\\' {
        !esc
    } else if (!in_set && x == '\'') || (in_set && (x == ']' || x == '-')) {
        false
    } else if x == 'n' || x == 't' || x == 'r' || x == 'f' || x == 'u' {
        false
    } else {
        esc
    }
}

/// Whether a quoted literal whose body starts at `p` is read to an end.
fn string_lit_returns(s: &Vec<char>, p: usize) -> (b: bool)
    ensures
        b == scan_string_lit(s@, p as int, false, Seq::empty()) is Some,
{
    let mut k = p;
    let mut esc = false;
    while k < s.len()
        invariant
            p <= k,
            scan_string_lit(s@, p as int, false, Seq::empty()) is Some == scan_string_lit(
                s@,
                k as int,
                esc,
                Seq::empty(),
            ) is Some,
        decreases s.len() - k,
    {
        let x = s[k];
        if x == '\'' && !esc {
            return true;
        }
        if x == 'u' && esc {
            return false;
        }
        proof {
            let (e2, a2) = literal_step(x, esc, Seq::empty(), false);
            lemma_string_lit_acc(s@, k + 1, e2, a2);
        }
        esc = escape_after(x, esc, false);
        k += 1;
    }
    true
}

/// Whether a set whose body starts at `p` is read to an end.
fn charset_returns(s: &Vec<char>, p: usize) -> (b: bool)
    ensures
        b == scan_charset(s@, p as int, false, Seq::empty()) is Some,
{
    let mut k = p;
    let mut esc = false;
    while k < s.len()
        invariant
            p <= k,
            scan_charset(s@, p as int, false, Seq::empty()) is Some == scan_charset(
                s@,
                k as int,
                esc,
                Seq::empty(),
            ) is Some,
        decreases s.len() - k,
    {
        let x = s[k];
        if (x == ']' || x == '-') && !esc {
            return true;
        }
        if x == 'u' && esc {
            return false;
        }
        proof {
            let (e2, a2) = literal_step(x, esc, Seq::empty(), true);
            lemma_range_acc(s@, k + 1, e2, a2);
        }
        esc = escape_after(x, esc, true);
        k += 1;
        if !esc && k < s.len() && s[k] == '-' {
            if k + 1 >= s.len() {
                return true;
            }
            if s[k + 1] == '\\' {
                return false;
            }
            k += 2;
        }
    }
    true
}

impl Lexer {
    /// Whether reading the next token returns.
    pub fn token_returns(&self) -> (b: bool)
        requires
            self@.head < usize::MAX,
        ensures
            b == lex_token(self@.input, self@.head) is Some,
    {
        let h = self.head;
        if h >= self.input.len() {
            return true;
        }
        let c = self.input[h];
        let p = h + 1;
        if c == '/' && p < self.input.len() {
            if self.input[p] == '/' {
                return line_comment_ends(&self.input, p);
            } else if self.input[p] == '*' {
                return block_comment_ends(&self.input, p);
            }
        } else if c == '\'' {
            return string_lit_returns(&self.input, p);
        } else if c == '[' {
            return charset_returns(&self.input, p);
        }
        true
    }

    /// A lexer at the same position of the same characters.
    pub fn duplicate(&self) -> (l: Lexer)
        ensures
            l@ == self@,
    {
        let mut input: Vec<char> = Vec::new();
        let mut k: usize = 0;
        while k < self.input.len()
            invariant
                k <= self.input.len(),
                input@ == self.input@.take(k as int),
            decreases self.input.len() - k,
        {
            input.push(self.input[k]);
            k += 1;
            assert(input@ =~= self.input@.take(k as int));
        }
        assert(self.input@.take(k as int) =~= self.input@);
        Lexer { input, head: self.head }
    }
}


proof fn lemma_code_run_bounds(lo: int, hi: int)
    ensures
        forall|k: int|
            0 <= k < code_run(lo, hi).len() ==> lo <= (#[trigger] code_run(lo, hi)[k]) as int <= hi,
        code_run(lo, hi).len() <= if hi < lo { 0 } else { hi - lo + 1 },
    decreases hi - lo + 1,
{
    if hi >= lo {
        lemma_code_run_bounds(lo, hi - 1);
        let rest = code_run(lo, hi - 1);
        if is_scalar_value(hi) {
            assert forall|k: int| 0 <= k < code_run(lo, hi).len() implies lo <= (#[trigger] code_run(
                lo,
                hi,
            )[k]) as int <= hi by {
                if k < rest.len() {
                    assert(code_run(lo, hi)[k] == rest[k]);
                }
            }
        }
    }
}

proof fn lemma_code_run_first(lo: int, hi: int)
    requires
        lo <= hi,
        is_scalar_value(lo),
    ensures
        code_run(lo, hi).len() >= 1,
        code_run(lo, hi)[0] as int == lo,
    decreases hi - lo,
{
    if hi > lo {
        lemma_code_run_first(lo, hi - 1);
    } else {
        assert(code_run(lo, hi - 1) =~= Seq::<char>::empty());
    }
}

proof fn lemma_code_run_len(lo: int, hi: int)
    requires
        lo <= hi + 1,
        forall|c: int| lo <= c <= hi ==> is_scalar_value(c),
    ensures
        code_run(lo, hi).len() == hi - lo + 1,
    decreases hi - lo + 1,
{
    if hi >= lo {
        lemma_code_run_len(lo, hi - 1);
    }
}

/// A set range `x-y` with `x` not after `y` stands for the characters from
/// `x` to `y`, both included: it starts with `x`, ends with `y`, holds nothing
/// outside them, and where no surrogate code lies between them it holds all
/// `y - x + 1` of them.
pub proof fn law_char_range_inclusive(x: char, y: char)
    requires
        x <= y,
    ensures
        char_range(x, y).len() >= 1,
        char_range(x, y)[0] == x,
        char_range(x, y).last() == y,
        char_range(x, y).contains(y),
        forall|k: int| 0 <= k < char_range(x, y).len() ==> x <= #[trigger] char_range(x, y)[k] <= y,
        (y as int) < 0xD800 || (x as int) > 0xDFFF ==> char_range(x, y).len() == y as int - x as int + 1,
{
    let r = char_range(x, y);
    lemma_code_run_bounds(x as int, y as int);
    lemma_code_run_first(x as int, y as int);
    assert(is_scalar_value(y as int));
    assert(r.last() == y);
    assert(r[r.len() - 1] == y);
    if (y as int) < 0xD800 || (x as int) > 0xDFFF {
        lemma_code_run_len(x as int, y as int);
    }
}

/// Lexing a set that is one range `[x-y]` gives a set token whose text is the
/// range from `x` to `y`, both ends included, and reads the whole input.
pub proof fn law_set_range_token(x: char, y: char)
    requires
        x <= y,
        x != '\\',
        x != ']',
        x != '-',
        y != '\\',
    ensures
        lex_token(seq!['[', x, '-', y, ']'], 0) == Some(
            (Ok::<(ANTLRTokenType, Seq<char>), LexerErr>((ANTLRTokenType::Charset, char_range(x, y))), 5int),
        ),
        char_range(x, y)[0] == x,
        char_range(x, y).contains(y),
{
    let s = seq!['[', x, '-', y, ']'];
    law_char_range_inclusive(x, y);
    let (e1, a1) = literal_step(x, false, Seq::empty(), true);
    assert(e1 == false);
    assert(a1 =~= seq![x]);
    assert(a1.drop_last() + char_range(a1.last(), y) =~= char_range(x, y));
    assert(scan_charset(s, 4, false, char_range(x, y)) == Some(
        (Ok::<(ANTLRTokenType, Seq<char>), LexerErr>((ANTLRTokenType::Charset, char_range(x, y))), 5int),
    ));
    assert(charset_range(s, 2, false, a1) == scan_charset(s, 4, false, char_range(x, y)));
    assert(scan_charset(s, 1, false, Seq::empty()) == charset_range(s, 2, false, a1));
    assert(lex_symbol(s, 1, '[') == scan_charset(s, 1, false, Seq::empty()));
}

} // verus!
