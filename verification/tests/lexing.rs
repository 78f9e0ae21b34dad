use antlr_gen::lex::{ANTLRToken, ANTLRTokenType, Lexer, LexerErr};

fn tokens(input: &str) -> Vec<(ANTLRTokenType, String)> {
    let mut lexer = Lexer::new(input.to_string());
    let mut out = Vec::new();
    loop {
        let t: ANTLRToken = lexer.next_token().unwrap();
        if t.token_type() == ANTLRTokenType::EOF {
            break;
        }
        if t.token_type() != ANTLRTokenType::WS {
            out.push((t.token_type(), t.text()));
        }
    }
    out
}

fn kinds(input: &str) -> Vec<ANTLRTokenType> {
    tokens(input).into_iter().map(|(k, _)| k).collect()
}

#[test]
fn punctuation_tokens() {
    assert_eq!(
        kinds(", ; ( ) { } > < = | $ # @ ~ ? -> : :: * . .. + +="),
        vec![
            ANTLRTokenType::Comma,
            ANTLRTokenType::Semi,
            ANTLRTokenType::LParen,
            ANTLRTokenType::RParen,
            ANTLRTokenType::LBrace,
            ANTLRTokenType::RBrace,
            ANTLRTokenType::GT,
            ANTLRTokenType::LT,
            ANTLRTokenType::Assign,
            ANTLRTokenType::OR,
            ANTLRTokenType::Dollar,
            ANTLRTokenType::Pound,
            ANTLRTokenType::At,
            ANTLRTokenType::Not,
            ANTLRTokenType::Question,
            ANTLRTokenType::Arrow,
            ANTLRTokenType::Colon,
            ANTLRTokenType::DoubleColon,
            ANTLRTokenType::Star,
            ANTLRTokenType::Dot,
            ANTLRTokenType::Range,
            ANTLRTokenType::Plus,
            ANTLRTokenType::PlusAssign,
        ]
    );
}

#[test]
fn rule_and_token_names() {
    assert_eq!(
        tokens("expr TOKEN Mixed under_score x1"),
        vec![
            (ANTLRTokenType::RuleID, "expr".to_string()),
            (ANTLRTokenType::TokenID, "TOKEN".to_string()),
            (ANTLRTokenType::TokenID, "Mixed".to_string()),
            (ANTLRTokenType::RuleID, "under_score".to_string()),
            (ANTLRTokenType::RuleID, "x1".to_string()),
        ]
    );
}

#[test]
fn keywords_are_recognized() {
    assert_eq!(
        kinds("fragment parser lexer options throws"),
        vec![
            ANTLRTokenType::Fragment,
            ANTLRTokenType::ParserToken,
            ANTLRTokenType::LexerToken,
            ANTLRTokenType::Options,
            ANTLRTokenType::Throws,
        ]
    );
}

#[test]
fn comments_are_tokens() {
    assert_eq!(
        kinds("a // line comment\n /* block\n comment */ b"),
        vec![
            ANTLRTokenType::RuleID,
            ANTLRTokenType::Comment,
            ANTLRTokenType::CommentBlock,
            ANTLRTokenType::RuleID,
        ]
    );
}

#[test]
fn string_literal_keeps_its_text() {
    assert_eq!(tokens("'abc'"), vec![(ANTLRTokenType::StringLit, "abc".to_string())]);
}

#[test]
fn empty_input_is_eof() {
    let mut lexer = Lexer::new(String::new());
    assert_eq!(lexer.next_token().unwrap().token_type(), ANTLRTokenType::EOF);
}

#[test]
fn unknown_character_is_an_error() {
    let mut lexer = Lexer::new("%".to_string());
    assert_eq!(lexer.next_token().unwrap_err(), LexerErr::UnkownCharacter('%'));
}

#[test]
fn peek_and_consume() {
    let mut lexer = Lexer::new("abc".to_string());
    assert_eq!(lexer.peek(1), Some('a'));
    assert_eq!(lexer.peek(3), Some('c'));
    assert_eq!(lexer.peek(4), None);
    assert_eq!(lexer.peek_n(1, 2), Some(&['a', 'b'][..]));
    assert_eq!(lexer.peek_n(2, 3), None);
    lexer.consume(2);
    assert_eq!(lexer.next(), Some('c'));
    assert_eq!(lexer.next(), None);
}

#[test]
fn match_keyword_consumes_on_success() {
    let mut lexer = Lexer::new("returns x".to_string());
    assert_eq!(lexer.match_keyword("returns"), Ok(()));
    assert_eq!(lexer.peek(2), Some('x'));
}

#[test]
fn match_keyword_reports_mismatch() {
    let mut lexer = Lexer::new("retry".to_string());
    assert!(lexer.match_keyword("returns").is_err());
}

#[test]
fn token_accessors() {
    let t = ANTLRToken::new(ANTLRTokenType::RuleID, "name".to_string());
    assert_eq!(t.token_type(), ANTLRTokenType::RuleID);
    assert_eq!(t.text(), "name");
}

#[test]
fn whitespace_is_one_token() {
    let mut lexer = Lexer::new("  \n\t a".to_string());
    assert_eq!(lexer.next_token().unwrap().token_type(), ANTLRTokenType::WS);
    let t = lexer.next_token().unwrap();
    assert_eq!(t.token_type(), ANTLRTokenType::RuleID);
    assert_eq!(t.text(), "a");
}

#[test]
fn identifier_cannot_start_with_underscore() {
    let mut lexer = Lexer::new("_x".to_string());
    assert_eq!(lexer.next_token().unwrap_err(), LexerErr::UnkownCharacter('_'));
}

#[test]
fn grammar_is_a_keyword_only_as_a_whole_word() {
    assert_eq!(
        tokens("grammar g; grammarSpec grammar"),
        vec![
            (ANTLRTokenType::Grammar, String::new()),
            (ANTLRTokenType::RuleID, "g".to_string()),
            (ANTLRTokenType::Semi, String::new()),
            (ANTLRTokenType::RuleID, "grammarSpec".to_string()),
            (ANTLRTokenType::Grammar, String::new()),
        ]
    );
}

fn lexes_fully(input: &str) -> bool {
    antlr_gen::parse::lexing_returns(&Lexer::new(input.to_string()))
}

fn token_returns(input: &str) -> bool {
    Lexer::new(input.to_string()).token_returns()
}

#[test]
fn lexing_returns_on_a_whole_grammar() {
    assert!(lexes_fully("grammar g ; s : 'a' [a-z] B ; // done\n /* note */ B : 'b' ;"));
    assert!(lexes_fully(""));
}

#[test]
fn lexing_returns_at_a_lexing_error() {
    assert!(lexes_fully("s : % 'a' /* never closed"));
}

#[test]
fn lexing_does_not_return_past_an_unclosed_comment() {
    assert!(!lexes_fully("s : 'a' ; /* never closed"));
    assert!(!lexes_fully("s : 'a' ; // no newline"));
    assert!(lexes_fully("s : 'a' ; // newline\n"));
}

#[test]
fn lexing_does_not_return_on_unicode_escapes() {
    assert!(!lexes_fully("s : '\\u0041' ;"));
    assert!(!lexes_fully("s : [\\u0041] ;"));
    assert!(lexes_fully("s : 'u\\n' ;"));
}

#[test]
fn lexing_does_not_return_on_an_escaped_range_end() {
    assert!(!lexes_fully("s : [a-\\]] ;"));
    assert!(lexes_fully("s : [a-z\\]] ;"));
}

#[test]
fn token_returns_looks_at_the_next_token_only() {
    assert!(token_returns("a /* never closed"));
    assert!(!token_returns("/* never closed"));
    assert!(!token_returns("'\\u"));
    assert!(token_returns("'open"));
}
