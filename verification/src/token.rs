use vstd::prelude::*;

verus! {

/// One lexical token of the JSON-like grammar. Literal tokens carry their
/// exact source text; the end of the stream is the end of the token vector.
#[derive(Debug, Clone)]
pub enum Token {
    LBrace,
    RBrace,
    LBracket,
    RBracket,
    Colon,
    Comma,
    StrLit(String),
    IntLit(String),
    FloatLit(String),
    BoolLit(String),
    Ident(String),
}

/// Mathematical model of a token: literal text as a sequence of characters.
pub enum TokenModel {
    LBrace,
    RBrace,
    LBracket,
    RBracket,
    Colon,
    Comma,
    StrLit(Seq<char>),
    IntLit(Seq<char>),
    FloatLit(Seq<char>),
    BoolLit(Seq<char>),
    Ident(Seq<char>),
}

impl DeepView for Token {
    type V = TokenModel;

    open spec fn deep_view(&self) -> TokenModel {
        match self {
            Token::LBrace => TokenModel::LBrace,
            Token::RBrace => TokenModel::RBrace,
            Token::LBracket => TokenModel::LBracket,
            Token::RBracket => TokenModel::RBracket,
            Token::Colon => TokenModel::Colon,
            Token::Comma => TokenModel::Comma,
            Token::StrLit(t) => TokenModel::StrLit(t.deep_view()),
            Token::IntLit(t) => TokenModel::IntLit(t.deep_view()),
            Token::FloatLit(t) => TokenModel::FloatLit(t.deep_view()),
            Token::BoolLit(t) => TokenModel::BoolLit(t.deep_view()),
            Token::Ident(t) => TokenModel::Ident(t.deep_view()),
        }
    }
}

/// A decimal digit.
pub open spec fn is_digit(c: char) -> bool {
    '0' <= c && c <= '9'
}

/// A non-empty run of decimal digits: the text of an integer literal.
pub open spec fn is_int_text(s: Seq<char>) -> bool {
    s.len() > 0 && forall|i: int| 0 <= i < s.len() ==> is_digit(#[trigger] s[i])
}

/// The text of a float literal: digits, one dot, digits.
pub open spec fn is_float_text(s: Seq<char>) -> bool {
    exists|k: int|
        0 <= k < s.len() && #[trigger] s[k] == '.' && is_int_text(s.subrange(0, k))
            && is_int_text(s.subrange(k + 1, s.len() as int))
}

/// The text of a boolean literal.
pub open spec fn is_bool_text(s: Seq<char>) -> bool {
    s == "true"@ || s == "false"@
}

/// A character that may start an identifier.
pub open spec fn is_ident_start(c: char) -> bool {
    ('a' <= c && c <= 'z') || ('A' <= c && c <= 'Z') || c == '_'
}

/// A character that may continue an identifier.
pub open spec fn is_ident_char(c: char) -> bool {
    is_ident_start(c) || is_digit(c)
}

/// The text of an identifier token. The lexical classifier hands the texts
/// `true` and `false` out as boolean literals, never as identifiers.
pub open spec fn is_ident_text(s: Seq<char>) -> bool {
    s.len() > 0 && is_ident_start(s[0]) && (forall|i: int|
        0 <= i < s.len() ==> is_ident_char(#[trigger] s[i])) && !is_bool_text(s)
}

/// The content of a string literal: stored as lexed, no escape handling,
/// so a double quote cannot occur inside it.
pub open spec fn is_string_text(s: Seq<char>) -> bool {
    forall|i: int| 0 <= i < s.len() ==> #[trigger] s[i] != '"'
}

/// A well-formed token: its text has the shape its kind announces.
pub open spec fn token_wf(t: TokenModel) -> bool {
    match t {
        TokenModel::StrLit(s) => is_string_text(s),
        TokenModel::IntLit(s) => is_int_text(s),
        TokenModel::FloatLit(s) => is_float_text(s),
        TokenModel::BoolLit(s) => is_bool_text(s),
        TokenModel::Ident(s) => is_ident_text(s),
        _ => true,
    }
}

/// Every token of the stream is well-formed.
pub open spec fn tokens_wf(ts: Seq<TokenModel>) -> bool {
    forall|i: int| 0 <= i < ts.len() ==> token_wf(#[trigger] ts[i])
}

} // verus!
