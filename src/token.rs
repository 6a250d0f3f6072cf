use vstd::prelude::*;
use vstd::string::*;

use crate::text::{int_text, int_to_string};

verus! {

/// A lexeme of the language.
///
/// Identifiers, strings and number literals carry their text; an integer
/// literal carries its value. A float literal keeps its spelling: the
/// language recognises floats but never computes with them.
#[derive(Debug, PartialEq, Eq)]
pub enum Token {
    ILLEGAL,
    EOF,
    IDENT(String),
    INT(i32),
    FLOAT(String),
    STRING(String),
    ASSIGN,
    PLUS,
    MINUS,
    ASTERISK,
    SLASH,
    LT,
    GT,
    BANG,
    COMMA,
    COLON,
    SEMICOLON,
    LPAREN,
    RPAREN,
    LBRACE,
    RBRACE,
    LBRACKET,
    RBRACKET,
    FUNCTION,
    LET,
    TRUE,
    FALSE,
    IF,
    ELSE,
    RETURN,
    FOR,
    IN,
    EQ,
    NEQ,
}

/// The textual form of a token: the text it carries, or its kind's name.
pub open spec fn token_text(t: Token) -> Seq<char> {
    match t {
        Token::IDENT(s) => s@,
        Token::INT(i) => int_text(i as int),
        Token::FLOAT(s) => s@,
        Token::STRING(s) => s@,
        Token::ASSIGN => "ASSIGN"@,
        Token::PLUS => "PLUS"@,
        Token::MINUS => "MINUS"@,
        Token::ASTERISK => "ASTERISK"@,
        Token::SLASH => "SLASH"@,
        Token::LT => "LT"@,
        Token::GT => "GT"@,
        Token::BANG => "BANG"@,
        Token::COMMA => "COMMA"@,
        Token::COLON => "COLON"@,
        Token::SEMICOLON => "SEMICOLON"@,
        Token::LPAREN => "LPAREN"@,
        Token::RPAREN => "RPAREN"@,
        Token::LBRACE => "LBRACE"@,
        Token::RBRACE => "RBRACE"@,
        Token::LBRACKET => "LBRACKET"@,
        Token::RBRACKET => "RBRACKET"@,
        Token::FUNCTION => "FUNCTION"@,
        Token::LET => "LET"@,
        Token::TRUE => "TRUE"@,
        Token::FALSE => "FALSE"@,
        Token::IF => "IF"@,
        Token::ELSE => "ELSE"@,
        Token::RETURN => "RETURN"@,
        Token::FOR => "FOR"@,
        Token::IN => "IN"@,
        Token::EQ => "EQ"@,
        Token::NEQ => "NEQ"@,
        Token::ILLEGAL => "ILLEGAL"@,
        Token::EOF => "EOF"@,
    }
}

/// The keyword spelled by `w`, if any.
pub open spec fn keyword(w: Seq<char>) -> Option<Token> {
    if w == seq!['l', 'e', 't'] {
        Some(Token::LET)
    } else if w == seq!['f', 'n'] {
        Some(Token::FUNCTION)
    } else if w == seq!['t', 'r', 'u', 'e'] {
        Some(Token::TRUE)
    } else if w == seq!['f', 'a', 'l', 's', 'e'] {
        Some(Token::FALSE)
    } else if w == seq!['i', 'f'] {
        Some(Token::IF)
    } else if w == seq!['e', 'l', 's', 'e'] {
        Some(Token::ELSE)
    } else if w == seq!['r', 'e', 't', 'u', 'r', 'n'] {
        Some(Token::RETURN)
    } else if w == seq!['f', 'o', 'r'] {
        Some(Token::FOR)
    } else if w == seq!['i', 'n'] {
        Some(Token::IN)
    } else {
        None
    }
}

/// The token of a one-character operator or delimiter, other than `=` and `!`
/// (which may begin a two-character operator).
pub open spec fn punctuation(c: char) -> Option<Token> {
    if c == '+' {
        Some(Token::PLUS)
    } else if c == '-' {
        Some(Token::MINUS)
    } else if c == '*' {
        Some(Token::ASTERISK)
    } else if c == '/' {
        Some(Token::SLASH)
    } else if c == '<' {
        Some(Token::LT)
    } else if c == '>' {
        Some(Token::GT)
    } else if c == ',' {
        Some(Token::COMMA)
    } else if c == ':' {
        Some(Token::COLON)
    } else if c == ';' {
        Some(Token::SEMICOLON)
    } else if c == '(' {
        Some(Token::LPAREN)
    } else if c == ')' {
        Some(Token::RPAREN)
    } else if c == '{' {
        Some(Token::LBRACE)
    } else if c == '}' {
        Some(Token::RBRACE)
    } else if c == '[' {
        Some(Token::LBRACKET)
    } else if c == ']' {
        Some(Token::RBRACKET)
    } else {
        None
    }
}

impl Token {
    /// The canonical spelling of a punctuation or keyword token; empty for
    /// the tokens that carry a payload and for `ILLEGAL` and `EOF`.
    pub open spec fn spelling(self) -> Seq<char> {
        match self {
            Token::ASSIGN => seq!['='],
            Token::PLUS => seq!['+'],
            Token::MINUS => seq!['-'],
            Token::ASTERISK => seq!['*'],
            Token::SLASH => seq!['/'],
            Token::LT => seq!['<'],
            Token::GT => seq!['>'],
            Token::BANG => seq!['!'],
            Token::COMMA => seq![','],
            Token::COLON => seq![':'],
            Token::SEMICOLON => seq![';'],
            Token::LPAREN => seq!['('],
            Token::RPAREN => seq![')'],
            Token::LBRACE => seq!['{'],
            Token::RBRACE => seq!['}'],
            Token::LBRACKET => seq!['['],
            Token::RBRACKET => seq![']'],
            Token::FUNCTION => seq!['f', 'n'],
            Token::LET => seq!['l', 'e', 't'],
            Token::TRUE => seq!['t', 'r', 'u', 'e'],
            Token::FALSE => seq!['f', 'a', 'l', 's', 'e'],
            Token::IF => seq!['i', 'f'],
            Token::ELSE => seq!['e', 'l', 's', 'e'],
            Token::RETURN => seq!['r', 'e', 't', 'u', 'r', 'n'],
            Token::FOR => seq!['f', 'o', 'r'],
            Token::IN => seq!['i', 'n'],
            Token::EQ => seq!['=', '='],
            Token::NEQ => seq!['!', '='],
            _ => Seq::empty(),
        }
    }

    /// Punctuation and keyword tokens: those with a fixed spelling.
    pub open spec fn is_fixed(self) -> bool {
        self.spelling().len() > 0
    }

    /// Same variant; payloads are not compared.
    pub open spec fn same_kind(self, other: Token) -> bool {
        match (self, other) {
            (Token::IDENT(_), Token::IDENT(_)) => true,
            (Token::INT(_), Token::INT(_)) => true,
            (Token::FLOAT(_), Token::FLOAT(_)) => true,
            (Token::STRING(_), Token::STRING(_)) => true,
            (Token::IDENT(_), _) => false,
            (Token::INT(_), _) => false,
            (Token::FLOAT(_), _) => false,
            (Token::STRING(_), _) => false,
            (_, Token::IDENT(_)) => false,
            (_, Token::INT(_)) => false,
            (_, Token::FLOAT(_)) => false,
            (_, Token::STRING(_)) => false,
            _ => self == other,
        }
    }

    /// The textual form of this token: the text it carries, or its kind's
    /// name.
    pub fn to_string(&self) -> (r: String)
        ensures
            r@ == token_text(*self),
    {
        match self {
            Token::IDENT(s) => s.clone(),
            Token::INT(i) => int_to_string(*i),
            Token::FLOAT(s) => s.clone(),
            Token::STRING(s) => s.clone(),
            Token::ASSIGN => String::from_str("ASSIGN"),
            Token::PLUS => String::from_str("PLUS"),
            Token::MINUS => String::from_str("MINUS"),
            Token::ASTERISK => String::from_str("ASTERISK"),
            Token::SLASH => String::from_str("SLASH"),
            Token::LT => String::from_str("LT"),
            Token::GT => String::from_str("GT"),
            Token::BANG => String::from_str("BANG"),
            Token::COMMA => String::from_str("COMMA"),
            Token::COLON => String::from_str("COLON"),
            Token::SEMICOLON => String::from_str("SEMICOLON"),
            Token::LPAREN => String::from_str("LPAREN"),
            Token::RPAREN => String::from_str("RPAREN"),
            Token::LBRACE => String::from_str("LBRACE"),
            Token::RBRACE => String::from_str("RBRACE"),
            Token::LBRACKET => String::from_str("LBRACKET"),
            Token::RBRACKET => String::from_str("RBRACKET"),
            Token::FUNCTION => String::from_str("FUNCTION"),
            Token::LET => String::from_str("LET"),
            Token::TRUE => String::from_str("TRUE"),
            Token::FALSE => String::from_str("FALSE"),
            Token::IF => String::from_str("IF"),
            Token::ELSE => String::from_str("ELSE"),
            Token::RETURN => String::from_str("RETURN"),
            Token::FOR => String::from_str("FOR"),
            Token::IN => String::from_str("IN"),
            Token::EQ => String::from_str("EQ"),
            Token::NEQ => String::from_str("NEQ"),
            Token::ILLEGAL => String::from_str("ILLEGAL"),
            Token::EOF => String::from_str("EOF"),
        }
    }

    /// Whether `self` and `other` are the same kind of token.
    pub fn is_kind(&self, other: &Token) -> (r: bool)
        ensures
            r == self.same_kind(*other),
    {
        match (self, other) {
            (Token::IDENT(_), Token::IDENT(_)) => true,
            (Token::INT(_), Token::INT(_)) => true,
            (Token::FLOAT(_), Token::FLOAT(_)) => true,
            (Token::STRING(_), Token::STRING(_)) => true,
            (Token::IDENT(_), _) => false,
            (Token::INT(_), _) => false,
            (Token::FLOAT(_), _) => false,
            (Token::STRING(_), _) => false,
            (_, Token::IDENT(_)) => false,
            (_, Token::INT(_)) => false,
            (_, Token::FLOAT(_)) => false,
            (_, Token::STRING(_)) => false,
            (Token::ILLEGAL, Token::ILLEGAL) => true,
            (Token::EOF, Token::EOF) => true,
            (Token::ASSIGN, Token::ASSIGN) => true,
            (Token::PLUS, Token::PLUS) => true,
            (Token::MINUS, Token::MINUS) => true,
            (Token::ASTERISK, Token::ASTERISK) => true,
            (Token::SLASH, Token::SLASH) => true,
            (Token::LT, Token::LT) => true,
            (Token::GT, Token::GT) => true,
            (Token::BANG, Token::BANG) => true,
            (Token::COMMA, Token::COMMA) => true,
            (Token::COLON, Token::COLON) => true,
            (Token::SEMICOLON, Token::SEMICOLON) => true,
            (Token::LPAREN, Token::LPAREN) => true,
            (Token::RPAREN, Token::RPAREN) => true,
            (Token::LBRACE, Token::LBRACE) => true,
            (Token::RBRACE, Token::RBRACE) => true,
            (Token::LBRACKET, Token::LBRACKET) => true,
            (Token::RBRACKET, Token::RBRACKET) => true,
            (Token::FUNCTION, Token::FUNCTION) => true,
            (Token::LET, Token::LET) => true,
            (Token::TRUE, Token::TRUE) => true,
            (Token::FALSE, Token::FALSE) => true,
            (Token::IF, Token::IF) => true,
            (Token::ELSE, Token::ELSE) => true,
            (Token::RETURN, Token::RETURN) => true,
            (Token::FOR, Token::FOR) => true,
            (Token::IN, Token::IN) => true,
            (Token::EQ, Token::EQ) => true,
            (Token::NEQ, Token::NEQ) => true,
            _ => false,
        }
    }
}

} // verus!
