use vstd::prelude::*;
use vstd::string::*;

use crate::token::{keyword, punctuation, Token};

verus! {

/// The character at `i`, or NUL past the end: NUL stands for end of input.
pub open spec fn char_at(s: Seq<char>, i: int) -> char {
    if 0 <= i < s.len() {
        s[i]
    } else {
        '\0'
    }
}

pub open spec fn is_whitespace(c: char) -> bool {
    c == ' ' || c == '\t' || c == '\n' || c == '\r'
}

pub open spec fn is_letter_spec(c: char) -> bool {
    ('a' <= c && c <= 'z') || ('A' <= c && c <= 'Z') || c == '_'
}

pub open spec fn is_digit_spec(c: char) -> bool {
    '0' <= c && c <= '9'
}

/// First position at or after `i` that is not whitespace.
pub open spec fn skip_ws(s: Seq<char>, i: int) -> int
    decreases s.len() - i,
{
    if 0 <= i < s.len() && is_whitespace(s[i]) {
        skip_ws(s, i + 1)
    } else {
        i
    }
}

/// End of the run of letters that starts at `i`.
pub open spec fn ident_end(s: Seq<char>, i: int) -> int
    decreases s.len() - i,
{
    if 0 <= i < s.len() && is_letter_spec(s[i]) {
        ident_end(s, i + 1)
    } else {
        i
    }
}

/// End of the run of digits that starts at `i`.
pub open spec fn digits_end(s: Seq<char>, i: int) -> int
    decreases s.len() - i,
{
    if 0 <= i < s.len() && is_digit_spec(s[i]) {
        digits_end(s, i + 1)
    } else {
        i
    }
}

/// Position of the closing quote of a string whose text starts at `i`, or of
/// the end of input if the string is not closed.
pub open spec fn string_end(s: Seq<char>, i: int) -> int
    decreases s.len() - i,
{
    if 0 <= i < s.len() && s[i] != '"' && s[i] != '\0' {
        string_end(s, i + 1)
    } else {
        i
    }
}

pub open spec fn digit_value(c: char) -> int {
    (c as u32) as int - ('0' as u32) as int
}

/// The number that a string of decimal digits denotes.
pub open spec fn digits_value(w: Seq<char>) -> int
    decreases w.len(),
{
    if w.len() == 0 {
        0
    } else {
        digits_value(w.drop_last()) * 10 + digit_value(w.last())
    }
}

/// Where the scanner stands after the token that begins at or after `pos`.
/// End of input is not passed: scanning there stays put.
pub open spec fn next_pos(s: Seq<char>, pos: int) -> int {
    let p = skip_ws(s, pos);
    let c = char_at(s, p);
    if c == '\0' {
        p
    } else if c == '=' || c == '!' {
        if char_at(s, p + 1) == '=' {
            p + 2
        } else {
            p + 1
        }
    } else if c == '"' {
        let e = string_end(s, p + 1);
        if char_at(s, e) == '"' {
            e + 1
        } else {
            e
        }
    } else if is_letter_spec(c) {
        ident_end(s, p)
    } else if is_digit_spec(c) {
        let e = digits_end(s, p);
        if char_at(s, e) == '.' {
            digits_end(s, e + 1)
        } else {
            e
        }
    } else {
        p + 1
    }
}

/// `t` is the token that the scanner finds at or after `pos` in `s`.
pub open spec fn scanned(s: Seq<char>, pos: int, t: Token) -> bool {
    let p = skip_ws(s, pos);
    let c = char_at(s, p);
    if c == '\0' {
        t == Token::EOF
    } else if c == '=' {
        if char_at(s, p + 1) == '=' {
            t == Token::EQ
        } else {
            t == Token::ASSIGN
        }
    } else if c == '!' {
        if char_at(s, p + 1) == '=' {
            t == Token::NEQ
        } else {
            t == Token::BANG
        }
    } else if punctuation(c) is Some {
        t == punctuation(c)->0
    } else if c == '"' {
        let e = string_end(s, p + 1);
        if char_at(s, e) == '"' {
            t is STRING && t->STRING_0@ == s.subrange(p + 1, e)
        } else {
            t == Token::ILLEGAL
        }
    } else if is_letter_spec(c) {
        let w = s.subrange(p, ident_end(s, p));
        match keyword(w) {
            Some(k) => t == k,
            None => t is IDENT && t->IDENT_0@ == w,
        }
    } else if is_digit_spec(c) {
        let e = digits_end(s, p);
        if char_at(s, e) == '.' {
            t is FLOAT && t->FLOAT_0@ == s.subrange(p, digits_end(s, e + 1))
        } else if digits_value(s.subrange(p, e)) <= i32::MAX {
            t == Token::INT(digits_value(s.subrange(p, e)) as i32)
        } else {
            t == Token::ILLEGAL
        }
    } else {
        t == Token::ILLEGAL
    }
}

/// `toks` is the whole token stream of `s` from `pos`: tokens up to and
/// including the first `EOF`.
pub open spec fn lexes_from(s: Seq<char>, pos: int, toks: Seq<Token>) -> bool
    decreases toks.len(),
{
    &&& toks.len() > 0
    &&& scanned(s, pos, toks[0])
    &&& if toks[0] is EOF {
        toks.len() == 1
    } else {
        lexes_from(s, next_pos(s, pos), toks.drop_first())
    }
}

/// Single-pass scanner with one character of lookahead.
#[derive(Debug)]
pub struct Lexer {
    text: String,
    chars: Vec<char>,
    position: usize,
}

impl Lexer {
    /// The characters being scanned.
    pub closed spec fn input(&self) -> Seq<char> {
        self.chars@
    }

    /// Index of the current character.
    pub closed spec fn pos(&self) -> int {
        self.position as int
    }

    pub closed spec fn wf(&self) -> bool {
        &&& self.position <= self.chars.len()
        &&& self.text@ == self.chars@
    }

    pub fn new(input: &str) -> (r: Lexer)
        ensures
            r.wf(),
            r.input() == input@,
            r.pos() == 0,
    {
        let n = input.unicode_len();
        let mut chars: Vec<char> = Vec::new();
        let mut i: usize = 0;
        while i < n
            invariant
                n == input@.len(),
                i <= n,
                chars@ == input@.subrange(0, i as int),
            decreases n - i,
        {
            chars.push(input.get_char(i));
            i = i + 1;
        }
        assert(chars@ == input@);
        Lexer { text: String::from_str(input), chars, position: 0 }
    }

    fn current(&self) -> (c: char)
        requires
            self.wf(),
        ensures
            c == char_at(self.input(), self.pos()),
    {
        if self.position < self.chars.len() {
            self.chars[self.position]
        } else {
            '\0'
        }
    }

    fn peek_char(&self) -> (c: char)
        requires
            self.wf(),
        ensures
            c == char_at(self.input(), self.pos() + 1),
    {
        if self.position < self.chars.len() && self.position + 1 < self.chars.len() {
            self.chars[self.position + 1]
        } else {
            '\0'
        }
    }

    fn is_letter(c: char) -> (r: bool)
        ensures
            r == is_letter_spec(c),
    {
        ('a' <= c && c <= 'z') || ('A' <= c && c <= 'Z') || c == '_'
    }

    fn is_digit(c: char) -> (r: bool)
        ensures
            r == is_digit_spec(c),
    {
        '0' <= c && c <= '9'
    }

    fn skip_whitespace(&mut self)
        requires
            old(self).wf(),
        ensures
            final(self).wf(),
            final(self).input() == old(self).input(),
            final(self).pos() == skip_ws(old(self).input(), old(self).pos()),
    {
        while self.position < self.chars.len() && (self.chars[self.position] == ' '
            || self.chars[self.position] == '\t' || self.chars[self.position] == '\n'
            || self.chars[self.position] == '\r')
            invariant
                self.wf(),
                self.input() == old(self).input(),
                skip_ws(self.input(), self.pos()) == skip_ws(old(self).input(), old(self).pos()),
            decreases self.chars.len() - self.position,
        {
            self.position = self.position + 1;
        }
    }

    /// The text between `start` and `end`.
    fn slice(&self, start: usize, end: usize) -> (r: String)
        requires
            self.wf(),
            start <= end <= self.input().len(),
        ensures
            r@ == self.input().subrange(start as int, end as int),
    {
        String::from_str(self.text.as_str().substring_char(start, end))
    }

    /// Whether the text between `start` and `end` is `w`.
    fn span_is(&self, start: usize, end: usize, w: &Vec<char>) -> (r: bool)
        requires
            self.wf(),
            start <= end <= self.input().len(),
        ensures
            r == (self.input().subrange(start as int, end as int) == w@),
    {
        if end - start != w.len() {
            return false;
        }
        let mut i: usize = 0;
        while i < w.len()
            invariant
                self.wf(),
                start <= end <= self.input().len(),
                end - start == w.len(),
                i <= w.len(),
                forall|j: int| 0 <= j < i ==> self.input()[start + j] == w@[j],
            decreases w.len() - i,
        {
            if self.chars[start + i] != w[i] {
                assert(self.input().subrange(start as int, end as int)[i as int] != w@[i as int]);
                return false;
            }
            i = i + 1;
        }
        assert(self.input().subrange(start as int, end as int) =~= w@);
        true
    }

    /// The keyword spelled between `start` and `end`, or an identifier.
    fn token_from(&self, start: usize, end: usize) -> (t: Token)
        requires
            self.wf(),
            start <= end <= self.input().len(),
        ensures
            ({
                let w = self.input().subrange(start as int, end as int);
                match keyword(w) {
                    Some(k) => t == k,
                    None => t is IDENT && t->IDENT_0@ == w,
                }
            }),
    {
        let ghost w = self.input().subrange(start as int, end as int);
        if self.span_is(start, end, &vec!['l', 'e', 't']) {
            Token::LET
        } else if self.span_is(start, end, &vec!['f', 'n']) {
            Token::FUNCTION
        } else if self.span_is(start, end, &vec!['t', 'r', 'u', 'e']) {
            Token::TRUE
        } else if self.span_is(start, end, &vec!['f', 'a', 'l', 's', 'e']) {
            Token::FALSE
        } else if self.span_is(start, end, &vec!['i', 'f']) {
            Token::IF
        } else if self.span_is(start, end, &vec!['e', 'l', 's', 'e']) {
            Token::ELSE
        } else if self.span_is(start, end, &vec!['r', 'e', 't', 'u', 'r', 'n']) {
            Token::RETURN
        } else if self.span_is(start, end, &vec!['f', 'o', 'r']) {
            Token::FOR
        } else if self.span_is(start, end, &vec!['i', 'n']) {
            Token::IN
        } else {
            Token::IDENT(self.slice(start, end))
        }
    }

    /// Advances over letters and returns where the run began.
    fn read_identifier(&mut self) -> (start: usize)
        requires
            old(self).wf(),
        ensures
            final(self).wf(),
            final(self).input() == old(self).input(),
            start == old(self).pos(),
            start <= final(self).pos(),
            final(self).pos() == ident_end(old(self).input(), old(self).pos()),
    {
        let start = self.position;
        while self.position < self.chars.len() && Self::is_letter(self.chars[self.position])
            invariant
                self.wf(),
                start == old(self).pos(),
                start <= self.position,
                self.input() == old(self).input(),
                ident_end(self.input(), self.pos()) == ident_end(
                    old(self).input(),
                    old(self).pos(),
                ),
            decreases self.chars.len() - self.position,
        {
            self.position = self.position + 1;
        }
        start
    }

    /// Advances over digits; returns their value when it fits in `i32`.
    fn read_digits(&mut self) -> (r: Option<i32>)
        requires
            old(self).wf(),
        ensures
            final(self).wf(),
            final(self).input() == old(self).input(),
            final(self).pos() == digits_end(old(self).input(), old(self).pos()),
            old(self).pos() <= final(self).pos(),
            ({
                let v = digits_value(old(self).input().subrange(old(self).pos(), final(self).pos()));
                match r {
                    Some(x) => v <= i32::MAX && x == v,
                    None => v > i32::MAX,
                }
            }),
    {
        let start = self.position;
        let mut value: u64 = 0;
        let mut overflow = false;
        while self.position < self.chars.len() && Self::is_digit(self.chars[self.position])
            invariant
                self.wf(),
                self.input() == old(self).input(),
                start == old(self).pos(),
                start <= self.position,
                digits_end(self.input(), self.pos()) == digits_end(
                    old(self).input(),
                    old(self).pos(),
                ),
                forall|j: int| start <= j < self.pos() ==> is_digit_spec(#[trigger] self.input()[j]),
                !overflow ==> value <= i32::MAX && value == digits_value(
                    self.input().subrange(start as int, self.pos()),
                ),
                overflow ==> digits_value(self.input().subrange(start as int, self.pos()))
                    > i32::MAX,
            decreases self.chars.len() - self.position,
        {
            let c = self.chars[self.position];
            let ghost prev = self.input().subrange(start as int, self.pos());
            let d = (c as u32 - '0' as u32) as u64;
            self.position = self.position + 1;
            let ghost cur = self.input().subrange(start as int, self.pos());
            assert(cur.drop_last() =~= prev);
            assert(digits_value(cur) == digits_value(prev) * 10 + digit_value(c));
            if !overflow {
                let next = value * 10 + d;
                if next > 2147483647 {
                    overflow = true;
                } else {
                    value = next;
                }
            } else {
                assert(digits_value(prev) * 10 >= digits_value(prev)) by (nonlinear_arith)
                    requires
                        digits_value(prev) >= 0,
                ;
            }
        }
        if overflow {
            None
        } else {
            Some(value as i32)
        }
    }

    fn read_number(&mut self) -> (t: Token)
        requires
            old(self).wf(),
            is_digit_spec(char_at(old(self).input(), old(self).pos())),
        ensures
            final(self).wf(),
            final(self).input() == old(self).input(),
            ({
                let s = old(self).input();
                let p = old(self).pos();
                let e = digits_end(s, p);
                &&& final(self).pos() == (if char_at(s, e) == '.' {
                    digits_end(s, e + 1)
                } else {
                    e
                })
                &&& if char_at(s, e) == '.' {
                    t is FLOAT && t->FLOAT_0@ == s.subrange(p, digits_end(s, e + 1))
                } else if digits_value(s.subrange(p, e)) <= i32::MAX {
                    t == Token::INT(digits_value(s.subrange(p, e)) as i32)
                } else {
                    t == Token::ILLEGAL
                }
            }),
    {
        let start = self.position;
        let value = self.read_digits();
        if self.current() == '.' {
            self.position = self.position + 1;
            let _ = self.read_digits();
            Token::FLOAT(self.slice(start, self.position))
        } else {
            match value {
                Some(v) => Token::INT(v),
                None => Token::ILLEGAL,
            }
        }
    }

    /// Scans a string literal whose opening quote is the current character.
    fn read_string(&mut self) -> (t: Token)
        requires
            old(self).wf(),
            char_at(old(self).input(), old(self).pos()) == '"',
        ensures
            final(self).wf(),
            final(self).input() == old(self).input(),
            ({
                let s = old(self).input();
                let e = string_end(s, old(self).pos() + 1);
                &&& final(self).pos() == (if char_at(s, e) == '"' {
                    e + 1
                } else {
                    e
                })
                &&& if char_at(s, e) == '"' {
                    t is STRING && t->STRING_0@ == s.subrange(old(self).pos() + 1, e)
                } else {
                    t == Token::ILLEGAL
                }
            }),
    {
        self.position = self.position + 1;
        let start = self.position;
        while self.position < self.chars.len() && self.chars[self.position] != '"'
            && self.chars[self.position] != '\0'
            invariant
                self.wf(),
                self.input() == old(self).input(),
                start == old(self).pos() + 1,
                start <= self.position,
                string_end(self.input(), self.pos()) == string_end(
                    old(self).input(),
                    old(self).pos() + 1,
                ),
            decreases self.chars.len() - self.position,
        {
            self.position = self.position + 1;
        }
        if self.position < self.chars.len() && self.chars[self.position] == '"' {
            let s = self.slice(start, self.position);
            self.position = self.position + 1;
            Token::STRING(s)
        } else {
            Token::ILLEGAL
        }
    }

    /// Returns the next token and advances past it; at end of input it
    /// returns `EOF` and stays put.
    pub fn next_token(&mut self) -> (t: Token)
        requires
            old(self).wf(),
        ensures
            final(self).wf(),
            final(self).input() == old(self).input(),
            final(self).pos() == next_pos(old(self).input(), old(self).pos()),
            scanned(old(self).input(), old(self).pos(), t),
    {
        self.skip_whitespace();
        let c = self.current();
        if c == '\0' {
            return Token::EOF;
        }
        if c == '=' || c == '!' {
            let two = self.peek_char() == '=';
            self.position = self.position + 1;
            if two {
                self.position = self.position + 1;
            }
            return if c == '=' {
                if two {
                    Token::EQ
                } else {
                    Token::ASSIGN
                }
            } else {
                if two {
                    Token::NEQ
                } else {
                    Token::BANG
                }
            };
        }
        let single = if c == '+' {
            Some(Token::PLUS)
        } else if c == '-' {
            Some(Token::MINUS)
        } else if c == '*' {
            Some(Token::ASTERISK)
        } else if c == '/' {
            Some(Token::SLASH)
        } else if c == '<' {
            Some(Token::LT)
        } else if c == '>' {
            Some(Token::GT)
        } else if c == ',' {
            Some(Token::COMMA)
        } else if c == ':' {
            Some(Token::COLON)
        } else if c == ';' {
            Some(Token::SEMICOLON)
        } else if c == '(' {
            Some(Token::LPAREN)
        } else if c == ')' {
            Some(Token::RPAREN)
        } else if c == '{' {
            Some(Token::LBRACE)
        } else if c == '}' {
            Some(Token::RBRACE)
        } else if c == '[' {
            Some(Token::LBRACKET)
        } else if c == ']' {
            Some(Token::RBRACKET)
        } else {
            None
        };
        match single {
            Some(t) => {
                self.position = self.position + 1;
                t
            },
            None => {
                if c == '"' {
                    self.read_string()
                } else if Self::is_letter(c) {
                    let start = self.read_identifier();
                    self.token_from(start, self.position)
                } else if Self::is_digit(c) {
                    self.read_number()
                } else {
                    self.position = self.position + 1;
                    Token::ILLEGAL
                }
            },
        }
    }
}

/// The whole token stream of `source`, ending with `EOF`.
pub fn lex(source: &str) -> (toks: Vec<Token>)
    ensures
        lexes_from(source@, 0, toks@),
{
    let mut lexer = Lexer::new(source);
    tokenize(&mut lexer)
}

/// Drains `lexer` up to and including the first `EOF`.
pub fn tokenize(lexer: &mut Lexer) -> (toks: Vec<Token>)
    requires
        old(lexer).wf(),
    ensures
        final(lexer).wf(),
        final(lexer).input() == old(lexer).input(),
        lexes_from(old(lexer).input(), old(lexer).pos(), toks@),
{
    let mut out: Vec<Token> = Vec::new();
    let ghost s = lexer.input();
    let ghost start = lexer.pos();
    loop
        invariant
            lexer.wf(),
            lexer.input() == s,
            s == old(lexer).input(),
            start == old(lexer).pos(),
            forall|rest: Seq<Token>|
                lexes_from(s, lexer.pos(), rest) ==> lexes_from(s, start, #[trigger] (out@ + rest)),
        decreases s.len() - lexer.pos(),
    {
        let ghost before = lexer.pos();
        let t = lexer.next_token();
        proof {
            lemma_next_pos_advances(s, before, t);
        }
        let eof = t.is_kind(&Token::EOF);
        let ghost prefix = out@;
        out.push(t);
        if eof {
            proof {
                let one = seq![out@.last()];
                assert(one.drop_first() =~= Seq::<Token>::empty());
                assert(lexes_from(s, before, one));
                assert(prefix + one =~= out@);
            }
            return out;
        }
        proof {
            assert forall|rest: Seq<Token>| lexes_from(s, lexer.pos(), rest) implies lexes_from(
                s,
                start,
                #[trigger] (out@ + rest),
            ) by {
                let whole = seq![out@.last()] + rest;
                assert(whole.drop_first() =~= rest);
                assert(lexes_from(s, before, whole));
                assert(prefix + whole =~= out@ + rest);
            }
        }
    }
}

/// Scanning never goes back, never passes the end, and moves on past every
/// token but `EOF`.
pub proof fn lemma_next_pos_advances(s: Seq<char>, pos: int, t: Token)
    requires
        0 <= pos <= s.len(),
        scanned(s, pos, t),
    ensures
        pos <= next_pos(s, pos) <= s.len(),
        !(t is EOF) ==> pos < next_pos(s, pos),
{
    lemma_skip_ws_bounds(s, pos);
    let p = skip_ws(s, pos);
    if char_at(s, p) != '\0' {
        lemma_ident_end_bounds(s, p + 1);
        lemma_digits_end_bounds(s, p + 1);
        lemma_digits_end_bounds(s, p);
        lemma_string_end_bounds(s, p + 1);
        let e = digits_end(s, p);
        lemma_digits_end_bounds(s, e + 1);
    }
}

proof fn lemma_skip_ws_bounds(s: Seq<char>, i: int)
    requires
        0 <= i <= s.len(),
    ensures
        i <= skip_ws(s, i) <= s.len(),
    decreases s.len() - i,
{
    if i < s.len() && is_whitespace(s[i]) {
        lemma_skip_ws_bounds(s, i + 1);
    }
}

proof fn lemma_ident_end_bounds(s: Seq<char>, i: int)
    requires
        0 <= i <= s.len(),
    ensures
        i <= ident_end(s, i) <= s.len(),
    decreases s.len() - i,
{
    if i < s.len() && is_letter_spec(s[i]) {
        lemma_ident_end_bounds(s, i + 1);
    }
}

proof fn lemma_digits_end_bounds(s: Seq<char>, i: int)
    requires
        0 <= i <= s.len() + 1,
    ensures
        i <= digits_end(s, i),
        i <= s.len() ==> digits_end(s, i) <= s.len(),
    decreases s.len() + 1 - i,
{
    if 0 <= i < s.len() && is_digit_spec(s[i]) {
        lemma_digits_end_bounds(s, i + 1);
    }
}

proof fn lemma_string_end_bounds(s: Seq<char>, i: int)
    requires
        0 <= i <= s.len() + 1,
    ensures
        i <= string_end(s, i),
        i <= s.len() ==> string_end(s, i) <= s.len(),
    decreases s.len() + 1 - i,
{
    if 0 <= i < s.len() && s[i] != '"' && s[i] != '\0' {
        lemma_string_end_bounds(s, i + 1);
    }
}

/// At the end of input the stream is `EOF` alone.
pub proof fn lemma_lex_end(s: Seq<char>, toks: Seq<Token>)
    ensures
        lexes_from(s, s.len() as int, toks) <==> toks == seq![Token::EOF],
{
    assert(skip_ws(s, s.len() as int) == s.len());
    if toks == seq![Token::EOF] {
        assert(lexes_from(s, s.len() as int, toks));
    }
    if lexes_from(s, s.len() as int, toks) {
        assert(toks[0] == Token::EOF);
        assert(toks =~= seq![Token::EOF]);
    }
}

/// Lexing a punctuation or keyword token's own spelling gives that token,
/// then `EOF`.
pub proof fn lemma_fixed_token_lexes_alone(t: Token, toks: Seq<Token>)
    requires
        t.is_fixed(),
    ensures
        lexes_from(t.spelling(), 0, toks) <==> toks == seq![t, Token::EOF],
{
    let s = t.spelling();
    reveal_with_fuel(ident_end, 8);
    assert(skip_ws(s, 0) == 0);
    assert(scanned(s, 0, t) && next_pos(s, 0) == s.len() && !(t is EOF)) by {
        if is_letter_spec(s[0]) {
            assert(s.subrange(0, ident_end(s, 0)) =~= s);
        }
    }
    assert forall|x: Token| scanned(s, 0, x) implies x == t by {
        if is_letter_spec(s[0]) {
            assert(s.subrange(0, ident_end(s, 0)) =~= s);
        }
    }
    if toks == seq![t, Token::EOF] {
        assert(toks.drop_first() =~= seq![Token::EOF]);
        lemma_lex_end(s, toks.drop_first());
        assert(lexes_from(s, 0, toks));
    }
    if lexes_from(s, 0, toks) {
        assert(toks[0] == t);
        lemma_lex_end(s, toks.drop_first());
        assert(toks.drop_first() == seq![Token::EOF]);
        assert(toks =~= seq![t, Token::EOF]);
    }
}

proof fn lemma_ident_end_all_letters(x: Seq<char>, i: int)
    requires
        0 <= i <= x.len(),
        forall|j: int| 0 <= j < x.len() ==> is_letter_spec(#[trigger] x[j]),
    ensures
        ident_end(x, i) == x.len(),
    decreases x.len() - i,
{
    if i < x.len() {
        lemma_ident_end_all_letters(x, i + 1);
    }
}

/// A word of letters that is no keyword lexes to one identifier holding it,
/// then `EOF`.
pub proof fn lemma_identifier_lexes_alone(x: Seq<char>, toks: Seq<Token>)
    requires
        x.len() > 0,
        forall|j: int| 0 <= j < x.len() ==> is_letter_spec(#[trigger] x[j]),
        keyword(x) is None,
    ensures
        lexes_from(x, 0, toks) <==> {
            &&& toks.len() == 2
            &&& toks[0] is IDENT
            &&& toks[0]->IDENT_0@ == x
            &&& toks[1] == Token::EOF
        },
{
    lemma_ident_end_all_letters(x, 0);
    assert(is_letter_spec(x[0]));
    assert(skip_ws(x, 0) == 0);
    assert(x.subrange(0, x.len() as int) =~= x);
    assert(next_pos(x, 0) == x.len());
    lemma_lex_end(x, toks.drop_first());
    if toks.len() == 2 && toks[0] is IDENT && toks[0]->IDENT_0@ == x && toks[1] == Token::EOF {
        assert(toks.drop_first() =~= seq![Token::EOF]);
        assert(scanned(x, 0, toks[0]));
    }
    if lexes_from(x, 0, toks) {
        assert(toks.drop_first() == seq![Token::EOF]);
        assert(toks[1] == toks.drop_first()[0]);
    }
}

} // verus!
