//! Pratt parser. The `p_*` spec functions define what each production
//! yields on a token sequence: a tree and the position of its last token, or,
//! for a parse error, the position of the offending token and what was
//! expected there; the error's message names both. Some of them check that a
//! sub-parse ended at or after where it began; those checks only make the
//! definitions terminate: the executable parser proves that they always hold.

use vstd::prelude::*;
use vstd::string::*;

use crate::ast::{
    exprs_view, lemma_block_view, lemma_vec_views, stmts_view, ExprV, Expression, InfixOprator,
    PrefixOprator, Program, Statement, StmtV,
};
use crate::error::Error;
use crate::ast::{expr_text, infix_text, prefix_text, stmt_text, stmts_text};
use crate::lexer::{
    char_at, digit_value, digits_end, digits_value, ident_end, is_digit_spec, is_letter_spec, is_whitespace,
    lexes_from, next_pos, scanned, skip_ws, tokenize, Lexer,
};
use crate::text::{digit_char, join, nat_text};
use crate::token::{punctuation, token_text, Token};

verus! {

/// The token at `i`; `EOF` past the end.
pub open spec fn tok(toks: Seq<Token>, i: int) -> Token {
    if 0 <= i < toks.len() {
        toks[i]
    } else {
        Token::EOF
    }
}

/// The position after `i`; the end is not passed.
pub open spec fn adv(toks: Seq<Token>, i: int) -> int {
    if i < toks.len() {
        i + 1
    } else {
        i
    }
}

/// Binding power of a token in infix position (0 is the lowest, 5 that of
/// prefix operators):
/// `== !=` < `< >` < `+ -` < `* /` < prefix operators < call `(` < index `[`.
pub open spec fn prec_of(t: Token) -> nat {
    match t {
        Token::EQ => 1,
        Token::NEQ => 1,
        Token::LT => 2,
        Token::GT => 2,
        Token::PLUS => 3,
        Token::MINUS => 3,
        Token::SLASH => 4,
        Token::ASTERISK => 4,
        Token::LPAREN => 6,
        Token::LBRACKET => 7,
        _ => 0,
    }
}

/// The binary operator a token stands for.
pub open spec fn infix_op(t: Token) -> Option<InfixOprator> {
    match t {
        Token::PLUS => Some(InfixOprator::Plus),
        Token::MINUS => Some(InfixOprator::Minus),
        Token::ASTERISK => Some(InfixOprator::Asterisk),
        Token::SLASH => Some(InfixOprator::Slash),
        Token::GT => Some(InfixOprator::Gt),
        Token::LT => Some(InfixOprator::Lt),
        Token::ASSIGN => Some(InfixOprator::Assign),
        Token::EQ => Some(InfixOprator::Equal),
        Token::NEQ => Some(InfixOprator::Nequal),
        _ => None,
    }
}

/// A parse of an expression or statement: the tree and the position of its
/// last token; or, for a parse error, the position of the offending token
/// and what was expected there.
pub type Parsed<T> = Result<(T, int), (int, Seq<char>)>;

/// An optional `;` after position `c` is consumed.
pub open spec fn skip_semicolon(toks: Seq<Token>, c: int) -> int {
    if tok(toks, c + 1) is SEMICOLON {
        adv(toks, c)
    } else {
        c
    }
}

/// Statements from `cur` to the end of input, after `acc`.
pub open spec fn p_program(toks: Seq<Token>, cur: int, acc: Seq<StmtV>) -> Result<
    Seq<StmtV>,
    (int, Seq<char>),
>
    decreases toks.len() - cur,
{
    if tok(toks, cur) is EOF {
        Ok(acc)
    } else {
        match p_stmt(toks, cur) {
            Ok((s, c1)) => {
                let c2 = adv(toks, c1);
                if cur < c2 <= toks.len() {
                    p_program(toks, c2, acc.push(s))
                } else {
                    Err((cur, "no progress"@))
                }
            },
            Err(k) => Err(k),
        }
    }
}

pub open spec fn p_stmt(toks: Seq<Token>, cur: int) -> Parsed<StmtV>
    decreases toks.len() - cur, 8nat,
{
    match tok(toks, cur) {
        Token::LET => p_let(toks, cur),
        Token::RETURN => p_return(toks, cur),
        _ => p_expr_stmt(toks, cur),
    }
}

/// `let <ident> = <expr>` with an optional `;`; `cur` is at `let`.
pub open spec fn p_let(toks: Seq<Token>, cur: int) -> Parsed<StmtV>
    decreases toks.len() - cur, 7nat,
{
    let c1 = adv(toks, cur);
    match tok(toks, c1) {
        Token::IDENT(name) => if tok(toks, c1 + 1) is ASSIGN && c1 > cur {
            let c3 = adv(toks, adv(toks, c1));
            match p_expr(toks, c3, 0nat) {
                Ok((v, c4)) => Ok((StmtV::Let(name@, v), skip_semicolon(toks, c4))),
                Err(k) => Err(k),
            }
        } else {
            Err((c1 + 1, "expected `=` after the name in `let`"@))
        },
        _ => Err((c1, "expected an identifier after `let`"@)),
    }
}

/// `return <expr>` with an optional `;`; `cur` is at `return`.
pub open spec fn p_return(toks: Seq<Token>, cur: int) -> Parsed<StmtV>
    decreases toks.len() - cur, 7nat,
{
    match p_expr(toks, adv(toks, cur), 0nat) {
        Ok((v, c)) => Ok((StmtV::Return(v), skip_semicolon(toks, c))),
        Err(k) => Err(k),
    }
}

pub open spec fn p_expr_stmt(toks: Seq<Token>, cur: int) -> Parsed<StmtV>
    decreases toks.len() - cur, 7nat,
{
    match p_expr(toks, cur, 0nat) {
        Ok((e, c)) => Ok((StmtV::Expr(e), skip_semicolon(toks, c))),
        Err(k) => Err(k),
    }
}

/// An expression starting at `cur` whose operators bind tighter than `prec`.
pub open spec fn p_expr(toks: Seq<Token>, cur: int, prec: nat) -> Parsed<ExprV>
    decreases toks.len() - cur, 6nat,
{
    match p_prefix(toks, cur) {
        Ok((left, c1)) => if cur <= c1 <= toks.len() {
            p_infix_loop(toks, c1, prec, left)
        } else {
            Err((cur, "no progress"@))
        },
        Err(k) => Err(k),
    }
}

/// Extends `left`, which ends at `cur`, while the next operator binds
/// tighter than `prec`.
pub open spec fn p_infix_loop(toks: Seq<Token>, cur: int, prec: nat, left: ExprV) -> Parsed<ExprV>
    decreases toks.len() - cur, 5nat,
{
    if !(tok(toks, cur + 1) is SEMICOLON) && prec < prec_of(tok(toks, cur + 1)) {
        match p_infix(toks, adv(toks, cur), left) {
            Ok((e, c2)) => if cur < c2 <= toks.len() {
                p_infix_loop(toks, c2, prec, e)
            } else {
                Err((cur, "no progress"@))
            },
            Err(k) => Err(k),
        }
    } else {
        Ok((left, cur))
    }
}

/// The infix production of the operator at `cur`, applied to `left`.
pub open spec fn p_infix(toks: Seq<Token>, cur: int, left: ExprV) -> Parsed<ExprV>
    decreases toks.len() - cur, 3nat,
{
    let t = tok(toks, cur);
    match infix_op(t) {
        Some(op) => match p_expr(toks, adv(toks, cur), prec_of(t)) {
            Ok((right, c)) => Ok((ExprV::Infix(Box::new(left), op, Box::new(right)), c)),
            Err(k) => Err(k),
        },
        None => if t is LPAREN {
            p_call(toks, cur, left)
        } else if t is LBRACKET {
            p_index(toks, cur, left)
        } else {
            Ok((left, cur))
        },
    }
}

/// `left(<args>)`; `cur` is at `(`.
pub open spec fn p_call(toks: Seq<Token>, cur: int, left: ExprV) -> Parsed<ExprV>
    decreases toks.len() - cur, 2nat,
{
    match p_list(toks, cur, Token::RPAREN) {
        Ok((args, c)) => Ok((ExprV::Call(Box::new(left), args), c)),
        Err(k) => Err(k),
    }
}

/// `left[<expr>]`; `cur` is at `[`.
pub open spec fn p_index(toks: Seq<Token>, cur: int, left: ExprV) -> Parsed<ExprV>
    decreases toks.len() - cur, 2nat,
{
    if cur >= toks.len() {
        Err((cur, "unexpected end of input in an index"@))
    } else {
        match p_expr(toks, adv(toks, cur), 0nat) {
            Ok((index, c)) => if tok(toks, c + 1) is RBRACKET {
                Ok((ExprV::Index(Box::new(left), Box::new(index)), adv(toks, c)))
            } else {
                Err((c + 1, "expected `]` after an index"@))
            },
            Err(k) => Err(k),
        }
    }
}

/// A comma-separated list of expressions closed by `end`; `cur` is at the
/// opening token.
pub open spec fn p_list(toks: Seq<Token>, cur: int, end: Token) -> Parsed<Seq<ExprV>>
    decreases toks.len() - cur, 1nat,
{
    if tok(toks, cur + 1).same_kind(end) {
        Ok((Seq::empty(), adv(toks, cur)))
    } else if cur >= toks.len() {
        Err((cur, "unexpected end of input in a list"@))
    } else {
        let c1 = adv(toks, cur);
        match p_expr(toks, c1, 0nat) {
            Ok((e, c2)) => if cur <= c2 <= toks.len() {
                p_list_rest(toks, c2, end, seq![e])
            } else {
                Err((cur, "no progress"@))
            },
            Err(k) => Err(k),
        }
    }
}

/// The rest of a list after the element that ends at `cur`.
pub open spec fn p_list_rest(toks: Seq<Token>, cur: int, end: Token, acc: Seq<ExprV>) -> Parsed<
    Seq<ExprV>,
>
    decreases toks.len() - cur, 0nat,
{
    if tok(toks, cur + 1) is COMMA {
        match p_expr(toks, adv(toks, adv(toks, cur)), 0nat) {
            Ok((e, c2)) => if cur < c2 <= toks.len() {
                p_list_rest(toks, c2, end, acc.push(e))
            } else {
                Err((cur, "no progress"@))
            },
            Err(k) => Err(k),
        }
    } else if tok(toks, cur + 1).same_kind(end) {
        Ok((acc, adv(toks, cur)))
    } else {
        Err((cur + 1, "expected a closing token after a list"@))
    }
}

/// The prefix production of the token at `cur`.
pub open spec fn p_prefix(toks: Seq<Token>, cur: int) -> Parsed<ExprV>
    decreases toks.len() - cur, 5nat,
{
    match tok(toks, cur) {
        Token::IDENT(name) => if tok(toks, cur + 1) is ASSIGN {
            p_infix(toks, adv(toks, cur), ExprV::Ident(name@))
        } else {
            Ok((ExprV::Ident(name@), cur))
        },
        Token::INT(i) => Ok((ExprV::Int(i), cur)),
        Token::STRING(s) => Ok((ExprV::Str(s@), cur)),
        Token::TRUE => Ok((ExprV::Bool(true), cur)),
        Token::FALSE => Ok((ExprV::Bool(false), cur)),
        Token::IF => p_if(toks, cur),
        Token::FUNCTION => p_function(toks, cur),
        Token::MINUS => match p_expr(toks, adv(toks, cur), 5nat) {
            Ok((r, c)) => Ok((ExprV::Prefix(PrefixOprator::Minus, Box::new(r)), c)),
            Err(k) => Err(k),
        },
        Token::BANG => match p_expr(toks, adv(toks, cur), 5nat) {
            Ok((r, c)) => Ok((ExprV::Prefix(PrefixOprator::Bang, Box::new(r)), c)),
            Err(k) => Err(k),
        },
        Token::LPAREN => p_group(toks, cur),
        Token::LBRACKET => p_array(toks, cur),
        Token::LBRACE => p_map(toks, cur, Seq::empty()),
        Token::FOR => p_for(toks, cur),
        _ => Err((cur, "unexpected token at the start of an expression"@)),
    }
}

/// `( <expr> )`; `cur` is at `(`.
pub open spec fn p_group(toks: Seq<Token>, cur: int) -> Parsed<ExprV>
    decreases toks.len() - cur, 4nat,
{
    if cur >= toks.len() {
        Err((cur, "unexpected end of input after `(`"@))
    } else {
        match p_expr(toks, adv(toks, cur), 0nat) {
            Ok((e, c)) => if tok(toks, c + 1) is RPAREN {
                Ok((e, adv(toks, c)))
            } else {
                Err((c + 1, "parentheses are not closed"@))
            },
            Err(k) => Err(k),
        }
    }
}

/// `[ <exprs> ]`; `cur` is at `[`.
pub open spec fn p_array(toks: Seq<Token>, cur: int) -> Parsed<ExprV>
    decreases toks.len() - cur, 4nat,
{
    match p_list(toks, cur, Token::RBRACKET) {
        Ok((es, c)) => Ok((ExprV::Array(es), c)),
        Err(k) => Err(k),
    }
}

/// `{ k: v, ... }` after the pairs in `acc`; `cur` is at `{` or at the last
/// token of the previous pair or its comma.
pub open spec fn p_map(toks: Seq<Token>, cur: int, acc: Seq<(ExprV, ExprV)>) -> Parsed<ExprV>
    decreases toks.len() - cur, 4nat,
{
    if tok(toks, cur + 1) is RBRACE {
        Ok((ExprV::Hash(acc), adv(toks, cur)))
    } else if cur >= toks.len() {
        Err((cur, "unexpected end of input in a map"@))
    } else {
        match p_expr(toks, adv(toks, cur), 0nat) {
            Ok((k, c1)) => if tok(toks, c1 + 1) is COLON && c1 >= cur {
                let c2 = adv(toks, adv(toks, c1));
                match p_expr(toks, c2, 0nat) {
                    Ok((v, c3)) => {
                        let c4 = if tok(toks, c3 + 1) is RBRACE {
                            c3
                        } else {
                            adv(toks, c3)
                        };
                        if (tok(toks, c3 + 1) is RBRACE || tok(toks, c3 + 1) is COMMA) && c3 > cur {
                            p_map(toks, c4, acc.push((k, v)))
                        } else {
                            Err((c3 + 1, "expected `,` or `}` after a map entry"@))
                        }
                    },
                    Err(k) => Err(k),
                }
            } else {
                Err((c1 + 1, "expected `:` after a map key"@))
            },
            Err(k) => Err(k),
        }
    }
}

/// `{ <statements> }` as a block; `cur` is at `{`.
pub open spec fn p_block(toks: Seq<Token>, cur: int) -> Parsed<StmtV>
    decreases toks.len() - cur, 10nat,
{
    match p_block_from(toks, adv(toks, cur), Seq::empty()) {
        Ok((ss, c)) => Ok((StmtV::Block(ss), c)),
        Err(k) => Err(k),
    }
}

/// Statements of a block from `cur` up to `}` or end of input, after `acc`.
pub open spec fn p_block_from(toks: Seq<Token>, cur: int, acc: Seq<StmtV>) -> Parsed<Seq<StmtV>>
    decreases toks.len() - cur, 9nat,
{
    if tok(toks, cur) is RBRACE || tok(toks, cur) is EOF {
        Ok((acc, cur))
    } else {
        match p_stmt(toks, cur) {
            Ok((s, c1)) => {
                let c2 = adv(toks, c1);
                if cur < c2 <= toks.len() {
                    p_block_from(toks, c2, acc.push(s))
                } else {
                    Err((cur, "no progress"@))
                }
            },
            Err(k) => Err(k),
        }
    }
}

/// `if (<cond>) { ... }` with an optional `else { ... }`; `cur` is at `if`.
pub open spec fn p_if(toks: Seq<Token>, cur: int) -> Parsed<ExprV>
    decreases toks.len() - cur, 4nat,
{
    if tok(toks, cur + 1) is LPAREN && cur < toks.len() {
        let c2 = adv(toks, adv(toks, cur));
        match p_expr(toks, c2, 0nat) {
            Ok((cond, c3)) => if tok(toks, c3 + 1) is RPAREN && c3 >= cur {
                let c4 = adv(toks, c3);
                if tok(toks, c4 + 1) is LBRACE {
                    match p_block(toks, adv(toks, c4)) {
                        Ok((cons, c6)) => if tok(toks, c6 + 1) is ELSE && c6 >= cur {
                            let c7 = adv(toks, c6);
                            if tok(toks, c7 + 1) is LBRACE {
                                match p_block(toks, adv(toks, c7)) {
                                    Ok((alt, c9)) => Ok(
                                        (
                                            ExprV::If(
                                                Box::new(cond),
                                                Box::new(cons),
                                                Some(Box::new(alt)),
                                            ),
                                            c9,
                                        ),
                                    ),
                                    Err(k) => Err(k),
                                }
                            } else {
                                Err((c7 + 1, "expected `{` after `else`"@))
                            }
                        } else if tok(toks, c6 + 1) is ELSE {
                            Err((c6 + 1, "no progress"@))
                        } else {
                            Ok((ExprV::If(Box::new(cond), Box::new(cons), None), c6))
                        },
                        Err(k) => Err(k),
                    }
                } else {
                    Err((c4 + 1, "expected `{` after the condition of `if`"@))
                }
            } else {
                Err((c3 + 1, "parentheses are not closed in `if`"@))
            },
            Err(k) => Err(k),
        }
    } else {
        Err((cur + 1, "expected `(` after `if`"@))
    }
}

/// The identifiers of a parameter list; `cur` is at `(`.
pub open spec fn p_params(toks: Seq<Token>, cur: int) -> Parsed<Seq<ExprV>>
    decreases toks.len() - cur, 3nat,
{
    if tok(toks, cur + 1) is RPAREN {
        Ok((Seq::empty(), adv(toks, cur)))
    } else {
        let c1 = adv(toks, cur);
        match tok(toks, c1) {
            Token::IDENT(name) => p_params_rest(toks, c1, seq![ExprV::Ident(name@)]),
            _ => Err((c1, "expected an identifier in a parameter list"@)),
        }
    }
}

/// The rest of a parameter list after the identifier at `cur`.
pub open spec fn p_params_rest(toks: Seq<Token>, cur: int, acc: Seq<ExprV>) -> Parsed<Seq<ExprV>>
    decreases toks.len() - cur, 0nat,
{
    if tok(toks, cur + 1) is COMMA {
        let c1 = adv(toks, adv(toks, cur));
        match tok(toks, c1) {
            Token::IDENT(name) => if c1 > cur {
                p_params_rest(toks, c1, acc.push(ExprV::Ident(name@)))
            } else {
                Err((c1, "no progress"@))
            },
            _ => Err((c1, "expected an identifier in a parameter list"@)),
        }
    } else if tok(toks, cur + 1) is RPAREN {
        Ok((acc, adv(toks, cur)))
    } else {
        Err((cur + 1, "expected `)` after the parameters"@))
    }
}

/// `fn (<params>) { ... }`; `cur` is at `fn`.
pub open spec fn p_function(toks: Seq<Token>, cur: int) -> Parsed<ExprV>
    decreases toks.len() - cur, 4nat,
{
    if tok(toks, cur + 1) is LPAREN && cur < toks.len() {
        match p_params(toks, adv(toks, cur)) {
            Ok((ps, c1)) => if tok(toks, c1 + 1) is LBRACE && c1 >= cur {
                match p_block(toks, adv(toks, c1)) {
                    Ok((body, c2)) => Ok((ExprV::Function(ps, Box::new(body)), c2)),
                    Err(k) => Err(k),
                }
            } else {
                Err((c1 + 1, "expected `{` after the parameters"@))
            },
            Err(k) => Err(k),
        }
    } else {
        Err((cur + 1, "expected `(` after `fn`"@))
    }
}

/// `for <ident> in [<exprs>] { ... }`; `cur` is at `for`. The collection
/// must be an array literal.
pub open spec fn p_for(toks: Seq<Token>, cur: int) -> Parsed<ExprV>
    decreases toks.len() - cur, 4nat,
{
    if cur >= toks.len() {
        Err((cur, "unexpected end of input after `for`"@))
    } else {
        match p_expr(toks, adv(toks, cur), 0nat) {
            Ok((ExprV::Ident(p), c1)) => if tok(toks, c1 + 1) is IN && c1 >= cur {
                let c2 = adv(toks, c1);
                if tok(toks, c2 + 1) is LBRACKET {
                    match p_array(toks, adv(toks, c2)) {
                        Ok((arr, c3)) => if tok(toks, c3 + 1) is LBRACE && c3 >= cur {
                            match p_block(toks, adv(toks, c3)) {
                                Ok((body, c4)) => Ok(
                                    (ExprV::For(p, Box::new(arr), Box::new(body)), c4),
                                ),
                                Err(k) => Err(k),
                            }
                        } else {
                            Err((c3 + 1, "expected `{` after the array of `for`"@))
                        },
                        Err(k) => Err(k),
                    }
                } else {
                    Err((c2 + 1, "expected an array literal after `in`"@))
                }
            } else {
                Err((c1 + 1, "expected `in` in `for`"@))
            },
            Ok(_) => Err((adv(toks, cur), "expected an identifier after `for`"@)),
            Err(k) => Err(k),
        }
    }
}

/// The message of a parse error: what was expected, and the token found.
pub open spec fn parse_message(desc: Seq<char>, t: Token) -> Seq<char> {
    desc + ", got `"@ + token_text(t) + "`"@
}

/// `err` reports the parse error `e`: at position `e.0` of `toks`, `e.1` was
/// expected.
pub open spec fn error_matches(err: Error, toks: Seq<Token>, e: (int, Seq<char>)) -> bool {
    err is ParseError && err->ParseError_msg@ == parse_message(e.1, tok(toks, e.0))
}

/// `r` is the exec counterpart of the parse `p` that started at `cur`.
pub open spec fn expr_result(
    r: Result<(Expression, usize), Error>,
    p: Parsed<ExprV>,
    cur: int,
    toks: Seq<Token>,
) -> bool {
    match r {
        Ok((e, c)) => p == Ok::<(ExprV, int), (int, Seq<char>)>((e.view(), c as int)) && cur <= c
            <= toks.len(),
        Err(err) => p matches Err(k) && error_matches(err, toks, k),
    }
}

pub open spec fn stmt_result(
    r: Result<(Statement, usize), Error>,
    p: Parsed<StmtV>,
    cur: int,
    toks: Seq<Token>,
) -> bool {
    match r {
        Ok((s, c)) => p == Ok::<(StmtV, int), (int, Seq<char>)>((s.view(), c as int)) && cur <= c
            <= toks.len(),
        Err(err) => p matches Err(k) && error_matches(err, toks, k),
    }
}

pub open spec fn list_result(
    r: Result<(Vec<Expression>, usize), Error>,
    p: Parsed<Seq<ExprV>>,
    cur: int,
    toks: Seq<Token>,
) -> bool {
    match r {
        Ok((v, c)) => p == Ok::<(Seq<ExprV>, int), (int, Seq<char>)>((exprs_view(v@), c as int))
            && cur <= c <= toks.len(),
        Err(err) => p matches Err(k) && error_matches(err, toks, k),
    }
}

/// Operator precedence, lowest first.
#[derive(Debug, Clone, Copy, PartialEq, Eq, Structural)]
pub enum Precedence {
    Lowest,
    Equals,
    Lessgreater,
    Sum,
    Product,
    Prefix,
    Call,
    Index,
}

impl Precedence {
    pub open spec fn rank(self) -> nat {
        match self {
            Precedence::Lowest => 0,
            Precedence::Equals => 1,
            Precedence::Lessgreater => 2,
            Precedence::Sum => 3,
            Precedence::Product => 4,
            Precedence::Prefix => 5,
            Precedence::Call => 6,
            Precedence::Index => 7,
        }
    }

    fn level(self) -> (r: u8)
        ensures
            r as nat == self.rank(),
    {
        match self {
            Precedence::Lowest => 0,
            Precedence::Equals => 1,
            Precedence::Lessgreater => 2,
            Precedence::Sum => 3,
            Precedence::Product => 4,
            Precedence::Prefix => 5,
            Precedence::Call => 6,
            Precedence::Index => 7,
        }
    }

    /// The precedence of a token in infix position.
    pub fn from_token(kind: &Token) -> (r: Precedence)
        ensures
            r.rank() == prec_of(*kind),
    {
        match kind {
            Token::EQ | Token::NEQ => Precedence::Equals,
            Token::LT | Token::GT => Precedence::Lessgreater,
            Token::PLUS | Token::MINUS => Precedence::Sum,
            Token::SLASH | Token::ASTERISK => Precedence::Product,
            Token::LPAREN => Precedence::Call,
            Token::LBRACKET => Precedence::Index,
            _ => Precedence::Lowest,
        }
    }
}

fn infix_operator(t: &Token) -> (r: Option<InfixOprator>)
    ensures
        r == infix_op(*t),
{
    match t {
        Token::PLUS => Some(InfixOprator::Plus),
        Token::MINUS => Some(InfixOprator::Minus),
        Token::ASTERISK => Some(InfixOprator::Asterisk),
        Token::SLASH => Some(InfixOprator::Slash),
        Token::GT => Some(InfixOprator::Gt),
        Token::LT => Some(InfixOprator::Lt),
        Token::ASSIGN => Some(InfixOprator::Assign),
        Token::EQ => Some(InfixOprator::Equal),
        Token::NEQ => Some(InfixOprator::Nequal),
        _ => None,
    }
}

/// Pratt parser over the token stream of one source text.
#[derive(Debug)]
pub struct Parser {
    tokens: Vec<Token>,
    eof: Token,
    cur: usize,
}

impl Parser {
    /// The token stream.
    pub closed spec fn toks(&self) -> Seq<Token> {
        self.tokens@
    }

    /// Position of the current token.
    pub closed spec fn pos(&self) -> int {
        self.cur as int
    }

    pub closed spec fn wf(&self) -> bool {
        &&& self.eof == Token::EOF
        &&& self.cur <= self.tokens.len()
    }

    /// A parser over the rest of `lexer`'s input.
    pub fn new(lexer: &mut Lexer) -> (r: Parser)
        requires
            old(lexer).wf(),
        ensures
            final(lexer).wf(),
            r.wf(),
            r.pos() == 0,
            lexes_from(old(lexer).input(), old(lexer).pos(), r.toks()),
    {
        let tokens = tokenize(lexer);
        Parser { tokens, eof: Token::EOF, cur: 0 }
    }

    fn at(&self, i: usize) -> (r: &Token)
        requires
            self.wf(),
        ensures
            *r == tok(self.toks(), i as int),
    {
        if i < self.tokens.len() {
            &self.tokens[i]
        } else {
            &self.eof
        }
    }

    fn peek(&self, i: usize) -> (r: &Token)
        requires
            self.wf(),
        ensures
            *r == tok(self.toks(), i + 1),
    {
        if i < self.tokens.len() {
            self.at(i + 1)
        } else {
            &self.eof
        }
    }

    /// A parse error at position `i`: `desc` was expected there.
    fn error_at(&self, i: usize, desc: &str) -> (r: Error)
        requires
            self.wf(),
        ensures
            error_matches(r, self.toks(), (i as int, desc@)),
    {
        let mut msg = String::from_str(desc);
        msg.append(", got `");
        let t = self.at(i).to_string();
        msg.append(t.as_str());
        msg.append("`");
        Error::ParseError { msg }
    }

    /// A parse error at the position after `i`.
    fn error_after(&self, i: usize, desc: &str) -> (r: Error)
        requires
            self.wf(),
        ensures
            error_matches(r, self.toks(), (i + 1, desc@)),
    {
        let mut msg = String::from_str(desc);
        msg.append(", got `");
        let t = self.peek(i).to_string();
        msg.append(t.as_str());
        msg.append("`");
        Error::ParseError { msg }
    }

    fn advance(&self, i: usize) -> (r: usize)
        requires
            self.wf(),
            i <= self.toks().len(),
        ensures
            r == adv(self.toks(), i as int),
            r <= self.toks().len(),
    {
        if i < self.tokens.len() {
            i + 1
        } else {
            i
        }
    }

    fn skip_semicolon(&self, c: usize) -> (r: usize)
        requires
            self.wf(),
            c <= self.toks().len(),
        ensures
            r == skip_semicolon(self.toks(), c as int),
            c <= r <= self.toks().len(),
    {
        if matches!(self.peek(c), Token::SEMICOLON) {
            self.advance(c)
        } else {
            c
        }
    }

    fn parse_let_at(&self, cur: usize) -> (r: Result<(Statement, usize), Error>)
        requires
            self.wf(),
            cur <= self.toks().len(),
        ensures
            stmt_result(r, p_let(self.toks(), cur as int), cur as int, self.toks()),
        decreases self.toks().len() - cur, 7nat,
    {
        let c1 = self.advance(cur);
        let name = match self.at(c1) {
            Token::IDENT(name) => name.clone(),
            _ => {
                return Err(self.error_at(c1, "expected an identifier after `let`"));
            },
        };
        if !matches!(self.peek(c1), Token::ASSIGN) || c1 <= cur {
            return Err(self.error_after(c1, "expected `=` after the name in `let`"));
        }
        let c2 = self.advance(c1);
        let c3 = self.advance(c2);
        match self.parse_expression(c3, Precedence::Lowest) {
            Ok((value, c4)) => {
                let c5 = self.skip_semicolon(c4);
                Ok((Statement::Let { name, value }, c5))
            },
            Err(e) => Err(e),
        }
    }

    fn parse_return_at(&self, cur: usize) -> (r: Result<(Statement, usize), Error>)
        requires
            self.wf(),
            cur <= self.toks().len(),
        ensures
            stmt_result(r, p_return(self.toks(), cur as int), cur as int, self.toks()),
        decreases self.toks().len() - cur, 7nat,
    {
        let c1 = self.advance(cur);
        match self.parse_expression(c1, Precedence::Lowest) {
            Ok((value, c)) => {
                let c2 = self.skip_semicolon(c);
                Ok((Statement::Return(value), c2))
            },
            Err(e) => Err(e),
        }
    }

    /// Parses a `let` statement; the current token is `let`.
    pub fn parse_let_statement(&mut self) -> (r: Result<Statement, Error>)
        requires
            old(self).wf(),
        ensures
            final(self).wf(),
            final(self).toks() == old(self).toks(),
            match r {
                Ok(s) => p_let(old(self).toks(), old(self).pos()) == Parsed::Ok(
                    (s.view(), final(self).pos()),
                ),
                Err(e) => p_let(old(self).toks(), old(self).pos()) matches Err(k) && error_matches(
                    e,
                    old(self).toks(),
                    k,
                ),
            },
    {
        match self.parse_let_at(self.cur) {
            Ok((s, c)) => {
                self.cur = c;
                Ok(s)
            },
            Err(e) => Err(e),
        }
    }

    /// Parses a `return` statement; the current token is `return`.
    pub fn parse_return_statement(&mut self) -> (r: Result<Statement, Error>)
        requires
            old(self).wf(),
        ensures
            final(self).wf(),
            final(self).toks() == old(self).toks(),
            match r {
                Ok(s) => p_return(old(self).toks(), old(self).pos()) == Parsed::Ok(
                    (s.view(), final(self).pos()),
                ),
                Err(e) => p_return(old(self).toks(), old(self).pos()) matches Err(k) && error_matches(
                    e,
                    old(self).toks(),
                    k,
                ),
            },
    {
        match self.parse_return_at(self.cur) {
            Ok((s, c)) => {
                self.cur = c;
                Ok(s)
            },
            Err(e) => Err(e),
        }
    }

    fn parse_expression_statement(&self, cur: usize) -> (r: Result<(Statement, usize), Error>)
        requires
            self.wf(),
            cur <= self.toks().len(),
        ensures
            stmt_result(r, p_expr_stmt(self.toks(), cur as int), cur as int, self.toks()),
        decreases self.toks().len() - cur, 7nat,
    {
        match self.parse_expression(cur, Precedence::Lowest) {
            Ok((e, c)) => {
                let c2 = self.skip_semicolon(c);
                Ok((Statement::Expression(e), c2))
            },
            Err(e) => Err(e),
        }
    }

    fn parse_statement(&self, cur: usize) -> (r: Result<(Statement, usize), Error>)
        requires
            self.wf(),
            cur <= self.toks().len(),
        ensures
            stmt_result(r, p_stmt(self.toks(), cur as int), cur as int, self.toks()),
        decreases self.toks().len() - cur, 8nat,
    {
        match self.at(cur) {
            Token::LET => self.parse_let_at(cur),
            Token::RETURN => self.parse_return_at(cur),
            _ => self.parse_expression_statement(cur),
        }
    }

    fn parse_expression(&self, cur: usize, precedence: Precedence) -> (r: Result<
        (Expression, usize),
        Error,
    >)
        requires
            self.wf(),
            cur <= self.toks().len(),
        ensures
            expr_result(r, p_expr(self.toks(), cur as int, precedence.rank()), cur as int, self.toks()),
        decreases self.toks().len() - cur, 6nat,
    {
        let (mut expression, mut c) = match self.parse_prefix(cur) {
            Ok(p) => p,
            Err(e) => {
                return Err(e);
            },
        };
        let ghost whole = p_expr(self.toks(), cur as int, precedence.rank());
        let level = precedence.level();
        while !matches!(self.peek(c), Token::SEMICOLON) && level < Precedence::from_token(
            self.peek(c),
        ).level()
            invariant
                self.wf(),
                cur <= c <= self.toks().len(),
                level as nat == precedence.rank(),
                whole == p_expr(self.toks(), cur as int, precedence.rank()),
                whole == p_infix_loop(self.toks(), c as int, precedence.rank(), expression.view()),
            decreases self.toks().len() - c,
        {
            let c1 = self.advance(c);
            match self.parse_infix(c1, expression) {
                Ok((e, c2)) => {
                    expression = e;
                    c = c2;
                },
                Err(e) => {
                    return Err(e);
                },
            }
        }
        Ok((expression, c))
    }

    fn parse_infix(&self, cur: usize, left: Expression) -> (r: Result<(Expression, usize), Error>)
        requires
            self.wf(),
            cur <= self.toks().len(),
        ensures
            expr_result(r, p_infix(self.toks(), cur as int, left.view()), cur as int, self.toks()),
        decreases self.toks().len() - cur, 3nat,
    {
        let t = self.at(cur);
        match infix_operator(t) {
            Some(operator) => {
                let precedence = Precedence::from_token(t);
                let c1 = self.advance(cur);
                match self.parse_expression(c1, precedence) {
                    Ok((right, c)) => Ok(
                        (
                            Expression::Infix {
                                left: Box::new(left),
                                operator,
                                right: Box::new(right),
                            },
                            c,
                        ),
                    ),
                    Err(e) => Err(e),
                }
            },
            None => {
                if matches!(t, Token::LPAREN) {
                    self.parse_call_expression(cur, left)
                } else if matches!(t, Token::LBRACKET) {
                    self.parse_index_expression(cur, left)
                } else {
                    Ok((left, cur))
                }
            },
        }
    }

    fn parse_call_expression(&self, cur: usize, function: Expression) -> (r: Result<
        (Expression, usize),
        Error,
    >)
        requires
            self.wf(),
            cur <= self.toks().len(),
        ensures
            expr_result(r, p_call(self.toks(), cur as int, function.view()), cur as int, self.toks()),
        decreases self.toks().len() - cur, 2nat,
    {
        match self.parse_expressions(cur, &Token::RPAREN) {
            Ok((arguments, c)) => {
                let e = Expression::Call { function: Box::new(function), arguments };
                proof {
                    lemma_vec_views(e);
                }
                Ok((e, c))
            },
            Err(e) => Err(e),
        }
    }

    fn parse_index_expression(&self, cur: usize, left: Expression) -> (r: Result<
        (Expression, usize),
        Error,
    >)
        requires
            self.wf(),
            cur <= self.toks().len(),
        ensures
            expr_result(r, p_index(self.toks(), cur as int, left.view()), cur as int, self.toks()),
        decreases self.toks().len() - cur, 2nat,
    {
        if cur >= self.tokens.len() {
            return Err(self.error_at(cur, "unexpected end of input in an index"));
        }
        let c1 = self.advance(cur);
        match self.parse_expression(c1, Precedence::Lowest) {
            Ok((index, c)) => {
                if matches!(self.peek(c), Token::RBRACKET) {
                    let c2 = self.advance(c);
                    Ok((Expression::Index { left: Box::new(left), index: Box::new(index) }, c2))
                } else {
                    Err(self.error_after(c, "expected `]` after an index"))
                }
            },
            Err(e) => Err(e),
        }
    }

    /// A comma-separated list closed by `end`; the current token opens it.
    fn parse_expressions(&self, cur: usize, end: &Token) -> (r: Result<
        (Vec<Expression>, usize),
        Error,
    >)
        requires
            self.wf(),
            cur <= self.toks().len(),
        ensures
            list_result(r, p_list(self.toks(), cur as int, *end), cur as int, self.toks()),
        decreases self.toks().len() - cur, 1nat,
    {
        let mut expressions: Vec<Expression> = Vec::new();
        if self.peek(cur).is_kind(end) {
            let c = self.advance(cur);
            assert(exprs_view(expressions@) =~= Seq::<ExprV>::empty());
            return Ok((expressions, c));
        }
        if cur >= self.tokens.len() {
            return Err(self.error_at(cur, "unexpected end of input in a list"));
        }
        let c1 = self.advance(cur);
        let (first, mut c) = match self.parse_expression(c1, Precedence::Lowest) {
            Ok(p) => p,
            Err(e) => {
                return Err(e);
            },
        };
        let ghost whole = p_list(self.toks(), cur as int, *end);
        let ghost fv = first.view();
        expressions.push(first);
        assert(exprs_view(expressions@) =~= seq![fv]);
        while matches!(self.peek(c), Token::COMMA)
            invariant
                self.wf(),
                cur <= c <= self.toks().len(),
                whole == p_list(self.toks(), cur as int, *end),
                whole == p_list_rest(self.toks(), c as int, *end, exprs_view(expressions@)),
            decreases self.toks().len() - c,
        {
            let c1 = self.advance(c);
            let c2 = self.advance(c1);
            match self.parse_expression(c2, Precedence::Lowest) {
                Ok((e, c3)) => {
                    let ghost acc = exprs_view(expressions@);
                    let ghost ev = e.view();
                    expressions.push(e);
                    assert(exprs_view(expressions@) =~= acc.push(ev));
                    c = c3;
                },
                Err(e) => {
                    return Err(e);
                },
            }
        }
        if self.peek(c).is_kind(end) {
            let c2 = self.advance(c);
            Ok((expressions, c2))
        } else {
            Err(self.error_after(c, "expected a closing token after a list"))
        }
    }

    fn parse_prefix(&self, cur: usize) -> (r: Result<(Expression, usize), Error>)
        requires
            self.wf(),
            cur <= self.toks().len(),
        ensures
            expr_result(r, p_prefix(self.toks(), cur as int), cur as int, self.toks()),
        decreases self.toks().len() - cur, 5nat,
    {
        match self.at(cur) {
            Token::IDENT(name) => {
                if matches!(self.peek(cur), Token::ASSIGN) {
                    let c1 = self.advance(cur);
                    self.parse_infix(c1, Expression::Identifier(name.clone()))
                } else {
                    Ok((Expression::Identifier(name.clone()), cur))
                }
            },
            Token::INT(i) => Ok((Expression::Integer(*i), cur)),
            Token::STRING(s) => Ok((Expression::String(s.clone()), cur)),
            Token::TRUE => Ok((Expression::Bool(true), cur)),
            Token::FALSE => Ok((Expression::Bool(false), cur)),
            Token::IF => self.parse_if_expression(cur),
            Token::FUNCTION => self.parse_function_expression(cur),
            Token::MINUS => {
                let c1 = self.advance(cur);
                match self.parse_expression(c1, Precedence::Prefix) {
                    Ok((right, c)) => Ok(
                        (Expression::Prefix { operator: PrefixOprator::Minus, right: Box::new(right) }, c),
                    ),
                    Err(e) => Err(e),
                }
            },
            Token::BANG => {
                let c1 = self.advance(cur);
                match self.parse_expression(c1, Precedence::Prefix) {
                    Ok((right, c)) => Ok(
                        (Expression::Prefix { operator: PrefixOprator::Bang, right: Box::new(right) }, c),
                    ),
                    Err(e) => Err(e),
                }
            },
            Token::LPAREN => self.parse_group_expression(cur),
            Token::LBRACKET => self.parse_array_expression(cur),
            Token::LBRACE => self.parse_map_expression(cur),
            Token::FOR => self.parse_for_expression(cur),
            _ => Err(self.error_at(cur, "unexpected token at the start of an expression")),
        }
    }

    fn parse_group_expression(&self, cur: usize) -> (r: Result<(Expression, usize), Error>)
        requires
            self.wf(),
            cur <= self.toks().len(),
        ensures
            expr_result(r, p_group(self.toks(), cur as int), cur as int, self.toks()),
        decreases self.toks().len() - cur, 4nat,
    {
        if cur >= self.tokens.len() {
            return Err(self.error_at(cur, "unexpected end of input after `(`"));
        }
        let c1 = self.advance(cur);
        match self.parse_expression(c1, Precedence::Lowest) {
            Ok((e, c)) => {
                if matches!(self.peek(c), Token::RPAREN) {
                    let c2 = self.advance(c);
                    Ok((e, c2))
                } else {
                    Err(self.error_after(c, "parentheses are not closed"))
                }
            },
            Err(e) => Err(e),
        }
    }

    fn parse_array_expression(&self, cur: usize) -> (r: Result<(Expression, usize), Error>)
        requires
            self.wf(),
            cur <= self.toks().len(),
        ensures
            expr_result(r, p_array(self.toks(), cur as int), cur as int, self.toks()),
        decreases self.toks().len() - cur, 4nat,
    {
        match self.parse_expressions(cur, &Token::RBRACKET) {
            Ok((elements, c)) => {
                let e = Expression::Array(elements);
                proof {
                    lemma_vec_views(e);
                }
                Ok((e, c))
            },
            Err(e) => Err(e),
        }
    }

    fn parse_map_expression(&self, cur: usize) -> (r: Result<(Expression, usize), Error>)
        requires
            self.wf(),
            cur <= self.toks().len(),
        ensures
            expr_result(r, p_map(self.toks(), cur as int, Seq::empty()), cur as int, self.toks()),
        decreases self.toks().len() - cur, 4nat,
    {
        let ghost whole = p_map(self.toks(), cur as int, Seq::empty());
        let mut pairs: Vec<(Expression, Expression)> = Vec::new();
        let mut c = cur;
        assert(Seq::new(pairs.len() as nat, |i: int| (pairs[i].0.view(), pairs[i].1.view())) =~= Seq::<(ExprV, ExprV)>::empty());
        while !matches!(self.peek(c), Token::RBRACE)
            invariant
                self.wf(),
                cur <= c <= self.toks().len(),
                whole == p_map(self.toks(), cur as int, Seq::empty()),
                whole == p_map(
                    self.toks(),
                    c as int,
                    Seq::new(pairs.len() as nat, |i: int| (pairs[i].0.view(), pairs[i].1.view())),
                ),
            decreases self.toks().len() - c,
        {
            let ghost acc = Seq::new(pairs.len() as nat, |i: int| (pairs[i].0.view(), pairs[i].1.view()));
            if c >= self.tokens.len() {
                return Err(self.error_at(c, "unexpected end of input in a map"));
            }
            let c0 = self.advance(c);
            let (key, c1) = match self.parse_expression(c0, Precedence::Lowest) {
                Ok(p) => p,
                Err(e) => {
                    return Err(e);
                },
            };
            if !matches!(self.peek(c1), Token::COLON) {
                return Err(self.error_after(c1, "expected `:` after a map key"));
            }
            let c2 = self.advance(self.advance(c1));
            let (value, c3) = match self.parse_expression(c2, Precedence::Lowest) {
                Ok(p) => p,
                Err(e) => {
                    return Err(e);
                },
            };
            let closes = matches!(self.peek(c3), Token::RBRACE);
            if !closes && !matches!(self.peek(c3), Token::COMMA) {
                return Err(self.error_after(c3, "expected `,` or `}` after a map entry"));
            }
            let c4 = if closes {
                c3
            } else {
                self.advance(c3)
            };
            let ghost kv = key.view();
            let ghost vv = value.view();
            pairs.push((key, value));
            assert(Seq::new(pairs.len() as nat, |i: int| (pairs[i].0.view(), pairs[i].1.view())) =~= acc.push((kv, vv)));
            c = c4;
        }
        let c5 = self.advance(c);
        let e = Expression::Hash(pairs);
        assert(e.view()->Hash_0 =~= Seq::new(pairs.len() as nat, |i: int| (pairs[i].0.view(), pairs[i].1.view())));
        Ok((e, c5))
    }

    /// A block; the current token is `{`. Ends at `}` or at end of input.
    fn parse_block_statement(&self, cur: usize) -> (r: Result<(Statement, usize), Error>)
        requires
            self.wf(),
            cur <= self.toks().len(),
        ensures
            stmt_result(r, p_block(self.toks(), cur as int), cur as int, self.toks()),
        decreases self.toks().len() - cur, 10nat,
    {
        let ghost whole = p_block_from(self.toks(), adv(self.toks(), cur as int), Seq::empty());
        let mut c = self.advance(cur);
        let mut statements: Vec<Statement> = Vec::new();
        assert(stmts_view(statements@) =~= Seq::<StmtV>::empty());
        while !matches!(self.at(c), Token::RBRACE) && !matches!(self.at(c), Token::EOF)
            invariant
                self.wf(),
                cur <= c <= self.toks().len(),
                whole == p_block_from(self.toks(), adv(self.toks(), cur as int), Seq::empty()),
                whole == p_block_from(self.toks(), c as int, stmts_view(statements@)),
            decreases self.toks().len() - c,
        {
            let ghost acc = stmts_view(statements@);
            let (s, c1) = match self.parse_statement(c) {
                Ok(p) => p,
                Err(e) => {
                    return Err(e);
                },
            };
            let ghost sv = s.view();
            statements.push(s);
            assert(stmts_view(statements@) =~= acc.push(sv));
            c = self.advance(c1);
        }
        let b = Statement::Block(statements);
        proof {
            lemma_block_view(b);
        }
        Ok((b, c))
    }

    fn parse_if_expression(&self, cur: usize) -> (r: Result<(Expression, usize), Error>)
        requires
            self.wf(),
            cur <= self.toks().len(),
        ensures
            expr_result(r, p_if(self.toks(), cur as int), cur as int, self.toks()),
        decreases self.toks().len() - cur, 4nat,
    {
        if !matches!(self.peek(cur), Token::LPAREN) || cur >= self.tokens.len() {
            return Err(self.error_after(cur, "expected `(` after `if`"));
        }
        let c2 = self.advance(self.advance(cur));
        let (condition, c3) = match self.parse_expression(c2, Precedence::Lowest) {
            Ok(p) => p,
            Err(e) => {
                return Err(e);
            },
        };
        if !matches!(self.peek(c3), Token::RPAREN) {
            return Err(self.error_after(c3, "parentheses are not closed in `if`"));
        }
        let c4 = self.advance(c3);
        if !matches!(self.peek(c4), Token::LBRACE) {
            return Err(self.error_after(c4, "expected `{` after the condition of `if`"));
        }
        let (consequence, c6) = match self.parse_block_statement(self.advance(c4)) {
            Ok(p) => p,
            Err(e) => {
                return Err(e);
            },
        };
        if matches!(self.peek(c6), Token::ELSE) {
            let c7 = self.advance(c6);
            if !matches!(self.peek(c7), Token::LBRACE) {
                return Err(self.error_after(c7, "expected `{` after `else`"));
            }
            let (alternative, c9) = match self.parse_block_statement(self.advance(c7)) {
                Ok(p) => p,
                Err(e) => {
                    return Err(e);
                },
            };
            Ok(
                (
                    Expression::If {
                        condition: Box::new(condition),
                        consequence: Box::new(consequence),
                        alternative: Some(Box::new(alternative)),
                    },
                    c9,
                ),
            )
        } else {
            Ok(
                (
                    Expression::If {
                        condition: Box::new(condition),
                        consequence: Box::new(consequence),
                        alternative: None,
                    },
                    c6,
                ),
            )
        }
    }

    /// The identifiers of a parameter list; the current token is `(`.
    fn parse_function_params(&self, cur: usize) -> (r: Result<(Vec<Expression>, usize), Error>)
        requires
            self.wf(),
            cur <= self.toks().len(),
        ensures
            list_result(r, p_params(self.toks(), cur as int), cur as int, self.toks()),
        decreases self.toks().len() - cur, 3nat,
    {
        let mut identifiers: Vec<Expression> = Vec::new();
        if matches!(self.peek(cur), Token::RPAREN) {
            assert(exprs_view(identifiers@) =~= Seq::<ExprV>::empty());
            return Ok((identifiers, self.advance(cur)));
        }
        let mut c = self.advance(cur);
        match self.at(c) {
            Token::IDENT(name) => {
                identifiers.push(Expression::Identifier(name.clone()));
            },
            _ => {
                return Err(self.error_at(c, "expected an identifier in a parameter list"));
            },
        }
        let ghost whole = p_params(self.toks(), cur as int);
        assert(exprs_view(identifiers@) =~= seq![identifiers@[0].view()]);
        while matches!(self.peek(c), Token::COMMA)
            invariant
                self.wf(),
                cur <= c <= self.toks().len(),
                whole == p_params(self.toks(), cur as int),
                whole == p_params_rest(self.toks(), c as int, exprs_view(identifiers@)),
            decreases self.toks().len() - c,
        {
            let ghost acc = exprs_view(identifiers@);
            let c1 = self.advance(self.advance(c));
            match self.at(c1) {
                Token::IDENT(name) => {
                    let id = Expression::Identifier(name.clone());
                    let ghost iv = id.view();
                    identifiers.push(id);
                    assert(exprs_view(identifiers@) =~= acc.push(iv));
                },
                _ => {
                    return Err(self.error_at(c1, "expected an identifier in a parameter list"));
                },
            }
            c = c1;
        }
        if matches!(self.peek(c), Token::RPAREN) {
            Ok((identifiers, self.advance(c)))
        } else {
            Err(self.error_after(c, "expected `)` after the parameters"))
        }
    }

    fn parse_function_expression(&self, cur: usize) -> (r: Result<(Expression, usize), Error>)
        requires
            self.wf(),
            cur <= self.toks().len(),
        ensures
            expr_result(r, p_function(self.toks(), cur as int), cur as int, self.toks()),
        decreases self.toks().len() - cur, 4nat,
    {
        if !matches!(self.peek(cur), Token::LPAREN) || cur >= self.tokens.len() {
            return Err(self.error_after(cur, "expected `(` after `fn`"));
        }
        let (parameters, c1) = match self.parse_function_params(self.advance(cur)) {
            Ok(p) => p,
            Err(e) => {
                return Err(e);
            },
        };
        if !matches!(self.peek(c1), Token::LBRACE) {
            return Err(self.error_after(c1, "expected `{` after the parameters"));
        }
        let (body, c2) = match self.parse_block_statement(self.advance(c1)) {
            Ok(p) => p,
            Err(e) => {
                return Err(e);
            },
        };
        let e = Expression::Function { parameters, body: Box::new(body) };
        proof {
            lemma_vec_views(e);
        }
        Ok((e, c2))
    }

    fn parse_for_expression(&self, cur: usize) -> (r: Result<(Expression, usize), Error>)
        requires
            self.wf(),
            cur <= self.toks().len(),
        ensures
            expr_result(r, p_for(self.toks(), cur as int), cur as int, self.toks()),
        decreases self.toks().len() - cur, 4nat,
    {
        if cur >= self.tokens.len() {
            return Err(self.error_at(cur, "unexpected end of input after `for`"));
        }
        let c0 = self.advance(cur);
        let (target, c1) = match self.parse_expression(c0, Precedence::Lowest) {
            Ok(p) => p,
            Err(e) => {
                return Err(e);
            },
        };
        let parameter = match target {
            Expression::Identifier(name) => name,
            _ => {
                return Err(self.error_at(c0, "expected an identifier after `for`"));
            },
        };
        if !matches!(self.peek(c1), Token::IN) {
            return Err(self.error_after(c1, "expected `in` in `for`"));
        }
        let c2 = self.advance(c1);
        if !matches!(self.peek(c2), Token::LBRACKET) {
            return Err(self.error_after(c2, "expected an array literal after `in`"));
        }
        let (array, c3) = match self.parse_array_expression(self.advance(c2)) {
            Ok(p) => p,
            Err(e) => {
                return Err(e);
            },
        };
        if !matches!(self.peek(c3), Token::LBRACE) {
            return Err(self.error_after(c3, "expected `{` after the array of `for`"));
        }
        let (statement, c4) = match self.parse_block_statement(self.advance(c3)) {
            Ok(p) => p,
            Err(e) => {
                return Err(e);
            },
        };
        Ok(
            (
                Expression::For { parameter, array: Box::new(array), statement: Box::new(statement) },
                c4,
            ),
        )
    }

    /// Parses statements up to the end of input.
    #[verifier::rlimit(30)]
    pub fn parse_program(&mut self) -> (r: Result<Program, Error>)
        requires
            old(self).wf(),
        ensures
            final(self).wf(),
            final(self).toks() == old(self).toks(),
            match r {
                Ok(p) => p_program(old(self).toks(), old(self).pos(), Seq::empty()) == Ok::<
                    Seq<StmtV>,
                    (int, Seq<char>),
                >(p.view()),
                Err(e) => p_program(old(self).toks(), old(self).pos(), Seq::empty()) matches Err(k)
                    && error_matches(e, old(self).toks(), k),
            },
    {
        let ghost whole = p_program(self.toks(), self.pos(), Seq::empty());
        let mut statements: Vec<Statement> = Vec::new();
        let mut c = self.cur;
        assert(stmts_view(statements@) =~= Seq::<StmtV>::empty());
        while !matches!(self.at(c), Token::EOF)
            invariant
                self.wf(),
                *self == *old(self),
                c <= self.toks().len(),
                whole == p_program(old(self).toks(), old(self).pos(), Seq::empty()),
                whole == p_program(self.toks(), c as int, stmts_view(statements@)),
            decreases self.toks().len() - c,
        {
            let ghost acc = stmts_view(statements@);
            let (s, c1) = match self.parse_statement(c) {
                Ok(p) => p,
                Err(e) => {
                    return Err(e);
                },
            };
            let ghost sv = s.view();
            statements.push(s);
            assert(stmts_view(statements@) =~= acc.push(sv));
            let c2 = self.advance(c1);
            assert(c < c2);
            assert(p_program(self.toks(), c as int, acc) == p_program(
                self.toks(),
                c2 as int,
                acc.push(sv),
            ));
            c = c2;
        }
        self.cur = c;
        Ok(Program { statements })
    }
}

/// Lexes and parses `source`.
pub fn parse(source: &str) -> (r: Result<Program, Error>)
    ensures
        exists|toks: Seq<Token>|
            {
                &&& lexes_from(source@, 0, toks)
                &&& match r {
                    Ok(p) => p_program(toks, 0, Seq::empty()) == Ok::<
                        Seq<StmtV>,
                        (int, Seq<char>),
                    >(p.view()),
                    Err(e) => p_program(toks, 0, Seq::empty()) matches Err(k) && error_matches(
                        e,
                        toks,
                        k,
                    ),
                }
            },
{
    let mut lexer = Lexer::new(source);
    let mut parser = Parser::new(&mut lexer);
    parser.parse_program()
}

/// The token that an arithmetic or comparison operator is written with.
pub open spec fn operator_token(op: InfixOprator) -> Token {
    match op {
        InfixOprator::Plus => Token::PLUS,
        InfixOprator::Minus => Token::MINUS,
        InfixOprator::Asterisk => Token::ASTERISK,
        InfixOprator::Slash => Token::SLASH,
        InfixOprator::Gt => Token::GT,
        InfixOprator::Lt => Token::LT,
        InfixOprator::Equal => Token::EQ,
        InfixOprator::Nequal => Token::NEQ,
        InfixOprator::Assign => Token::ASSIGN,
        InfixOprator::Lparen => Token::LPAREN,
    }
}

/// Expressions over identifiers (letters, not a keyword), non-negative
/// integer literals and booleans, built with prefix operators, the
/// arithmetic and comparison operators, assignment to a name, array and
/// map literals, calls and indexing.
pub open spec fn simple_expr(e: ExprV) -> bool
    decreases e,
{
    match e {
        ExprV::Ident(n) => n.len() > 0 && (forall|j: int|
            0 <= j < n.len() ==> crate::lexer::is_letter_spec(#[trigger] n[j]))
            && crate::token::keyword(n) is None,
        ExprV::Int(i) => i >= 0,
        ExprV::Bool(_) => true,
        ExprV::Prefix(_, r) => simple_expr(*r),
        ExprV::Infix(l, op, r) => !(op is Lparen) && (op is Assign ==> *l is Ident) && simple_expr(*l)
            && simple_expr(*r),
        ExprV::Array(es) => simple_list(es, 0),
        ExprV::Call(f, args) => simple_expr(*f) && simple_list(args, 0),
        ExprV::Index(l, i) => simple_expr(*l) && simple_expr(*i),
        ExprV::Hash(ps) => simple_pairs(ps, 0),
        _ => false,
    }
}

/// The keys and values of `ps` from `i` on are simple.
pub open spec fn simple_pairs(ps: Seq<(ExprV, ExprV)>, i: int) -> bool
    decreases ps, ps.len() - i,
{
    if 0 <= i < ps.len() {
        simple_expr(ps[i].0) && simple_expr(ps[i].1) && simple_pairs(ps, i + 1)
    } else {
        true
    }
}

/// The expressions of `es` from `i` on are simple.
pub open spec fn simple_list(es: Seq<ExprV>, i: int) -> bool
    decreases es, es.len() - i,
{
    if 0 <= i < es.len() {
        simple_expr(es[i]) && simple_list(es, i + 1)
    } else {
        true
    }
}

/// Number of tokens in the textual form of a simple expression.
pub open spec fn token_count(e: ExprV) -> nat
    decreases e,
{
    match e {
        ExprV::Prefix(_, r) => token_count(*r) + 3,
        ExprV::Infix(l, _, r) => token_count(*l) + token_count(*r) + 3,
        ExprV::Array(es) => list_count(es, 0) + 2,
        ExprV::Call(f, args) => token_count(*f) + list_count(args, 0) + 2,
        ExprV::Index(l, i) => token_count(*l) + token_count(*i) + 2,
        ExprV::Hash(ps) => pairs_count(ps, 0) + 2,
        _ => 1,
    }
}

/// Number of tokens of the pairs of `ps` from `i` on, with their colons and
/// the commas between them.
pub open spec fn pairs_count(ps: Seq<(ExprV, ExprV)>, i: int) -> nat
    decreases ps, ps.len() - i,
{
    if 0 <= i < ps.len() {
        token_count(ps[i].0) + 1 + token_count(ps[i].1) + (if i + 1 < ps.len() {
            1nat
        } else {
            0nat
        }) + pairs_count(ps, i + 1)
    } else {
        0
    }
}

/// Number of tokens of the elements of `es` from `i` on and the commas
/// between them.
pub open spec fn list_count(es: Seq<ExprV>, i: int) -> nat
    decreases es, es.len() - i,
{
    if 0 <= i < es.len() {
        token_count(es[i]) + (if i + 1 < es.len() {
            1nat
        } else {
            0nat
        }) + list_count(es, i + 1)
    } else {
        0
    }
}

/// The tokens from `p` on are those of the textual form of `e`.
pub open spec fn spells(toks: Seq<Token>, p: int, e: ExprV) -> bool
    decreases e,
{
    match e {
        ExprV::Ident(n) => tok(toks, p) is IDENT && tok(toks, p)->IDENT_0@ == n,
        ExprV::Int(i) => tok(toks, p) == Token::INT(i),
        ExprV::Bool(b) => tok(toks, p) == (if b {
            Token::TRUE
        } else {
            Token::FALSE
        }),
        ExprV::Prefix(op, r) => {
            &&& tok(toks, p) is LPAREN
            &&& tok(toks, p + 1) == (match op {
                PrefixOprator::Minus => Token::MINUS,
                PrefixOprator::Bang => Token::BANG,
            })
            &&& spells(toks, p + 2, *r)
            &&& tok(toks, p + 2 + token_count(*r)) is RPAREN
        },
        ExprV::Infix(l, op, r) => {
            &&& tok(toks, p) is LPAREN
            &&& spells(toks, p + 1, *l)
            &&& tok(toks, p + 1 + token_count(*l)) == operator_token(op)
            &&& spells(toks, p + 2 + token_count(*l), *r)
            &&& tok(toks, p + 2 + token_count(*l) + token_count(*r)) is RPAREN
        },
        ExprV::Array(es) => {
            &&& tok(toks, p) is LBRACKET
            &&& spells_list(toks, p + 1, es, 0)
            &&& tok(toks, p + 1 + list_count(es, 0)) is RBRACKET
        },
        ExprV::Hash(ps) => {
            &&& tok(toks, p) is LBRACE
            &&& spells_pairs(toks, p + 1, ps, 0)
            &&& tok(toks, p + 1 + pairs_count(ps, 0)) is RBRACE
        },
        ExprV::Call(f, args) => {
            &&& spells(toks, p, *f)
            &&& tok(toks, p + token_count(*f)) is LPAREN
            &&& spells_list(toks, p + token_count(*f) + 1, args, 0)
            &&& tok(toks, p + token_count(*f) + 1 + list_count(args, 0)) is RPAREN
        },
        ExprV::Index(l, i) => {
            &&& spells(toks, p, *l)
            &&& tok(toks, p + token_count(*l)) is LBRACKET
            &&& spells(toks, p + token_count(*l) + 1, *i)
            &&& tok(toks, p + token_count(*l) + 1 + token_count(*i)) is RBRACKET
        },
        _ => false,
    }
}

/// The tokens from `p` on spell the elements of `es` from `i` on, with a
/// comma between consecutive ones.
pub open spec fn spells_list(toks: Seq<Token>, p: int, es: Seq<ExprV>, i: int) -> bool
    decreases es, es.len() - i,
{
    if 0 <= i < es.len() {
        &&& spells(toks, p, es[i])
        &&& (i + 1 < es.len() ==> tok(toks, p + token_count(es[i])) is COMMA)
        &&& spells_list(
            toks,
            p + token_count(es[i]) + (if i + 1 < es.len() {
                1int
            } else {
                0int
            }),
            es,
            i + 1,
        )
    } else {
        true
    }
}

/// The tokens from `p` on spell the pairs of `ps` from `i` on as
/// `key : value`, with a comma between consecutive ones.
pub open spec fn spells_pairs(toks: Seq<Token>, p: int, ps: Seq<(ExprV, ExprV)>, i: int) -> bool
    decreases ps, ps.len() - i,
{
    if 0 <= i < ps.len() {
        let ck = token_count(ps[i].0);
        let cv = token_count(ps[i].1);
        &&& spells(toks, p, ps[i].0)
        &&& tok(toks, p + ck) is COLON
        &&& spells(toks, p + ck + 1, ps[i].1)
        &&& (i + 1 < ps.len() ==> tok(toks, p + ck + 1 + cv) is COMMA)
        &&& spells_pairs(
            toks,
            p + ck + 1 + cv + (if i + 1 < ps.len() {
                1int
            } else {
                0int
            }),
            ps,
            i + 1,
        )
    } else {
        true
    }
}

/// The innermost operand of a chain of calls and indexing.
pub open spec fn chain_base(e: ExprV) -> ExprV
    decreases e,
{
    match e {
        ExprV::Call(f, _) => chain_base(*f),
        ExprV::Index(l, _) => chain_base(*l),
        _ => e,
    }
}

proof fn lemma_token_count_positive(e: ExprV)
    ensures
        token_count(e) >= 1,
{
}

proof fn lemma_spells_first(toks: Seq<Token>, k: int, e: ExprV)
    requires
        simple_expr(e),
        spells(toks, k, e),
    ensures
        0 <= k < toks.len(),
        !(tok(toks, k) is EOF),
        !(tok(toks, k) is LET),
        !(tok(toks, k) is RETURN),
        !(tok(toks, k) is RPAREN),
        !(tok(toks, k) is RBRACKET),
        !(tok(toks, k) is RBRACE),
    decreases e,
{
    match e {
        ExprV::Call(f, _) => lemma_spells_first(toks, k, *f),
        ExprV::Index(l, _) => lemma_spells_first(toks, k, *l),
        _ => {},
    }
}

/// A simple expression spelled from `p` on, and followed by a token that
/// binds no tighter than `prec`, parses back to itself.
proof fn lemma_simple_expr_parses(toks: Seq<Token>, p: int, e: ExprV, prec: nat)
    requires
        simple_expr(e),
        spells(toks, p, e),
        0 <= p,
        p + token_count(e) < toks.len(),
        !(tok(toks, p + token_count(e)) is ASSIGN),
        prec_of(tok(toks, p + token_count(e))) <= prec,
        prec <= 5,
    ensures
        p_expr(toks, p, prec) == Parsed::Ok((e, p + token_count(e) - 1)),
    decreases e, 3nat,
{
    lemma_chain_parses(toks, p, e, prec);
    lemma_chain_base_count(e);
    lemma_token_count_positive(e);
}

proof fn lemma_chain_base_count(e: ExprV)
    ensures
        token_count(chain_base(e)) <= token_count(e),
        token_count(chain_base(e)) >= 1,
    decreases e,
{
    match e {
        ExprV::Call(f, _) => lemma_chain_base_count(*f),
        ExprV::Index(l, _) => lemma_chain_base_count(*l),
        _ => {},
    }
}

/// The prefix production at `p` gives the base of the chain `e`, and the
/// operator loop from there walks to `e` itself.
proof fn lemma_chain_parses(toks: Seq<Token>, p: int, e: ExprV, prec: nat)
    requires
        simple_expr(e),
        spells(toks, p, e),
        0 <= p,
        p + token_count(e) < toks.len(),
        !(tok(toks, p + token_count(e)) is ASSIGN),
        prec <= 5,
    ensures
        p_prefix(toks, p) == Parsed::Ok((chain_base(e), p + token_count(chain_base(e)) - 1)),
        p_infix_loop(toks, p + token_count(chain_base(e)) - 1, prec, chain_base(e))
            == p_infix_loop(toks, p + token_count(e) - 1, prec, e),
    decreases e, 2nat,
{
    lemma_token_count_positive(e);
    match e {
        ExprV::Call(f, args) => {
            lemma_token_count_positive(*f);
            let lp = p + token_count(*f);
            lemma_chain_parses(toks, p, *f, prec);
            lemma_list_parses(toks, lp, args, Token::RPAREN);
            let rp = lp + 1 + list_count(args, 0);
            assert(p_infix(toks, lp, *f) == Parsed::Ok((e, rp)));
            assert(p_infix_loop(toks, lp - 1, prec, *f) == p_infix_loop(toks, rp, prec, e));
        },
        ExprV::Index(l, i) => {
            lemma_token_count_positive(*l);
            lemma_token_count_positive(*i);
            let lb = p + token_count(*l);
            lemma_chain_parses(toks, p, *l, prec);
            lemma_simple_expr_parses(toks, lb + 1, *i, 0);
            let rb = lb + 1 + token_count(*i);
            assert(p_infix(toks, lb, *l) == Parsed::Ok((e, rb)));
            assert(p_infix_loop(toks, lb - 1, prec, *l) == p_infix_loop(toks, rb, prec, e));
        },
        _ => {
            lemma_simple_primary_parses(toks, p, e);
        },
    }
}

/// A simple expression that is no call and no indexing, spelled from `p`
/// on, parses back to itself as a prefix production.
#[verifier::rlimit(100)]
proof fn lemma_infix_primary_parses(toks: Seq<Token>, p: int, e: ExprV)
    requires
        simple_expr(e),
        e is Infix,
        spells(toks, p, e),
        0 <= p,
        p + token_count(e) < toks.len(),
        !(tok(toks, p + token_count(e)) is ASSIGN),
    ensures
        p_prefix(toks, p) == Parsed::Ok((e, p + token_count(e) - 1)),
    decreases e, 0nat,
{
    let l = e->Infix_0;
    let op = e->Infix_1;
    let r = e->Infix_2;
    if op is Assign {
        lemma_token_count_positive(*r);
        lemma_simple_expr_parses(toks, p + 3, *r, 0);
        let e2 = p + 2 + token_count(*r);
        assert(p_infix(toks, p + 2, *l) == Parsed::Ok((e, e2)));
        let name = tok(toks, p + 1)->IDENT_0;
        assert(*l is Ident);
        assert(spells(toks, p + 1, *l));
        assert(l->Ident_0 == name@);
        assert(ExprV::Ident(name@) == *l);
        assert(tok(toks, p + 2) is ASSIGN);
        assert(p_prefix(toks, p + 1) == Parsed::Ok((e, e2)));
        assert(p_infix_loop(toks, e2, 0, e) == Parsed::Ok((e, e2)));
        assert(p_expr(toks, p + 1, 0) == Parsed::Ok((e, e2)));
    } else {
        lemma_token_count_positive(*l);
        lemma_token_count_positive(*r);
        lemma_chain_base_count(*l);
        let e1 = p + token_count(*l);
        lemma_chain_parses(toks, p + 1, *l, 0);
        lemma_simple_expr_parses(toks, e1 + 2, *r, prec_of(operator_token(op)));
        let e2 = e1 + 1 + token_count(*r);
        assert(p_infix(toks, e1 + 1, *l) == Parsed::Ok((e, e2)));
        assert(p_infix_loop(toks, e2, 0, e) == Parsed::Ok((e, e2)));
        assert(p_infix_loop(toks, e1, 0, *l) == Parsed::Ok((e, e2)));
        assert(p_expr(toks, p + 1, 0) == Parsed::Ok((e, e2)));
    }
}

#[verifier::rlimit(100)]
proof fn lemma_simple_primary_parses(toks: Seq<Token>, p: int, e: ExprV)
    requires
        simple_expr(e),
        !(e is Call),
        !(e is Index),
        spells(toks, p, e),
        0 <= p,
        p + token_count(e) < toks.len(),
        !(tok(toks, p + token_count(e)) is ASSIGN),
    ensures
        p_prefix(toks, p) == Parsed::Ok((e, p + token_count(e) - 1)),
    decreases e, 1nat,
{
    match e {
        ExprV::Prefix(op, r) => {
            lemma_token_count_positive(*r);
            lemma_simple_expr_parses(toks, p + 2, *r, 5);
            let c = p + 1 + token_count(*r);
            assert(p_expr(toks, p + 1, 0) == Parsed::Ok((e, c)));
        },
        ExprV::Infix(_, _, _) => {
            lemma_infix_primary_parses(toks, p, e);
        },
        ExprV::Array(es) => {
            lemma_list_parses(toks, p, es, Token::RBRACKET);
        },
        ExprV::Hash(ps) => {
            lemma_map_parses(toks, p, ps, 0);
            assert(ps.subrange(0, 0) =~= Seq::<(ExprV, ExprV)>::empty());
        },
        _ => {},
    }
}

proof fn lemma_pairs_count_split(ps: Seq<(ExprV, ExprV)>, i: int)
    requires
        0 <= i < ps.len(),
    ensures
        pairs_count(ps, i) == token_count(ps[i].0) + 1 + token_count(ps[i].1) + (if i + 1
            < ps.len() {
            1int
        } else {
            0int
        }) + pairs_count(ps, i + 1),
{
}

/// The pairs of a map literal from `i` on, spelled after position `c`,
/// parse back to the whole map.
proof fn lemma_map_parses(toks: Seq<Token>, c: int, ps: Seq<(ExprV, ExprV)>, i: int)
    requires
        0 <= i <= ps.len(),
        simple_pairs(ps, i),
        0 <= c,
        spells_pairs(toks, c + 1, ps, i),
        c + 1 + pairs_count(ps, i) < toks.len(),
        tok(toks, c + 1 + pairs_count(ps, i)) is RBRACE,
    ensures
        p_map(toks, c, ps.subrange(0, i)) == Parsed::Ok(
            (ExprV::Hash(ps), c + 1 + pairs_count(ps, i)),
        ),
    decreases ps, ps.len() - i,
{
    if i == ps.len() {
        assert(ps.subrange(0, i) =~= ps);
    } else {
        let k = ps[i].0;
        let v = ps[i].1;
        let ck = token_count(k);
        let cv = token_count(v);
        lemma_token_count_positive(k);
        lemma_token_count_positive(v);
        lemma_pairs_count_split(ps, i);
        lemma_spells_first(toks, c + 1, k);
        lemma_simple_expr_parses(toks, c + 1, k, 0);
        let c1 = c + ck;
        let c2 = c1 + 2;
        if i + 1 == ps.len() {
            assert(pairs_count(ps, i + 1) == 0);
        }
        lemma_simple_expr_parses(toks, c2, v, 0);
        let c3 = c2 + cv - 1;
        let c4 = if i + 1 < ps.len() {
            c3 + 1
        } else {
            c3
        };
        lemma_map_parses(toks, c4, ps, i + 1);
        assert(ps.subrange(0, i).push((k, v)) =~= ps.subrange(0, i + 1));
    }
}

/// A list spelled after the opening token at `lp` and closed by `close`
/// parses back to its elements.
proof fn lemma_list_parses(toks: Seq<Token>, lp: int, es: Seq<ExprV>, close: Token)
    requires
        close is RPAREN || close is RBRACKET,
        simple_list(es, 0),
        spells_list(toks, lp + 1, es, 0),
        0 <= lp,
        lp + 1 + list_count(es, 0) < toks.len(),
        tok(toks, lp + 1 + list_count(es, 0)).same_kind(close),
    ensures
        p_list(toks, lp, close) == Parsed::Ok((es, lp + 1 + list_count(es, 0))),
    decreases es, es.len() + 1,
{
    if es.len() == 0 {
        assert(es =~= Seq::<ExprV>::empty());
    } else {
        lemma_spells_first(toks, lp + 1, es[0]);
        lemma_token_count_positive(es[0]);
        let c = lp + token_count(es[0]);
        if es.len() > 1 {
            assert(tok(toks, c + 1) is COMMA);
        }
        lemma_list_count_split(es, 0);
        lemma_simple_expr_parses(toks, lp + 1, es[0], 0);
        lemma_list_rest_parses(toks, c, es, 1, close, lp + 1 + list_count(es, 0));
        assert(es.subrange(0, 1) =~= seq![es[0]]);
    }
}

proof fn lemma_list_count_split(es: Seq<ExprV>, i: int)
    requires
        0 <= i < es.len(),
    ensures
        list_count(es, i) == token_count(es[i]) + (if i + 1 < es.len() {
            1int
        } else {
            0int
        }) + list_count(es, i + 1),
{
}

/// The rest of a list after the element that ends at `c`, from element `i`
/// on, parses back to the whole list.
proof fn lemma_list_rest_parses(
    toks: Seq<Token>,
    c: int,
    es: Seq<ExprV>,
    i: int,
    close: Token,
    end: int,
)
    requires
        close is RPAREN || close is RBRACKET,
        1 <= i <= es.len(),
        simple_list(es, i),
        0 <= c,
        i < es.len() ==> tok(toks, c + 1) is COMMA && spells_list(toks, c + 2, es, i) && end == c
            + 2 + list_count(es, i),
        i == es.len() ==> end == c + 1,
        end < toks.len(),
        tok(toks, end).same_kind(close),
    ensures
        p_list_rest(toks, c, close, es.subrange(0, i)) == Parsed::Ok((es, end)),
    decreases es, es.len() - i,
{
    if i == es.len() {
        assert(es.subrange(0, i) =~= es);
    } else {
        let s = c + 2;
        lemma_token_count_positive(es[i]);
        lemma_list_count_split(es, i);
        let c2 = s + token_count(es[i]) - 1;
        if i + 1 < es.len() {
            assert(tok(toks, c2 + 1) is COMMA);
        }
        lemma_simple_expr_parses(toks, s, es[i], 0);
        lemma_list_rest_parses(toks, c2, es, i + 1, close, end);
        assert(es.subrange(0, i).push(es[i]) =~= es.subrange(0, i + 1));
    }
}

proof fn lemma_literals()
    ensures
        "("@ == seq!['('],
        ")"@ == seq![')'],
        " "@ == seq![' '],
        "-"@ == seq!['-'],
        "!"@ == seq!['!'],
        "+"@ == seq!['+'],
        "*"@ == seq!['*'],
        "/"@ == seq!['/'],
        ">"@ == seq!['>'],
        "<"@ == seq!['<'],
        "=="@ == seq!['=', '='],
        "!="@ == seq!['!', '='],
        "="@ == seq!['='],
        "true"@ == seq!['t', 'r', 'u', 'e'],
        "false"@ == seq!['f', 'a', 'l', 's', 'e'],
        "0123456789"@ == seq!['0', '1', '2', '3', '4', '5', '6', '7', '8', '9'],
{
    reveal_strlit("(");
    reveal_strlit(")");
    reveal_strlit(" ");
    reveal_strlit("-");
    reveal_strlit("!");
    reveal_strlit("+");
    reveal_strlit("*");
    reveal_strlit("/");
    reveal_strlit(">");
    reveal_strlit("<");
    reveal_strlit("==");
    reveal_strlit("!=");
    reveal_strlit("=");
    reveal_strlit("true");
    reveal_strlit("false");
    reveal_strlit("0123456789");
}

proof fn lemma_digit(d: int)
    requires
        0 <= d < 10,
    ensures
        is_digit_spec(digit_char(d)),
        digit_value(digit_char(d)) == d,
{
    lemma_literals();
    if d == 0 {
    } else if d == 1 {
    } else if d == 2 {
    } else if d == 3 {
    } else if d == 4 {
    } else if d == 5 {
    } else if d == 6 {
    } else if d == 7 {
    } else if d == 8 {
    } else {
    }
}

proof fn lemma_nat_text_digits(n: nat)
    ensures
        nat_text(n).len() > 0,
        forall|j: int| 0 <= j < nat_text(n).len() ==> is_digit_spec(#[trigger] nat_text(n)[j]),
        digits_value(nat_text(n)) == n,
    decreases n,
{
    let t = nat_text(n);
    if n >= 10 {
        lemma_nat_text_digits(n / 10);
        lemma_digit((n % 10) as int);
        assert(t.drop_last() =~= nat_text(n / 10));
        assert(t.last() == digit_char((n % 10) as int));
        assert(digits_value(t) == digits_value(t.drop_last()) * 10 + digit_value(t.last()));
        assert(n == (n / 10) * 10 + n % 10);
        assert(forall|j: int| 0 <= j < t.len() - 1 ==> t[j] == #[trigger] nat_text(n / 10)[j]);
    } else {
        lemma_digit(n as int);
        assert(t.drop_last() =~= Seq::<char>::empty());
        assert(digits_value(t) == digits_value(t.drop_last()) * 10 + digit_value(t.last()));
    }
}

proof fn lemma_within(s: Seq<char>, p: int, t: Seq<char>, a: int, b: int)
    requires
        0 <= p,
        p + t.len() <= s.len(),
        s.subrange(p, p + t.len()) == t,
        0 <= a <= b <= t.len(),
    ensures
        s.subrange(p + a, p + b) == t.subrange(a, b),
        forall|j: int| a <= j < b ==> s[p + j] == #[trigger] t[j],
{
    assert forall|j: int| a <= j < b implies s[p + j] == #[trigger] t[j] by {
        assert(s.subrange(p, p + t.len())[j] == s[p + j]);
    }
    assert(s.subrange(p + a, p + b) =~= t.subrange(a, b));
}

proof fn lemma_ident_end_run(s: Seq<char>, p: int, k: int)
    requires
        0 <= p <= k <= s.len(),
        forall|j: int| p <= j < k ==> is_letter_spec(#[trigger] s[j]),
        !is_letter_spec(char_at(s, k)),
    ensures
        ident_end(s, p) == k,
    decreases k - p,
{
    if p < k {
        lemma_ident_end_run(s, p + 1, k);
    }
}

proof fn lemma_digits_end_run(s: Seq<char>, p: int, k: int)
    requires
        0 <= p <= k <= s.len(),
        forall|j: int| p <= j < k ==> is_digit_spec(#[trigger] s[j]),
        !is_digit_spec(char_at(s, k)),
    ensures
        digits_end(s, p) == k,
    decreases k - p,
{
    if p < k {
        lemma_digits_end_run(s, p + 1, k);
    }
}

proof fn lemma_skip_spaces(s: Seq<char>, origin: int, p: int)
    requires
        0 <= origin <= p < s.len(),
        forall|j: int| origin <= j < p ==> #[trigger] s[j] == ' ',
        !is_whitespace(s[p]),
    ensures
        skip_ws(s, origin) == p,
    decreases p - origin,
{
    if origin < p {
        lemma_skip_spaces(s, origin + 1, p);
    }
}

/// What may follow the text of a simple expression.
pub open spec fn delimits(c: char) -> bool {
    c == ' ' || c == ')' || c == ';' || c == ',' || c == ']' || c == '(' || c == '[' || c == ':'
        || c == '\0'
}

proof fn lemma_text_starts(e: ExprV)
    requires
        simple_expr(e),
    ensures
        expr_text(e).len() > 0,
        !is_whitespace(expr_text(e)[0]),
        expr_text(e)[0] != '=',
        expr_text(e)[0] != '\0',
    decreases e,
{
    lemma_literals();
    reveal_strlit("[");
    match e {
        ExprV::Int(i) => {
            lemma_nat_text_digits(i as nat);
        },
        ExprV::Call(f, _) => {
            lemma_text_starts(*f);
            assert(expr_text(e)[0] == expr_text(*f)[0]);
        },
        ExprV::Index(l, _) => {
            lemma_text_starts(*l);
            assert(expr_text(e)[0] == expr_text(*l)[0]);
        },
        ExprV::Array(_) => {
            assert(expr_text(e)[0] == '[');
        },
        ExprV::Hash(_) => {
            reveal_strlit("{ ");
            assert(expr_text(e)[0] == '{');
        },
        _ => {},
    }
}

/// `s` holds the text of `e` at `p`, with only spaces from `origin` to `p` and a
/// delimiter after it; `toks` from `k` on is the token stream of `s` from `origin`.
pub open spec fn text_at(s: Seq<char>, origin: int, p: int, e: ExprV, toks: Seq<Token>, k: int) -> bool {
    &&& simple_expr(e)
    &&& 0 <= origin <= p
    &&& p + expr_text(e).len() <= s.len()
    &&& s.subrange(p, p + expr_text(e).len()) == expr_text(e)
    &&& forall|j: int| origin <= j < p ==> #[trigger] s[j] == ' '
    &&& delimits(char_at(s, p + expr_text(e).len()))
    &&& 0 <= k <= toks.len()
    &&& lexes_from(s, origin, toks.subrange(k, toks.len() as int))
}

/// The tokens from `k` on spell `e`, and the stream goes on after them from
/// the end of `e`'s text.
pub open spec fn lexed_as(s: Seq<char>, p: int, e: ExprV, toks: Seq<Token>, k: int) -> bool {
    &&& spells(toks, k, e)
    &&& k + token_count(e) < toks.len()
    &&& lexes_from(s, p + expr_text(e).len(), toks.subrange(k + token_count(e), toks.len() as int))
}

proof fn lemma_lex_setup(s: Seq<char>, origin: int, p: int, e: ExprV, toks: Seq<Token>, k: int)
    requires
        text_at(s, origin, p, e, toks, k),
    ensures
        forall|j: int| 0 <= j < expr_text(e).len() ==> s[p + j] == #[trigger] expr_text(e)[j],
        skip_ws(s, origin) == p,
        toks.subrange(k, toks.len() as int).len() > 0,
        toks.subrange(k, toks.len() as int)[0] == toks[k],
        toks.subrange(k, toks.len() as int).drop_first() == toks.subrange(k + 1, toks.len() as int),
{
    lemma_literals();
    lemma_text_starts(e);
    let t = expr_text(e);
    lemma_within(s, p, t, 0, t.len() as int);
    lemma_skip_spaces(s, origin, p);
    assert(toks.subrange(k, toks.len() as int).drop_first() =~= toks.subrange(k + 1, toks.len() as int));
}

proof fn lemma_atom_lexes(s: Seq<char>, origin: int, p: int, e: ExprV, toks: Seq<Token>, k: int)
    requires
        text_at(s, origin, p, e, toks, k),
        e is Ident || e is Int || e is Bool,
    ensures
        lexed_as(s, p, e, toks, k),
{
    lemma_literals();
    lemma_lex_setup(s, origin, p, e, toks, k);
    let t = expr_text(e);
    let end = p + t.len();
    let rest = toks.subrange(k, toks.len() as int);
    match e {
        ExprV::Int(i) => {
            lemma_nat_text_digits(i as nat);
            assert forall|j: int| p <= j < end implies is_digit_spec(#[trigger] s[j]) by {
                assert(s[p + (j - p)] == t[j - p]);
            }
            lemma_digits_end_run(s, p, end);
            assert(s.subrange(p, digits_end(s, p)) =~= t);
        },
        _ => {
            assert forall|j: int| p <= j < end implies is_letter_spec(#[trigger] s[j]) by {
                assert(s[p + (j - p)] == t[j - p]);
            }
            lemma_ident_end_run(s, p, end);
            assert(s.subrange(p, ident_end(s, p)) =~= t);
        },
    }
    assert(next_pos(s, origin) == end);
    assert(lexes_from(s, end, rest.drop_first()));
    assert(rest.drop_first().len() > 0);
}

/// The stream from `origin` starts with `t` when the scanner can find nothing
/// else there.
proof fn lemma_take(s: Seq<char>, origin: int, t: Token, q: int, rest: Seq<Token>)
    requires
        forall|x: Token| scanned(s, origin, x) ==> x == t,
        !(t is EOF),
        next_pos(s, origin) == q,
        lexes_from(s, origin, rest),
    ensures
        rest.len() > 1,
        rest[0] == t,
        lexes_from(s, q, rest.drop_first()),
{
    reveal_with_fuel(lexes_from, 2);
}

proof fn lemma_scan_punct(s: Seq<char>, origin: int, p: int)
    requires
        0 <= origin <= p < s.len(),
        skip_ws(s, origin) == p,
        punctuation(s[p]) is Some,
    ensures
        forall|x: Token| scanned(s, origin, x) ==> x == punctuation(s[p])->0,
        next_pos(s, origin) == p + 1,
{
}

proof fn lemma_scan_prefix_op(s: Seq<char>, origin: int, p: int, op: PrefixOprator)
    requires
        0 <= origin <= p,
        p + 1 < s.len(),
        skip_ws(s, origin) == p,
        s[p] == prefix_text(op)[0],
        s[p + 1] != '=',
    ensures
        forall|x: Token| scanned(s, origin, x) ==> x == (match op {
            PrefixOprator::Minus => Token::MINUS,
            PrefixOprator::Bang => Token::BANG,
        }),
        next_pos(s, origin) == p + 1,
{
    lemma_literals();
}

proof fn lemma_scan_infix_op(s: Seq<char>, origin: int, p: int, op: InfixOprator)
    requires
        !(op is Lparen),
        0 <= origin <= p,
        p + infix_text(op).len() < s.len(),
        skip_ws(s, origin) == p,
        s.subrange(p, p + infix_text(op).len()) == infix_text(op),
        s[p + infix_text(op).len()] == ' ',
    ensures
        forall|x: Token| scanned(s, origin, x) ==> x == operator_token(op),
        next_pos(s, origin) == p + infix_text(op).len(),
{
    lemma_literals();
    let ot = infix_text(op);
    assert(s[p] == s.subrange(p, p + ot.len())[0]);
    if ot.len() == 2 {
        assert(s[p + 1] == s.subrange(p, p + ot.len())[1]);
    }
}

#[verifier::rlimit(100)]
proof fn lemma_prefix_lexes(s: Seq<char>, origin: int, p: int, e: ExprV, toks: Seq<Token>, k: int)
    requires
        text_at(s, origin, p, e, toks, k),
        e is Prefix,
    ensures
        lexed_as(s, p, e, toks, k),
    decreases e, 0nat,
{
    lemma_literals();
    lemma_lex_setup(s, origin, p, e, toks, k);
    let t = expr_text(e);
    let op = e->Prefix_0;
    let r = *e->Prefix_1;
    let tr = expr_text(r);
    lemma_text_starts(r);
    assert(t == "("@ + prefix_text(op) + tr + ")"@);
    assert(t.subrange(2, 2 + tr.len() as int) =~= tr);
    assert(t[1] == prefix_text(op)[0]);
    assert(t[2] == tr[0]);
    assert(t[0] == '(');
    assert(t[2 + tr.len() as int] == ')');
    lemma_within(s, p, t, 2, 2 + tr.len() as int);
    let rest = toks.subrange(k, toks.len() as int);
    lemma_scan_punct(s, origin, p);
    lemma_take(s, origin, Token::LPAREN, p + 1, rest);
    let rest1 = toks.subrange(k + 1, toks.len() as int);
    assert(rest1[0] == toks[k + 1]);
    assert(rest1.drop_first() =~= toks.subrange(k + 2, toks.len() as int));
    assert(skip_ws(s, p + 1) == p + 1);
    lemma_scan_prefix_op(s, p + 1, p + 1, op);
    lemma_take(s, p + 1, toks[k + 1], p + 2, rest1);
    lemma_simple_expr_lexes(s, p + 2, p + 2, r, toks, k + 2);
    let k3 = k + 2 + token_count(r);
    let c3 = p + 2 + tr.len();
    let rest3 = toks.subrange(k3, toks.len() as int);
    assert(rest3[0] == toks[k3]);
    assert(rest3.drop_first() =~= toks.subrange(k3 + 1, toks.len() as int));
    assert(skip_ws(s, c3) == c3);
    lemma_scan_punct(s, c3, c3);
    lemma_take(s, c3, Token::RPAREN, c3 + 1, rest3);
    assert(spells(toks, k, e));
}

#[verifier::rlimit(100)]
proof fn lemma_infix_lexes(s: Seq<char>, origin: int, p: int, e: ExprV, toks: Seq<Token>, k: int)
    requires
        text_at(s, origin, p, e, toks, k),
        e is Infix,
    ensures
        lexed_as(s, p, e, toks, k),
    decreases e, 0nat,
{
    lemma_literals();
    lemma_lex_setup(s, origin, p, e, toks, k);
    let t = expr_text(e);
    let l = *e->Infix_0;
    let op = e->Infix_1;
    let r = *e->Infix_2;
    let tl = expr_text(l);
    let tr = expr_text(r);
    let ot = infix_text(op);
    lemma_text_starts(l);
    lemma_text_starts(r);
    assert(t == "("@ + tl + " "@ + ot + " "@ + tr + ")"@);
    let a1 = 1 + tl.len() as int;
    let a2 = a1 + 1 + ot.len() as int;
    let a3 = a2 + 1 + tr.len() as int;
    assert(t.len() == a3 + 1);
    assert(t.subrange(1, a1) =~= tl);
    assert(t[a1] == ' ');
    assert(t.subrange(a1 + 1, a2) =~= ot);
    assert(t[a2] == ' ');
    assert(t.subrange(a2 + 1, a3) =~= tr);
    assert(t[a3] == ')');
    assert(t[0] == '(');
    lemma_within(s, p, t, 1, a1);
    lemma_within(s, p, t, a1 + 1, a2);
    lemma_within(s, p, t, a2 + 1, a3);
    let rest = toks.subrange(k, toks.len() as int);
    lemma_scan_punct(s, origin, p);
    lemma_take(s, origin, Token::LPAREN, p + 1, rest);
    lemma_simple_expr_lexes(s, p + 1, p + 1, l, toks, k + 1);
    let q = p + a1;
    let k2 = k + 1 + token_count(l);
    let rest2 = toks.subrange(k2, toks.len() as int);
    assert(rest2[0] == toks[k2]);
    assert(rest2.drop_first() =~= toks.subrange(k2 + 1, toks.len() as int));
    assert(s[q] == ' ');
    assert(!is_whitespace(s[q + 1])) by {
        assert(s[q + 1] == ot[0]);
    }
    lemma_skip_spaces(s, q, q + 1);
    let q2 = p + a2;
    lemma_scan_infix_op(s, q, q + 1, op);
    lemma_take(s, q, operator_token(op), q2, rest2);
    lemma_simple_expr_lexes(s, q2, q2 + 1, r, toks, k2 + 1);
    let k3 = k2 + 1 + token_count(r);
    let c3 = p + a3;
    let rest3 = toks.subrange(k3, toks.len() as int);
    assert(rest3[0] == toks[k3]);
    assert(rest3.drop_first() =~= toks.subrange(k3 + 1, toks.len() as int));
    assert(skip_ws(s, c3) == c3);
    lemma_scan_punct(s, c3, c3);
    lemma_take(s, c3, Token::RPAREN, c3 + 1, rest3);
    assert(spells(toks, k, e));
}

proof fn lemma_join_front(items: Seq<Seq<char>>, sep: Seq<char>)
    requires
        items.len() >= 2,
    ensures
        join(items, sep) == items[0] + sep + join(items.drop_first(), sep),
    decreases items.len(),
{
    let a = items.drop_last();
    let b = items.drop_first();
    assert(join(items, sep) == join(a, sep) + sep + items.last());
    if items.len() > 2 {
        lemma_join_front(a, sep);
        assert(a.drop_first() =~= b.drop_last());
        assert(b.last() == items.last());
        assert(a[0] == items[0]);
        assert(join(b, sep) == join(b.drop_last(), sep) + sep + b.last());
        assert(join(items, sep) =~= items[0] + sep + join(b, sep));
    } else {
        assert(a.len() == 1);
        assert(b.len() == 1);
        assert(join(a, sep) == a[0]);
        assert(join(b, sep) == b[0]);
    }
}

/// Text of the elements of `es` from `i` on, joined by `", "`.
pub open spec fn list_text(es: Seq<ExprV>, i: int) -> Seq<char> {
    join(crate::ast::expr_text_items(es).subrange(i, es.len() as int), ", "@)
}

proof fn lemma_list_text_step(es: Seq<ExprV>, i: int)
    requires
        0 <= i < es.len(),
    ensures
        list_text(es, i) == expr_text(es[i]) + (if i + 1 < es.len() {
            ", "@ + list_text(es, i + 1)
        } else {
            Seq::empty()
        }),
{
    let items = crate::ast::expr_text_items(es).subrange(i, es.len() as int);
    assert(items[0] == expr_text(es[i]));
    assert(items.drop_first() =~= crate::ast::expr_text_items(es).subrange(i + 1, es.len() as int));
    if i + 1 < es.len() {
        lemma_join_front(items, ", "@);
    } else {
        assert(items.len() == 1);
        assert(expr_text(es[i]) + Seq::<char>::empty() =~= expr_text(es[i]));
    }
}

/// Scanning the text of a list from `origin` (spaces up to `p`) yields the
/// tokens that spell it.
proof fn lemma_list_lexes(
    s: Seq<char>,
    origin: int,
    p: int,
    es: Seq<ExprV>,
    i: int,
    toks: Seq<Token>,
    k: int,
)
    requires
        0 <= i <= es.len(),
        simple_list(es, i),
        0 <= origin <= p,
        p + list_text(es, i).len() <= s.len(),
        s.subrange(p, p + list_text(es, i).len()) == list_text(es, i),
        forall|j: int| origin <= j < p ==> #[trigger] s[j] == ' ',
        char_at(s, p + list_text(es, i).len()) == ')' || char_at(s, p + list_text(es, i).len())
            == ']',
        0 <= k <= toks.len(),
        lexes_from(s, origin, toks.subrange(k, toks.len() as int)),
        i == es.len() ==> origin == p,
    ensures
        spells_list(toks, k, es, i),
        k + list_count(es, i) <= toks.len(),
        lexes_from(
            s,
            p + list_text(es, i).len(),
            toks.subrange(k + list_count(es, i), toks.len() as int),
        ),
    decreases es, es.len() - i,
{
    lemma_literals();
    reveal_strlit(", ");
    if i == es.len() {
        assert(crate::ast::expr_text_items(es).subrange(i, es.len() as int).len() == 0);
    } else {
        lemma_list_text_step(es, i);
        lemma_list_count_split(es, i);
        let t = list_text(es, i);
        let te = expr_text(es[i]);
        assert(t.subrange(0, te.len() as int) =~= te);
        lemma_within(s, p, t, 0, te.len() as int);
        lemma_within(s, p, t, 0, t.len() as int);
        if i + 1 < es.len() {
            let tr = list_text(es, i + 1);
            assert(t[te.len() as int] == ',');
            assert(t[te.len() as int + 1] == ' ');
            assert(t.subrange(te.len() as int + 2, t.len() as int) =~= tr);
            lemma_within(s, p, t, te.len() as int + 2, t.len() as int);
            assert(text_at(s, origin, p, es[i], toks, k));
            lemma_simple_expr_lexes(s, origin, p, es[i], toks, k);
            let c = p + te.len();
            let kc = k + token_count(es[i]);
            let rest = toks.subrange(kc, toks.len() as int);
            assert(rest[0] == toks[kc]);
            assert(rest.drop_first() =~= toks.subrange(kc + 1, toks.len() as int));
            assert(skip_ws(s, c) == c);
            lemma_scan_punct(s, c, c);
            lemma_take(s, c, Token::COMMA, c + 1, rest);
            lemma_list_lexes(s, c + 1, c + 2, es, i + 1, toks, kc + 1);
            assert(tok(toks, kc) is COMMA);
            assert(spells_list(toks, k, es, i));
        } else {
            assert(t =~= te);
            assert(text_at(s, origin, p, es[i], toks, k));
            lemma_simple_expr_lexes(s, origin, p, es[i], toks, k);
            assert(spells_list(toks, k + token_count(es[i]), es, i + 1));
            assert(spells_list(toks, k, es, i));
        }
    }
}

/// Text of the pairs of `ps` from `i` on, joined by `", "`.
pub open spec fn pairs_list_text(ps: Seq<(ExprV, ExprV)>, i: int) -> Seq<char> {
    join(crate::ast::pair_text_items(ps).subrange(i, ps.len() as int), ", "@)
}

proof fn lemma_pairs_text_step(ps: Seq<(ExprV, ExprV)>, i: int)
    requires
        0 <= i < ps.len(),
    ensures
        pairs_list_text(ps, i) == expr_text(ps[i].0) + ": "@ + expr_text(ps[i].1) + (if i + 1
            < ps.len() {
            ", "@ + pairs_list_text(ps, i + 1)
        } else {
            Seq::empty()
        }),
{
    let items = crate::ast::pair_text_items(ps).subrange(i, ps.len() as int);
    assert(items[0] == expr_text(ps[i].0) + ": "@ + expr_text(ps[i].1));
    assert(items.drop_first() =~= crate::ast::pair_text_items(ps).subrange(i + 1, ps.len() as int));
    if i + 1 < ps.len() {
        lemma_join_front(items, ", "@);
    } else {
        assert(items.len() == 1);
        assert(items[0] + Seq::<char>::empty() =~= items[0]);
    }
}

/// Scanning `key: value` at `p` (spaces from `origin`) yields the key's
/// tokens, a colon, and the value's tokens.
#[verifier::rlimit(100)]
proof fn lemma_pair_lexes(
    s: Seq<char>,
    origin: int,
    p: int,
    pr: (ExprV, ExprV),
    toks: Seq<Token>,
    k: int,
)
    requires
        simple_expr(pr.0),
        simple_expr(pr.1),
        0 <= origin <= p,
        p + expr_text(pr.0).len() + 2 + expr_text(pr.1).len() <= s.len(),
        s.subrange(p, p + expr_text(pr.0).len()) == expr_text(pr.0),
        s[p + expr_text(pr.0).len()] == ':',
        s[p + expr_text(pr.0).len() + 1] == ' ',
        s.subrange(
            p + expr_text(pr.0).len() + 2,
            p + expr_text(pr.0).len() + 2 + expr_text(pr.1).len(),
        ) == expr_text(pr.1),
        forall|j: int| origin <= j < p ==> #[trigger] s[j] == ' ',
        delimits(char_at(s, p + expr_text(pr.0).len() + 2 + expr_text(pr.1).len())),
        0 <= k <= toks.len(),
        lexes_from(s, origin, toks.subrange(k, toks.len() as int)),
    ensures
        spells(toks, k, pr.0),
        tok(toks, k + token_count(pr.0)) is COLON,
        spells(toks, k + token_count(pr.0) + 1, pr.1),
        k + token_count(pr.0) + 1 + token_count(pr.1) < toks.len(),
        lexes_from(
            s,
            p + expr_text(pr.0).len() + 2 + expr_text(pr.1).len(),
            toks.subrange(k + token_count(pr.0) + 1 + token_count(pr.1), toks.len() as int),
        ),
    decreases pr, 2nat,
{
    let key = pr.0;
    let val = pr.1;
    let tk = expr_text(key);
    let c = p + tk.len();
    assert(text_at(s, origin, p, key, toks, k));
    lemma_simple_expr_lexes(s, origin, p, key, toks, k);
    let kc = k + token_count(key);
    let rest = toks.subrange(kc, toks.len() as int);
    assert(rest[0] == toks[kc]);
    assert(rest.drop_first() =~= toks.subrange(kc + 1, toks.len() as int));
    assert(skip_ws(s, c) == c);
    lemma_scan_punct(s, c, c);
    lemma_take(s, c, Token::COLON, c + 1, rest);
    assert(forall|j: int| c + 1 <= j < c + 2 ==> #[trigger] s[j] == ' ');
    assert(text_at(s, c + 1, c + 2, val, toks, kc + 1));
    lemma_simple_expr_lexes(s, c + 1, c + 2, val, toks, kc + 1);
}

/// Scanning the text of the pairs of a map from `origin` (spaces up to `p`)
/// yields the tokens that spell them.
#[verifier::rlimit(100)]
proof fn lemma_pairs_lexes(
    s: Seq<char>,
    origin: int,
    p: int,
    ps: Seq<(ExprV, ExprV)>,
    i: int,
    toks: Seq<Token>,
    k: int,
)
    requires
        0 <= i <= ps.len(),
        simple_pairs(ps, i),
        0 <= origin <= p,
        p + pairs_list_text(ps, i).len() <= s.len(),
        s.subrange(p, p + pairs_list_text(ps, i).len()) == pairs_list_text(ps, i),
        forall|j: int| origin <= j < p ==> #[trigger] s[j] == ' ',
        char_at(s, p + pairs_list_text(ps, i).len()) == ' ',
        0 <= k <= toks.len(),
        lexes_from(s, origin, toks.subrange(k, toks.len() as int)),
        i == ps.len() ==> origin == p,
    ensures
        spells_pairs(toks, k, ps, i),
        k + pairs_count(ps, i) <= toks.len(),
        lexes_from(
            s,
            p + pairs_list_text(ps, i).len(),
            toks.subrange(k + pairs_count(ps, i), toks.len() as int),
        ),
    decreases ps, ps.len() - i,
{
    lemma_literals();
    reveal_strlit(", ");
    reveal_strlit(": ");
    if i == ps.len() {
        assert(crate::ast::pair_text_items(ps).subrange(i, ps.len() as int).len() == 0);
    } else {
        lemma_pairs_text_step(ps, i);
        lemma_pairs_count_split(ps, i);
        let t = pairs_list_text(ps, i);
        let key = ps[i].0;
        let val = ps[i].1;
        let tk = expr_text(key);
        let tv = expr_text(val);
        lemma_text_starts(val);
        let a1 = tk.len() as int;
        let a2 = a1 + 2;
        let a3 = a2 + tv.len() as int;
        assert(t.subrange(0, a1) =~= tk);
        assert(t[a1] == ':');
        assert(t[a1 + 1] == ' ');
        assert(t.subrange(a2, a3) =~= tv);
        lemma_within(s, p, t, 0, a1);
        lemma_within(s, p, t, a2, a3);
        lemma_within(s, p, t, 0, t.len() as int);
        if i + 1 < ps.len() {
            assert(t[a3] == ',');
            assert(t[a3 + 1] == ' ');
            assert(t.subrange(a3 + 2, t.len() as int) =~= pairs_list_text(ps, i + 1));
            lemma_within(s, p, t, a3 + 2, t.len() as int);
        } else {
            assert(t.len() == a3);
        }
        lemma_pair_lexes(s, origin, p, ps[i], toks, k);
        let kv = k + token_count(key) + 1 + token_count(val);
        if i + 1 < ps.len() {
            let c2 = p + a3;
            let rest2 = toks.subrange(kv, toks.len() as int);
            assert(rest2[0] == toks[kv]);
            assert(rest2.drop_first() =~= toks.subrange(kv + 1, toks.len() as int));
            assert(skip_ws(s, c2) == c2);
            lemma_scan_punct(s, c2, c2);
            lemma_take(s, c2, Token::COMMA, c2 + 1, rest2);
            lemma_pairs_lexes(s, c2 + 1, c2 + 2, ps, i + 1, toks, kv + 1);
            assert(tok(toks, kv) is COMMA);
        } else {
            assert(spells_pairs(toks, kv, ps, i + 1));
        }
        assert(spells_pairs(toks, k, ps, i));
    }
}

#[verifier::rlimit(100)]
proof fn lemma_map_lexes(s: Seq<char>, origin: int, p: int, e: ExprV, toks: Seq<Token>, k: int)
    requires
        text_at(s, origin, p, e, toks, k),
        e is Hash,
    ensures
        lexed_as(s, p, e, toks, k),
    decreases e, 0nat,
{
    lemma_literals();
    reveal_strlit("{ ");
    reveal_strlit(" }");
    lemma_lex_setup(s, origin, p, e, toks, k);
    let ps = e->Hash_0;
    let t = expr_text(e);
    let tj = crate::ast::pairs_text(ps);
    assert(crate::ast::pair_text_items(ps).subrange(0, ps.len() as int) =~= crate::ast::pair_text_items(ps));
    assert(tj == pairs_list_text(ps, 0));
    assert(t == "{ "@ + tj + " }"@);
    assert(t[0] == '{');
    assert(t[1] == ' ');
    assert(t.subrange(2, 2 + tj.len() as int) =~= tj);
    assert(t[2 + tj.len() as int] == ' ');
    assert(t[3 + tj.len() as int] == '}');
    lemma_within(s, p, t, 2, 2 + tj.len() as int);
    lemma_within(s, p, t, 0, t.len() as int);
    let rest = toks.subrange(k, toks.len() as int);
    lemma_scan_punct(s, origin, p);
    lemma_take(s, origin, Token::LBRACE, p + 1, rest);
    let q = p + 2 + tj.len();
    let kc = k + 1 + pairs_count(ps, 0);
    if ps.len() == 0 {
        assert(tj.len() == 0);
        assert(pairs_count(ps, 0) == 0);
        assert(spells_pairs(toks, k + 1, ps, 0));
        assert(toks.subrange(k + 1, toks.len() as int) =~= rest.drop_first());
    } else {
        lemma_pairs_lexes(s, p + 1, p + 2, ps, 0, toks, k + 1);
    }
    let rest3 = toks.subrange(kc, toks.len() as int);
    assert(lexes_from(s, if ps.len() == 0 { p + 1 } else { q }, rest3));
    assert(rest3.len() > 0);
    assert(rest3[0] == toks[kc]);
    assert(rest3.drop_first() =~= toks.subrange(kc + 1, toks.len() as int));
    let o = if ps.len() == 0 { p + 1 } else { q };
    lemma_skip_spaces(s, o, q + 1);
    lemma_scan_punct(s, o, q + 1);
    lemma_take(s, o, Token::RBRACE, q + 2, rest3);
    assert(spells(toks, k, e));
}

#[verifier::rlimit(100)]
proof fn lemma_array_lexes(s: Seq<char>, origin: int, p: int, e: ExprV, toks: Seq<Token>, k: int)
    requires
        text_at(s, origin, p, e, toks, k),
        e is Array,
    ensures
        lexed_as(s, p, e, toks, k),
    decreases e, 0nat,
{
    lemma_literals();
    reveal_strlit("[");
    reveal_strlit("]");
    lemma_lex_setup(s, origin, p, e, toks, k);
    let es = e->Array_0;
    let t = expr_text(e);
    let tj = crate::ast::exprs_text(es);
    assert(crate::ast::expr_text_items(es).subrange(0, es.len() as int) =~= crate::ast::expr_text_items(es));
    assert(tj == list_text(es, 0));
    assert(t == "["@ + tj + "]"@);
    assert(t[0] == '[');
    assert(t.subrange(1, 1 + tj.len() as int) =~= tj);
    assert(t[1 + tj.len() as int] == ']');
    lemma_within(s, p, t, 1, 1 + tj.len() as int);
    let rest = toks.subrange(k, toks.len() as int);
    lemma_scan_punct(s, origin, p);
    lemma_take(s, origin, Token::LBRACKET, p + 1, rest);
    lemma_list_lexes(s, p + 1, p + 1, es, 0, toks, k + 1);
    let c = p + 1 + tj.len();
    let kc = k + 1 + list_count(es, 0);
    let rest3 = toks.subrange(kc, toks.len() as int);
    assert(rest3.len() > 0);
    assert(rest3[0] == toks[kc]);
    assert(rest3.drop_first() =~= toks.subrange(kc + 1, toks.len() as int));
    assert(skip_ws(s, c) == c);
    lemma_scan_punct(s, c, c);
    lemma_take(s, c, Token::RBRACKET, c + 1, rest3);
    assert(spells(toks, k, e));
}

#[verifier::rlimit(100)]
proof fn lemma_call_lexes(s: Seq<char>, origin: int, p: int, e: ExprV, toks: Seq<Token>, k: int)
    requires
        text_at(s, origin, p, e, toks, k),
        e is Call,
    ensures
        lexed_as(s, p, e, toks, k),
    decreases e, 0nat,
{
    lemma_literals();
    lemma_lex_setup(s, origin, p, e, toks, k);
    let f = *e->Call_0;
    let args = e->Call_1;
    let t = expr_text(e);
    let tf = expr_text(f);
    let tj = crate::ast::exprs_text(args);
    assert(crate::ast::expr_text_items(args).subrange(0, args.len() as int) =~= crate::ast::expr_text_items(args));
    assert(tj == list_text(args, 0));
    assert(t == tf + "("@ + tj + ")"@);
    let a1 = tf.len() as int;
    assert(t.subrange(0, a1) =~= tf);
    assert(t[a1] == '(');
    assert(t.subrange(a1 + 1, a1 + 1 + tj.len() as int) =~= tj);
    assert(t[a1 + 1 + tj.len() as int] == ')');
    lemma_within(s, p, t, 0, a1);
    lemma_within(s, p, t, a1 + 1, a1 + 1 + tj.len() as int);
    assert(text_at(s, origin, p, f, toks, k));
    lemma_simple_expr_lexes(s, origin, p, f, toks, k);
    let c = p + a1;
    let kc = k + token_count(f);
    let rest = toks.subrange(kc, toks.len() as int);
    assert(rest[0] == toks[kc]);
    assert(rest.drop_first() =~= toks.subrange(kc + 1, toks.len() as int));
    assert(skip_ws(s, c) == c);
    lemma_scan_punct(s, c, c);
    lemma_take(s, c, Token::LPAREN, c + 1, rest);
    lemma_list_lexes(s, c + 1, c + 1, args, 0, toks, kc + 1);
    let c3 = c + 1 + tj.len();
    let k3 = kc + 1 + list_count(args, 0);
    let rest3 = toks.subrange(k3, toks.len() as int);
    assert(rest3.len() > 0);
    assert(rest3[0] == toks[k3]);
    assert(rest3.drop_first() =~= toks.subrange(k3 + 1, toks.len() as int));
    assert(skip_ws(s, c3) == c3);
    lemma_scan_punct(s, c3, c3);
    lemma_take(s, c3, Token::RPAREN, c3 + 1, rest3);
    assert(spells(toks, k, e));
}

#[verifier::rlimit(100)]
proof fn lemma_index_lexes(s: Seq<char>, origin: int, p: int, e: ExprV, toks: Seq<Token>, k: int)
    requires
        text_at(s, origin, p, e, toks, k),
        e is Index,
    ensures
        lexed_as(s, p, e, toks, k),
    decreases e, 0nat,
{
    lemma_literals();
    reveal_strlit("[");
    reveal_strlit("]");
    lemma_lex_setup(s, origin, p, e, toks, k);
    let l = *e->Index_0;
    let ix = *e->Index_1;
    let t = expr_text(e);
    let tl = expr_text(l);
    let ti = expr_text(ix);
    lemma_text_starts(ix);
    assert(t == tl + "["@ + ti + "]"@);
    let a1 = tl.len() as int;
    assert(t.subrange(0, a1) =~= tl);
    assert(t[a1] == '[');
    assert(t.subrange(a1 + 1, a1 + 1 + ti.len() as int) =~= ti);
    assert(t[a1 + 1 + ti.len() as int] == ']');
    lemma_within(s, p, t, 0, a1);
    lemma_within(s, p, t, a1 + 1, a1 + 1 + ti.len() as int);
    assert(text_at(s, origin, p, l, toks, k));
    lemma_simple_expr_lexes(s, origin, p, l, toks, k);
    let c = p + a1;
    let kc = k + token_count(l);
    let rest = toks.subrange(kc, toks.len() as int);
    assert(rest[0] == toks[kc]);
    assert(rest.drop_first() =~= toks.subrange(kc + 1, toks.len() as int));
    assert(skip_ws(s, c) == c);
    lemma_scan_punct(s, c, c);
    lemma_take(s, c, Token::LBRACKET, c + 1, rest);
    assert(forall|j: int| c + 1 <= j < c + 1 ==> #[trigger] s[j] == ' ');
    assert(text_at(s, c + 1, c + 1, ix, toks, kc + 1));
    lemma_simple_expr_lexes(s, c + 1, c + 1, ix, toks, kc + 1);
    let c3 = c + 1 + ti.len();
    let k3 = kc + 1 + token_count(ix);
    let rest3 = toks.subrange(k3, toks.len() as int);
    assert(rest3[0] == toks[k3]);
    assert(rest3.drop_first() =~= toks.subrange(k3 + 1, toks.len() as int));
    assert(skip_ws(s, c3) == c3);
    lemma_scan_punct(s, c3, c3);
    lemma_take(s, c3, Token::RBRACKET, c3 + 1, rest3);
    assert(spells(toks, k, e));
}

/// Scanning `s` from `origin`, where only spaces come before the text of `e` at
/// `p` and a delimiter after it, yields the tokens that spell `e`.
proof fn lemma_simple_expr_lexes(s: Seq<char>, origin: int, p: int, e: ExprV, toks: Seq<Token>, k: int)
    requires
        text_at(s, origin, p, e, toks, k),
    ensures
        lexed_as(s, p, e, toks, k),
    decreases e, 1nat,
{
    match e {
        ExprV::Prefix(_, _) => lemma_prefix_lexes(s, origin, p, e, toks, k),
        ExprV::Infix(_, _, _) => lemma_infix_lexes(s, origin, p, e, toks, k),
        ExprV::Array(_) => lemma_array_lexes(s, origin, p, e, toks, k),
        ExprV::Hash(_) => lemma_map_lexes(s, origin, p, e, toks, k),
        ExprV::Call(_, _) => lemma_call_lexes(s, origin, p, e, toks, k),
        ExprV::Index(_, _) => lemma_index_lexes(s, origin, p, e, toks, k),
        _ => lemma_atom_lexes(s, origin, p, e, toks, k),
    }
}

/// A name that lexes as an identifier: letters, and no keyword.
pub open spec fn simple_name(n: Seq<char>) -> bool {
    &&& n.len() > 0
    &&& forall|j: int| 0 <= j < n.len() ==> crate::lexer::is_letter_spec(#[trigger] n[j])
    &&& crate::token::keyword(n) is None
}

/// A `let` of a simple name, or a `return`, of a simple expression.
pub open spec fn simple_stmt(s: StmtV) -> bool {
    match s {
        StmtV::Let(n, e) => simple_name(n) && simple_expr(e),
        StmtV::Return(e) => simple_expr(e),
        _ => false,
    }
}

/// Simple statements, the last of which may also be a simple expression.
pub open spec fn simple_program(ss: Seq<StmtV>) -> bool {
    forall|i: int|
        0 <= i < ss.len() ==> simple_stmt(#[trigger] ss[i]) || (i == ss.len() - 1 && ss[i] is Expr
            && simple_expr(ss[i]->Expr_0))
}

pub open spec fn stmt_token_count(s: StmtV) -> nat {
    match s {
        StmtV::Let(_, e) => token_count(e) + 4,
        StmtV::Return(e) => token_count(e) + 2,
        StmtV::Expr(e) => token_count(e),
        StmtV::Block(_) => 0,
    }
}

/// The tokens from `k` on are those of the textual form of `s`.
pub open spec fn spells_stmt(toks: Seq<Token>, k: int, s: StmtV) -> bool {
    match s {
        StmtV::Let(n, e) => {
            &&& tok(toks, k) is LET
            &&& tok(toks, k + 1) is IDENT
            &&& tok(toks, k + 1)->IDENT_0@ == n
            &&& tok(toks, k + 2) is ASSIGN
            &&& spells(toks, k + 3, e)
            &&& tok(toks, k + 3 + token_count(e)) is SEMICOLON
        },
        StmtV::Return(e) => {
            &&& tok(toks, k) is RETURN
            &&& spells(toks, k + 1, e)
            &&& tok(toks, k + 1 + token_count(e)) is SEMICOLON
        },
        StmtV::Expr(e) => spells(toks, k, e),
        StmtV::Block(_) => false,
    }
}

/// The tokens from `k` on spell the statements of `ss` from `i` on, then
/// `EOF` as the last token.
pub open spec fn spells_from(toks: Seq<Token>, k: int, ss: Seq<StmtV>, i: int) -> bool
    decreases ss.len() - i,
{
    if 0 <= i < ss.len() {
        spells_stmt(toks, k, ss[i]) && spells_from(toks, k + stmt_token_count(ss[i]), ss, i + 1)
    } else {
        k == toks.len() - 1 && tok(toks, k) is EOF
    }
}


#[verifier::rlimit(100)]
proof fn lemma_stmt_parses(toks: Seq<Token>, k: int, s: StmtV)
    requires
        simple_stmt(s) || (s is Expr && simple_expr(s->Expr_0) && tok(toks, k + stmt_token_count(s))
            is EOF),
        spells_stmt(toks, k, s),
        0 <= k,
        k + stmt_token_count(s) < toks.len(),
    ensures
        p_stmt(toks, k) == Parsed::Ok((s, k + stmt_token_count(s) - 1)),
{
    match s {
        StmtV::Let(n, e) => {
            lemma_token_count_positive(e);
            lemma_simple_expr_parses(toks, k + 3, e, 0);
            let name = tok(toks, k + 1)->IDENT_0;
            assert(p_let(toks, k) == Parsed::Ok((StmtV::Let(name@, e), k + 3 + token_count(e))));
        },
        StmtV::Return(e) => {
            lemma_token_count_positive(e);
            lemma_simple_expr_parses(toks, k + 1, e, 0);
        },
        StmtV::Expr(e) => {
            lemma_token_count_positive(e);
            lemma_spells_first(toks, k, e);
            lemma_simple_expr_parses(toks, k, e, 0);
        },
        _ => {},
    }
}

proof fn lemma_stmt_first(toks: Seq<Token>, k: int, s: StmtV)
    requires
        simple_stmt(s) || (s is Expr && simple_expr(s->Expr_0)),
        spells_stmt(toks, k, s),
    ensures
        0 <= k < toks.len(),
        !(tok(toks, k) is EOF),
        stmt_token_count(s) >= 1,
{
    match s {
        StmtV::Expr(e) => {
            lemma_spells_first(toks, k, e);
            lemma_token_count_positive(e);
        },
        _ => {},
    }
}

/// Parsing tokens that spell the statements of `ss` from `i` on gives them
/// back, after `acc`.
proof fn lemma_program_parses(toks: Seq<Token>, k: int, ss: Seq<StmtV>, i: int, acc: Seq<StmtV>)
    requires
        simple_program(ss),
        0 <= i <= ss.len(),
        0 <= k,
        spells_from(toks, k, ss, i),
    ensures
        p_program(toks, k, acc) == Ok::<Seq<StmtV>, (int, Seq<char>)>(acc + ss.subrange(i, ss.len() as int)),
    decreases ss.len() - i,
{
    if i == ss.len() {
        assert(acc + ss.subrange(i, ss.len() as int) =~= acc);
    } else {
        let s = ss[i];
        let c = stmt_token_count(s);
        assert(simple_stmt(s) || (i == ss.len() - 1 && s is Expr && simple_expr(s->Expr_0)));
        assert(spells_stmt(toks, k, s));
        assert(spells_from(toks, k + c, ss, i + 1));
        lemma_stmt_first(toks, k, s);
        if i + 1 < ss.len() {
            assert(simple_stmt(ss[i + 1]) || (ss[i + 1] is Expr && simple_expr(ss[i + 1]->Expr_0)));
            assert(spells_stmt(toks, k + c, ss[i + 1]));
            lemma_stmt_first(toks, k + c, ss[i + 1]);
        } else {
            assert(k + c == toks.len() - 1 && tok(toks, k + c) is EOF);
        }
        lemma_stmt_parses(toks, k, s);
        assert(adv(toks, k + c - 1) == k + c);
        lemma_program_parses(toks, k + c, ss, i + 1, acc.push(s));
        assert(p_program(toks, k, acc) == p_program(toks, k + c, acc.push(s)));
        assert(acc.push(s) + ss.subrange(i + 1, ss.len() as int) =~= acc + ss.subrange(
            i,
            ss.len() as int,
        ));
    }
}

proof fn lemma_take_any(s: Seq<char>, origin: int, q: int, rest: Seq<Token>)
    requires
        forall|x: Token| scanned(s, origin, x) ==> !(x is EOF),
        next_pos(s, origin) == q,
        lexes_from(s, origin, rest),
    ensures
        rest.len() > 1,
        scanned(s, origin, rest[0]),
        lexes_from(s, q, rest.drop_first()),
{
    reveal_with_fuel(lexes_from, 2);
}

/// A run of letters from `p` to `q`, followed by a non-letter, scans as the
/// keyword or identifier it spells.
proof fn lemma_scan_word(s: Seq<char>, origin: int, p: int, q: int)
    requires
        0 <= origin <= p < q <= s.len(),
        forall|j: int| origin <= j < p ==> #[trigger] s[j] == ' ',
        forall|j: int| p <= j < q ==> is_letter_spec(#[trigger] s[j]),
        !is_letter_spec(char_at(s, q)),
    ensures
        next_pos(s, origin) == q,
        forall|x: Token| #[trigger] scanned(s, origin, x) <==> match crate::token::keyword(s.subrange(p, q)) {
            Some(kw) => x == kw,
            None => x is IDENT && x->IDENT_0@ == s.subrange(p, q),
        },
{
    lemma_skip_spaces(s, origin, p);
    lemma_ident_end_run(s, p, q);
}

#[verifier::rlimit(100)]
proof fn lemma_let_lexes(s: Seq<char>, p: int, st: StmtV, toks: Seq<Token>, k: int)
    requires
        simple_stmt(st),
        st is Let,
        0 <= p,
        p + stmt_text(st).len() <= s.len(),
        s.subrange(p, p + stmt_text(st).len()) == stmt_text(st),
        0 <= k <= toks.len(),
        lexes_from(s, p, toks.subrange(k, toks.len() as int)),
    ensures
        spells_stmt(toks, k, st),
        k + stmt_token_count(st) < toks.len(),
        lexes_from(
            s,
            p + stmt_text(st).len(),
            toks.subrange(k + stmt_token_count(st), toks.len() as int),
        ),
{
    lemma_literals();
    reveal_strlit("let ");
    reveal_strlit(" = ");
    reveal_strlit(";");
    let n = st->Let_0;
    let e = st->Let_1;
    let t = stmt_text(st);
    let te = expr_text(e);
    lemma_text_starts(e);
    assert(t == "let "@ + n + " = "@ + te + ";"@);
    let b1 = 4 + n.len() as int;
    let b2 = b1 + 3;
    let b3 = b2 + te.len() as int;
    assert(t.len() == b3 + 1);
    assert(t.subrange(0, 3) =~= seq!['l', 'e', 't']);
    assert(t[3] == ' ');
    assert(t.subrange(4, b1) =~= n);
    assert(t[b1] == ' ');
    assert(t[b1 + 1] == '=');
    assert(t[b1 + 2] == ' ');
    assert(t.subrange(b2, b3) =~= te);
    assert(t[b3] == ';');
    lemma_within(s, p, t, 0, t.len() as int);
    lemma_within(s, p, t, 0, 3);
    lemma_within(s, p, t, 4, b1);
    lemma_within(s, p, t, b2, b3);
    let rest = toks.subrange(k, toks.len() as int);
    lemma_scan_word(s, p, p, p + 3);
    lemma_take(s, p, Token::LET, p + 3, rest);
    assert(rest.drop_first() =~= toks.subrange(k + 1, toks.len() as int));
    let rest1 = toks.subrange(k + 1, toks.len() as int);
    assert forall|j: int| p + 4 <= j < p + b1 implies is_letter_spec(#[trigger] s[j]) by {
        assert(s[p + (j - p)] == t[j - p]);
        assert(t.subrange(4, b1)[j - p - 4] == t[j - p]);
    }
    lemma_scan_word(s, p + 3, p + 4, p + b1);
    lemma_take_any(s, p + 3, p + b1, rest1);
    assert(rest1[0] == toks[k + 1]);
    assert(rest1.drop_first() =~= toks.subrange(k + 2, toks.len() as int));
    let rest2 = toks.subrange(k + 2, toks.len() as int);
    lemma_skip_spaces(s, p + b1, p + b1 + 1);
    assert(forall|x: Token| #[trigger] scanned(s, p + b1, x) ==> x == Token::ASSIGN);
    assert(next_pos(s, p + b1) == p + b1 + 2);
    lemma_take(s, p + b1, Token::ASSIGN, p + b1 + 2, rest2);
    assert(rest2[0] == toks[k + 2]);
    assert(rest2.drop_first() =~= toks.subrange(k + 3, toks.len() as int));
    lemma_simple_expr_lexes(s, p + b1 + 2, p + b2, e, toks, k + 3);
    let k4 = k + 3 + token_count(e);
    let rest4 = toks.subrange(k4, toks.len() as int);
    assert(rest4[0] == toks[k4]);
    assert(rest4.drop_first() =~= toks.subrange(k4 + 1, toks.len() as int));
    assert(skip_ws(s, p + b3) == p + b3);
    lemma_scan_punct(s, p + b3, p + b3);
    lemma_take(s, p + b3, Token::SEMICOLON, p + b3 + 1, rest4);
}

#[verifier::rlimit(100)]
proof fn lemma_return_lexes(s: Seq<char>, p: int, st: StmtV, toks: Seq<Token>, k: int)
    requires
        simple_stmt(st),
        st is Return,
        0 <= p,
        p + stmt_text(st).len() <= s.len(),
        s.subrange(p, p + stmt_text(st).len()) == stmt_text(st),
        0 <= k <= toks.len(),
        lexes_from(s, p, toks.subrange(k, toks.len() as int)),
    ensures
        spells_stmt(toks, k, st),
        k + stmt_token_count(st) < toks.len(),
        lexes_from(
            s,
            p + stmt_text(st).len(),
            toks.subrange(k + stmt_token_count(st), toks.len() as int),
        ),
{
    lemma_literals();
    reveal_strlit("return ");
    reveal_strlit(";");
    let e = st->Return_0;
    let t = stmt_text(st);
    let te = expr_text(e);
    lemma_text_starts(e);
    assert(t == "return "@ + te + ";"@);
    let b3 = 7 + te.len() as int;
    assert(t.len() == b3 + 1);
    assert(t.subrange(0, 6) =~= seq!['r', 'e', 't', 'u', 'r', 'n']);
    assert(t[6] == ' ');
    assert(t.subrange(7, b3) =~= te);
    assert(t[b3] == ';');
    lemma_within(s, p, t, 0, t.len() as int);
    lemma_within(s, p, t, 0, 6);
    lemma_within(s, p, t, 7, b3);
    let rest = toks.subrange(k, toks.len() as int);
    lemma_scan_word(s, p, p, p + 6);
    lemma_take(s, p, Token::RETURN, p + 6, rest);
    assert(rest.drop_first() =~= toks.subrange(k + 1, toks.len() as int));
    lemma_simple_expr_lexes(s, p + 6, p + 7, e, toks, k + 1);
    let k4 = k + 1 + token_count(e);
    let rest4 = toks.subrange(k4, toks.len() as int);
    assert(rest4[0] == toks[k4]);
    assert(rest4.drop_first() =~= toks.subrange(k4 + 1, toks.len() as int));
    assert(skip_ws(s, p + b3) == p + b3);
    lemma_scan_punct(s, p + b3, p + b3);
    lemma_take(s, p + b3, Token::SEMICOLON, p + b3 + 1, rest4);
}

/// Text of the first `i` statements.
pub open spec fn leading_text(ss: Seq<StmtV>, i: int) -> Seq<char> {
    stmts_text(ss.subrange(0, i))
}

proof fn lemma_leading_text(ss: Seq<StmtV>, i: int, j: int)
    requires
        0 <= i <= j <= ss.len(),
    ensures
        leading_text(ss, i).len() <= leading_text(ss, j).len(),
        leading_text(ss, j).subrange(0, leading_text(ss, i).len() as int) == leading_text(ss, i),
    decreases j - i,
{
    if i < j {
        lemma_leading_text(ss, i, j - 1);
        let a = ss.subrange(0, j);
        assert(a.drop_last() =~= ss.subrange(0, j - 1));
        assert(stmts_text(a) == stmts_text(a.drop_last()) + stmt_text(a.last()));
        assert(leading_text(ss, j).subrange(0, leading_text(ss, i).len() as int) =~= leading_text(
            ss,
            i,
        ));
    } else {
        assert(leading_text(ss, j).subrange(0, leading_text(ss, i).len() as int) =~= leading_text(
            ss,
            i,
        ));
    }
}

/// Where statement `i` stands in the text of the program.
proof fn lemma_stmt_in_text(ss: Seq<StmtV>, i: int)
    requires
        0 <= i < ss.len(),
    ensures
        leading_text(ss, i + 1) == leading_text(ss, i) + stmt_text(ss[i]),
        leading_text(ss, i + 1).len() <= stmts_text(ss).len(),
        stmts_text(ss).subrange(
            leading_text(ss, i).len() as int,
            leading_text(ss, i + 1).len() as int,
        ) == stmt_text(ss[i]),
{
    let a = ss.subrange(0, i + 1);
    assert(a.drop_last() =~= ss.subrange(0, i));
    assert(ss.subrange(0, ss.len() as int) =~= ss);
    lemma_leading_text(ss, i + 1, ss.len() as int);
    let s = stmts_text(ss);
    let p = leading_text(ss, i).len() as int;
    let q = leading_text(ss, i + 1).len() as int;
    assert(s.subrange(0, q) == leading_text(ss, i + 1));
    assert(s.subrange(p, q) =~= leading_text(ss, i + 1).subrange(p, q));
    assert(leading_text(ss, i + 1).subrange(p, q) =~= stmt_text(ss[i]));
}

proof fn lemma_program_lexes(ss: Seq<StmtV>, i: int, toks: Seq<Token>, k: int)
    requires
        simple_program(ss),
        0 <= i <= ss.len(),
        0 <= k <= toks.len(),
        lexes_from(stmts_text(ss), leading_text(ss, i).len() as int, toks.subrange(k, toks.len() as int)),
    ensures
        spells_from(toks, k, ss, i),
    decreases ss.len() - i,
{
    let s = stmts_text(ss);
    let rest = toks.subrange(k, toks.len() as int);
    if i == ss.len() {
        assert(ss.subrange(0, i) =~= ss);
        crate::lexer::lemma_lex_end(s, rest);
        assert(rest.len() == 1);
        assert(toks[k] == rest[0]);
    } else {
        let st = ss[i];
        lemma_stmt_in_text(ss, i);
        let p = leading_text(ss, i).len() as int;
        let q = leading_text(ss, i + 1).len() as int;
        assert(q == p + stmt_text(st).len());
        match st {
            StmtV::Let(_, _) => {
                lemma_let_lexes(s, p, st, toks, k);
            },
            StmtV::Return(_) => {
                lemma_return_lexes(s, p, st, toks, k);
            },
            StmtV::Expr(e) => {
                assert(i == ss.len() - 1);
                assert(ss.subrange(0, i + 1) =~= ss);
                assert(q == s.len());
                assert(forall|j: int| p <= j < p ==> #[trigger] s[j] == ' ');
                lemma_simple_expr_lexes(s, p, p, e, toks, k);
            },
            StmtV::Block(_) => {},
        }
        lemma_program_lexes(ss, i + 1, toks, k + stmt_token_count(st));
    }
}

/// Display, then lex and parse again, gives back the same program: shown
/// for programs of `let` and `return` statements over simple expressions,
/// the last of which may be a simple expression. (A literal below zero, a
/// string, or two expression statements in a row do not survive the
/// textual form.)
pub proof fn lemma_simple_program_round_trip(ss: Seq<StmtV>, toks: Seq<Token>)
    requires
        simple_program(ss),
        lexes_from(stmts_text(ss), 0, toks),
    ensures
        p_program(toks, 0, Seq::empty()) == Ok::<Seq<StmtV>, (int, Seq<char>)>(ss),
{
    assert(ss.subrange(0, 0) =~= Seq::<StmtV>::empty());
    assert(toks.subrange(0, toks.len() as int) =~= toks);
    lemma_program_lexes(ss, 0, toks, 0);
    lemma_program_parses(toks, 0, ss, 0, Seq::empty());
    assert(Seq::<StmtV>::empty() + ss.subrange(0, ss.len() as int) =~= ss);
}

} // verus!
