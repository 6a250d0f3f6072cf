use vstd::prelude::*;
use vstd::string::*;

use crate::text::{bool_text, int_text, int_to_string, join, join_strings, bool_to_string};

verus! {

broadcast use vstd::std_specs::vec::axiom_vec_index_decreases;

#[derive(Debug, Clone, Copy, PartialEq, Eq, Structural)]
pub enum PrefixOprator {
    Minus,
    Bang,
}

/// Binary operators; `Lparen` stands for a call and `Assign` for `=`.
#[derive(Debug, Clone, Copy, PartialEq, Eq, Structural)]
pub enum InfixOprator {
    Plus,
    Minus,
    Slash,
    Asterisk,
    Gt,
    Lt,
    Assign,
    Equal,
    Nequal,
    Lparen,
}

#[derive(Debug, PartialEq, Eq)]
pub enum Expression {
    Identifier(String),
    Integer(i32),
    Bool(bool),
    String(String),
    Array(Vec<Expression>),
    Prefix { operator: PrefixOprator, right: Box<Expression> },
    Infix { left: Box<Expression>, operator: InfixOprator, right: Box<Expression> },
    If {
        condition: Box<Expression>,
        consequence: Box<Statement>,
        alternative: Option<Box<Statement>>,
    },
    Function { parameters: Vec<Expression>, body: Box<Statement> },
    Call { function: Box<Expression>, arguments: Vec<Expression> },
    Index { left: Box<Expression>, index: Box<Expression> },
    /// `array` is always an array literal.
    For { parameter: String, array: Box<Expression>, statement: Box<Statement> },
    /// Key and value pairs in source order.
    Hash(Vec<(Expression, Expression)>),
}

#[derive(Debug, PartialEq, Eq)]
pub enum Statement {
    Let { name: String, value: Expression },
    Return(Expression),
    Expression(Expression),
    Block(Vec<Statement>),
}

#[derive(Debug, PartialEq, Eq)]
pub struct Program {
    pub statements: Vec<Statement>,
}

/// Mathematical model of an expression.
pub enum ExprV {
    Ident(Seq<char>),
    Int(i32),
    Bool(bool),
    Str(Seq<char>),
    Array(Seq<ExprV>),
    Prefix(PrefixOprator, Box<ExprV>),
    Infix(Box<ExprV>, InfixOprator, Box<ExprV>),
    If(Box<ExprV>, Box<StmtV>, Option<Box<StmtV>>),
    Function(Seq<ExprV>, Box<StmtV>),
    Call(Box<ExprV>, Seq<ExprV>),
    Index(Box<ExprV>, Box<ExprV>),
    For(Seq<char>, Box<ExprV>, Box<StmtV>),
    Hash(Seq<(ExprV, ExprV)>),
}

/// Mathematical model of a statement.
pub enum StmtV {
    Let(Seq<char>, ExprV),
    Return(ExprV),
    Expr(ExprV),
    Block(Seq<StmtV>),
}

impl Expression {
    pub open spec fn view(&self) -> ExprV
        decreases self,
    {
        match self {
            Expression::Identifier(s) => ExprV::Ident(s@),
            Expression::Integer(i) => ExprV::Int(*i),
            Expression::Bool(b) => ExprV::Bool(*b),
            Expression::String(s) => ExprV::Str(s@),
            Expression::Array(v) => ExprV::Array(
                Seq::new(
                    v.len() as nat,
                    |i: int|
                        if 0 <= i < v.len() {
                            v[i].view()
                        } else {
                            ExprV::Int(0)
                        },
                ),
            ),
            Expression::Prefix { operator, right } => ExprV::Prefix(
                *operator,
                Box::new(right.view()),
            ),
            Expression::Infix { left, operator, right } => ExprV::Infix(
                Box::new(left.view()),
                *operator,
                Box::new(right.view()),
            ),
            Expression::If { condition, consequence, alternative } => ExprV::If(
                Box::new(condition.view()),
                Box::new(consequence.view()),
                match alternative {
                    Some(a) => Some(Box::new(a.view())),
                    None => None,
                },
            ),
            Expression::Function { parameters, body } => ExprV::Function(
                Seq::new(
                    parameters.len() as nat,
                    |i: int|
                        if 0 <= i < parameters.len() {
                            parameters[i].view()
                        } else {
                            ExprV::Int(0)
                        },
                ),
                Box::new(body.view()),
            ),
            Expression::Call { function, arguments } => ExprV::Call(
                Box::new(function.view()),
                Seq::new(
                    arguments.len() as nat,
                    |i: int|
                        if 0 <= i < arguments.len() {
                            arguments[i].view()
                        } else {
                            ExprV::Int(0)
                        },
                ),
            ),
            Expression::Index { left, index } => ExprV::Index(
                Box::new(left.view()),
                Box::new(index.view()),
            ),
            Expression::For { parameter, array, statement } => ExprV::For(
                parameter@,
                Box::new(array.view()),
                Box::new(statement.view()),
            ),
            Expression::Hash(v) => ExprV::Hash(
                Seq::new(
                    v.len() as nat,
                    |i: int|
                        if 0 <= i < v.len() {
                            (v[i].0.view(), v[i].1.view())
                        } else {
                            (ExprV::Int(0), ExprV::Int(0))
                        },
                ),
            ),
        }
    }
}

impl Statement {
    pub open spec fn view(&self) -> StmtV
        decreases self,
    {
        match self {
            Statement::Let { name, value } => StmtV::Let(name@, value.view()),
            Statement::Return(e) => StmtV::Return(e.view()),
            Statement::Expression(e) => StmtV::Expr(e.view()),
            Statement::Block(v) => StmtV::Block(
                Seq::new(
                    v.len() as nat,
                    |i: int|
                        if 0 <= i < v.len() {
                            v[i].view()
                        } else {
                            StmtV::Block(Seq::empty())
                        },
                ),
            ),
        }
    }
}

/// Views of the expressions in `v`.
pub open spec fn exprs_view(v: Seq<Expression>) -> Seq<ExprV> {
    Seq::new(v.len(), |i: int| v[i].view())
}

/// Views of the statements in `v`.
pub open spec fn stmts_view(v: Seq<Statement>) -> Seq<StmtV> {
    Seq::new(v.len(), |i: int| v[i].view())
}

impl Program {
    pub open spec fn view(&self) -> Seq<StmtV> {
        stmts_view(self.statements@)
    }
}

pub open spec fn prefix_text(op: PrefixOprator) -> Seq<char> {
    match op {
        PrefixOprator::Minus => "-"@,
        PrefixOprator::Bang => "!"@,
    }
}

pub open spec fn infix_text(op: InfixOprator) -> Seq<char> {
    match op {
        InfixOprator::Plus => "+"@,
        InfixOprator::Minus => "-"@,
        InfixOprator::Slash => "/"@,
        InfixOprator::Asterisk => "*"@,
        InfixOprator::Gt => ">"@,
        InfixOprator::Lt => "<"@,
        InfixOprator::Assign => "="@,
        InfixOprator::Equal => "=="@,
        InfixOprator::Nequal => "!="@,
        InfixOprator::Lparen => "("@,
    }
}

/// The text of each expression in `s`.
pub open spec fn expr_text_items(s: Seq<ExprV>) -> Seq<Seq<char>>
    decreases s, 0int,
{
    Seq::new(
        s.len(),
        |i: int|
            if 0 <= i < s.len() {
                expr_text(s[i])
            } else {
                Seq::empty()
            },
    )
}

/// Texts of the expressions in `s`, joined by `", "`.
pub open spec fn exprs_text(s: Seq<ExprV>) -> Seq<char>
    decreases s, 1int,
{
    join(expr_text_items(s), ", "@)
}

/// The text `key: value` of each pair in `s`.
pub open spec fn pair_text_items(s: Seq<(ExprV, ExprV)>) -> Seq<Seq<char>>
    decreases s, 0int,
{
    Seq::new(
        s.len(),
        |i: int|
            if 0 <= i < s.len() {
                expr_text(s[i].0) + ": "@ + expr_text(s[i].1)
            } else {
                Seq::empty()
            },
    )
}

/// Texts of the pairs in `s` as `key: value`, joined by `", "`.
pub open spec fn pairs_text(s: Seq<(ExprV, ExprV)>) -> Seq<char>
    decreases s, 1int,
{
    join(pair_text_items(s), ", "@)
}

/// The textual form of an expression. Prefix and binary operations are
/// fully parenthesised.
pub open spec fn expr_text(e: ExprV) -> Seq<char>
    decreases e,
{
    match e {
        ExprV::Ident(s) => s,
        ExprV::Int(i) => int_text(i as int),
        ExprV::Bool(b) => bool_text(b),
        ExprV::Str(s) => s,
        ExprV::Array(s) => "["@ + exprs_text(s) + "]"@,
        ExprV::Prefix(op, r) => "("@ + prefix_text(op) + expr_text(*r) + ")"@,
        ExprV::Infix(l, op, r) => "("@ + expr_text(*l) + " "@ + infix_text(op) + " "@ + expr_text(
            *r,
        ) + ")"@,
        ExprV::If(c, t, a) => "if "@ + expr_text(*c) + " { "@ + stmt_text(*t) + " }"@ + match a {
            Some(a) => " else { "@ + stmt_text(*a) + " }"@,
            None => Seq::empty(),
        },
        ExprV::Function(ps, b) => "fn("@ + exprs_text(ps) + ") { "@ + stmt_text(*b) + " }"@,
        ExprV::Call(f, args) => expr_text(*f) + "("@ + exprs_text(args) + ")"@,
        ExprV::Index(l, i) => expr_text(*l) + "["@ + expr_text(*i) + "]"@,
        ExprV::For(p, a, b) => "for "@ + p + " in "@ + expr_text(*a) + " { "@ + stmt_text(*b)
            + " }"@,
        ExprV::Hash(s) => "{ "@ + pairs_text(s) + " }"@,
    }
}

/// Texts of the statements in `s`, one after another.
pub open spec fn stmts_text(s: Seq<StmtV>) -> Seq<char>
    decreases s, s.len(),
{
    if s.len() == 0 {
        Seq::empty()
    } else {
        stmts_text(s.drop_last()) + stmt_text(s.last())
    }
}

/// The textual form of a statement; a block is its statements one after
/// another.
pub open spec fn stmt_text(s: StmtV) -> Seq<char>
    decreases s,
{
    match s {
        StmtV::Let(n, v) => "let "@ + n + " = "@ + expr_text(v) + ";"@,
        StmtV::Return(e) => "return "@ + expr_text(e) + ";"@,
        StmtV::Expr(e) => expr_text(e),
        StmtV::Block(ss) => stmts_text(ss),
    }
}

/// The list form of `Expression::Array`'s view, and likewise for the other
/// variants that hold a `Vec`.
pub proof fn lemma_vec_views(e: Expression)
    ensures
        e is Array ==> e.view() == ExprV::Array(exprs_view(e->Array_0@)),
        e is Function ==> e.view() == ExprV::Function(
            exprs_view(e->parameters@),
            Box::new(e->body.view()),
        ),
        e is Call ==> e.view() == ExprV::Call(
            Box::new(e->function.view()),
            exprs_view(e->arguments@),
        ),
{
    if e is Array {
        assert(e.view()->Array_0 =~= exprs_view(e->Array_0@));
    }
    if e is Function {
        assert(e.view()->Function_0 =~= exprs_view(e->parameters@));
    }
    if e is Call {
        assert(e.view()->Call_1 =~= exprs_view(e->arguments@));
    }
}

pub proof fn lemma_block_view(s: Statement)
    ensures
        s is Block ==> s.view() == StmtV::Block(stmts_view(s->Block_0@)),
{
    if s is Block {
        assert(s.view()->Block_0 =~= stmts_view(s->Block_0@));
    }
}

impl PrefixOprator {
    /// The operator's symbol.
    pub fn to_string(&self) -> (r: String)
        ensures
            r@ == prefix_text(*self),
    {
        match self {
            PrefixOprator::Minus => String::from_str("-"),
            PrefixOprator::Bang => String::from_str("!"),
        }
    }
}

impl InfixOprator {
    /// The operator's symbol.
    pub fn to_string(&self) -> (r: String)
        ensures
            r@ == infix_text(*self),
    {
        match self {
            InfixOprator::Plus => String::from_str("+"),
            InfixOprator::Minus => String::from_str("-"),
            InfixOprator::Slash => String::from_str("/"),
            InfixOprator::Asterisk => String::from_str("*"),
            InfixOprator::Gt => String::from_str(">"),
            InfixOprator::Lt => String::from_str("<"),
            InfixOprator::Assign => String::from_str("="),
            InfixOprator::Equal => String::from_str("=="),
            InfixOprator::Nequal => String::from_str("!="),
            InfixOprator::Lparen => String::from_str("("),
        }
    }
}

/// The texts of `v`, joined by `", "`.
fn exprs_to_string(v: &Vec<Expression>) -> (r: String)
    ensures
        r@ == exprs_text(exprs_view(v@)),
    decreases v,
{
    let mut items: Vec<String> = Vec::new();
    let mut i: usize = 0;
    while i < v.len()
        invariant
            i <= v.len(),
            items.len() == i,
            forall|j: int| 0 <= j < i ==> #[trigger] items[j]@ == expr_text(v[j].view()),
        decreases v.len() - i,
    {
        proof {
            assert(decreases_to!(*v => v[i as int]));
        }
        items.push(v[i].to_string());
        i = i + 1;
    }
    let r = join_strings(&items, ", ");
    proof {
        let s = exprs_view(v@);
        assert(Seq::new(items.len() as nat, |i: int| items[i]@) =~= expr_text_items(s));
    }
    r
}

/// The texts of `v` one after another.
fn stmts_to_string(v: &Vec<Statement>) -> (r: String)
    ensures
        r@ == stmts_text(stmts_view(v@)),
    decreases v,
{
    let mut out = String::new();
    let mut i: usize = 0;
    while i < v.len()
        invariant
            i <= v.len(),
            out@ == stmts_text(stmts_view(v@.subrange(0, i as int))),
        decreases v.len() - i,
    {
        proof {
            assert(decreases_to!(*v => v[i as int]));
        }
        let t = v[i].to_string();
        out.append(t.as_str());
        proof {
            let next = stmts_view(v@.subrange(0, i + 1));
            assert(next.drop_last() =~= stmts_view(v@.subrange(0, i as int)));
        }
        i = i + 1;
    }
    assert(v@.subrange(0, v.len() as int) =~= v@);
    out
}

/// The pairs of `v` as `key: value`, joined by `", "`.
fn pairs_to_string(v: &Vec<(Expression, Expression)>) -> (r: String)
    ensures
        r@ == pairs_text(
            Seq::new(v.len() as nat, |i: int| (v[i].0.view(), v[i].1.view())),
        ),
    decreases v,
{
    let mut items: Vec<String> = Vec::new();
    let mut i: usize = 0;
    while i < v.len()
        invariant
            i <= v.len(),
            items.len() == i,
            forall|j: int|
                0 <= j < i ==> #[trigger] items[j]@ == expr_text(v[j].0.view()) + ": "@
                    + expr_text(v[j].1.view()),
        decreases v.len() - i,
    {
        proof {
            assert(decreases_to!(*v => v[i as int]));
            assert(decreases_to!(v[i as int] => v[i as int].0));
            assert(decreases_to!(v[i as int] => v[i as int].1));
        }
        let mut t = v[i].0.to_string();
        t.append(": ");
        let u = v[i].1.to_string();
        t.append(u.as_str());
        items.push(t);
        i = i + 1;
    }
    let r = join_strings(&items, ", ");
    proof {
        let s = Seq::new(v.len() as nat, |i: int| (v[i].0.view(), v[i].1.view()));
        assert(Seq::new(items.len() as nat, |i: int| items[i]@) =~= pair_text_items(s));
    }
    r
}

impl Expression {
    /// The textual form of this expression.
    pub fn to_string(&self) -> (r: String)
        ensures
            r@ == expr_text(self.view()),
        decreases self,
    {
        proof {
            lemma_vec_views(*self);
        }
        match self {
            Expression::Identifier(s) => s.clone(),
            Expression::Integer(i) => int_to_string(*i),
            Expression::Bool(b) => bool_to_string(*b),
            Expression::String(s) => s.clone(),
            Expression::Array(v) => {
                proof {
                    assert(decreases_to!(*self => self->Array_0));
                }
                let mut r = String::from_str("[");
                let t = exprs_to_string(v);
                r.append(t.as_str());
                r.append("]");
                r
            },
            Expression::Prefix { operator, right } => {
                let mut r = String::from_str("(");
                let o = operator.to_string();
                r.append(o.as_str());
                let t = right.to_string();
                r.append(t.as_str());
                r.append(")");
                r
            },
            Expression::Infix { left, operator, right } => {
                let mut r = String::from_str("(");
                let l = left.to_string();
                r.append(l.as_str());
                r.append(" ");
                let o = operator.to_string();
                r.append(o.as_str());
                r.append(" ");
                let t = right.to_string();
                r.append(t.as_str());
                r.append(")");
                r
            },
            Expression::If { condition, consequence, alternative } => {
                let mut r = String::from_str("if ");
                let c = condition.to_string();
                r.append(c.as_str());
                r.append(" { ");
                let t = consequence.to_string();
                r.append(t.as_str());
                r.append(" }");
                match alternative {
                    Some(a) => {
                        r.append(" else { ");
                        let u = a.to_string();
                        r.append(u.as_str());
                        r.append(" }");
                    },
                    None => {},
                }
                r
            },
            Expression::Function { parameters, body } => {
                proof {
                    assert(decreases_to!(*self => self->parameters));
                }
                let mut r = String::from_str("fn(");
                let p = exprs_to_string(parameters);
                r.append(p.as_str());
                r.append(") { ");
                let b = body.to_string();
                r.append(b.as_str());
                r.append(" }");
                r
            },
            Expression::Call { function, arguments } => {
                proof {
                    assert(decreases_to!(*self => self->arguments));
                }
                let mut r = function.to_string();
                r.append("(");
                let a = exprs_to_string(arguments);
                r.append(a.as_str());
                r.append(")");
                r
            },
            Expression::Index { left, index } => {
                let mut r = left.to_string();
                r.append("[");
                let i = index.to_string();
                r.append(i.as_str());
                r.append("]");
                r
            },
            Expression::For { parameter, array, statement } => {
                let mut r = String::from_str("for ");
                r.append(parameter.as_str());
                r.append(" in ");
                let a = array.to_string();
                r.append(a.as_str());
                r.append(" { ");
                let b = statement.to_string();
                r.append(b.as_str());
                r.append(" }");
                r
            },
            Expression::Hash(v) => {
                proof {
                    assert(decreases_to!(*self => self->Hash_0));
                    assert(self.view()->Hash_0 =~= Seq::new(
                        v.len() as nat,
                        |i: int| (v[i].0.view(), v[i].1.view()),
                    ));
                }
                let mut r = String::from_str("{ ");
                let p = pairs_to_string(v);
                r.append(p.as_str());
                r.append(" }");
                r
            },
        }
    }
}

impl Statement {
    /// The textual form of this statement.
    pub fn to_string(&self) -> (r: String)
        ensures
            r@ == stmt_text(self.view()),
        decreases self,
    {
        proof {
            lemma_block_view(*self);
        }
        match self {
            Statement::Let { name, value } => {
                let mut r = String::from_str("let ");
                r.append(name.as_str());
                r.append(" = ");
                let v = value.to_string();
                r.append(v.as_str());
                r.append(";");
                r
            },
            Statement::Return(e) => {
                let mut r = String::from_str("return ");
                let v = e.to_string();
                r.append(v.as_str());
                r.append(";");
                r
            },
            Statement::Expression(e) => e.to_string(),
            Statement::Block(v) => {
                proof {
                    assert(decreases_to!(*self => self->Block_0));
                }
                stmts_to_string(v)
            },
        }
    }
}

impl Program {
    /// The textual form of the program: its statements one after another.
    pub fn to_string(&self) -> (r: String)
        ensures
            r@ == stmts_text(self.view()),
    {
        stmts_to_string(&self.statements)
    }
}

fn duplicate_exprs(v: &Vec<Expression>) -> (r: Vec<Expression>)
    ensures
        exprs_view(r@) == exprs_view(v@),
    decreases v,
{
    let mut out: Vec<Expression> = Vec::new();
    let mut i: usize = 0;
    while i < v.len()
        invariant
            i <= v.len(),
            out.len() == i,
            forall|j: int| 0 <= j < i ==> #[trigger] out[j].view() == v[j].view(),
        decreases v.len() - i,
    {
        proof {
            assert(decreases_to!(*v => v[i as int]));
        }
        out.push(v[i].duplicate());
        i = i + 1;
    }
    assert(exprs_view(out@) =~= exprs_view(v@));
    out
}

fn duplicate_stmts(v: &Vec<Statement>) -> (r: Vec<Statement>)
    ensures
        stmts_view(r@) == stmts_view(v@),
    decreases v,
{
    let mut out: Vec<Statement> = Vec::new();
    let mut i: usize = 0;
    while i < v.len()
        invariant
            i <= v.len(),
            out.len() == i,
            forall|j: int| 0 <= j < i ==> #[trigger] out[j].view() == v[j].view(),
        decreases v.len() - i,
    {
        proof {
            assert(decreases_to!(*v => v[i as int]));
        }
        out.push(v[i].duplicate());
        i = i + 1;
    }
    assert(stmts_view(out@) =~= stmts_view(v@));
    out
}

impl Expression {
    /// A copy with the same view.
    pub fn duplicate(&self) -> (r: Expression)
        ensures
            r.view() == self.view(),
        decreases self,
    {
        proof {
            lemma_vec_views(*self);
        }
        let r = match self {
            Expression::Identifier(s) => Expression::Identifier(s.clone()),
            Expression::Integer(i) => Expression::Integer(*i),
            Expression::Bool(b) => Expression::Bool(*b),
            Expression::String(s) => Expression::String(s.clone()),
            Expression::Array(v) => {
                proof {
                    assert(decreases_to!(*self => self->Array_0));
                }
                Expression::Array(duplicate_exprs(v))
            },
            Expression::Prefix { operator, right } => Expression::Prefix {
                operator: *operator,
                right: Box::new(right.duplicate()),
            },
            Expression::Infix { left, operator, right } => Expression::Infix {
                left: Box::new(left.duplicate()),
                operator: *operator,
                right: Box::new(right.duplicate()),
            },
            Expression::If { condition, consequence, alternative } => Expression::If {
                condition: Box::new(condition.duplicate()),
                consequence: Box::new(consequence.duplicate()),
                alternative: match alternative {
                    Some(a) => Some(Box::new(a.duplicate())),
                    None => None,
                },
            },
            Expression::Function { parameters, body } => {
                proof {
                    assert(decreases_to!(*self => self->parameters));
                }
                Expression::Function {
                    parameters: duplicate_exprs(parameters),
                    body: Box::new(body.duplicate()),
                }
            },
            Expression::Call { function, arguments } => {
                proof {
                    assert(decreases_to!(*self => self->arguments));
                }
                Expression::Call {
                    function: Box::new(function.duplicate()),
                    arguments: duplicate_exprs(arguments),
                }
            },
            Expression::Index { left, index } => Expression::Index {
                left: Box::new(left.duplicate()),
                index: Box::new(index.duplicate()),
            },
            Expression::For { parameter, array, statement } => Expression::For {
                parameter: parameter.clone(),
                array: Box::new(array.duplicate()),
                statement: Box::new(statement.duplicate()),
            },
            Expression::Hash(v) => {
                proof {
                    assert(decreases_to!(*self => self->Hash_0));
                }
                let mut out: Vec<(Expression, Expression)> = Vec::new();
                let mut i: usize = 0;
                while i < v.len()
                    invariant
                        *self == Expression::Hash(*v),
                        i <= v.len(),
                        out.len() == i,
                        forall|j: int|
                            0 <= j < i ==> #[trigger] out[j].0.view() == v[j].0.view()
                                && out[j].1.view() == v[j].1.view(),
                    decreases v.len() - i,
                {
                    proof {
                        assert(decreases_to!(*self => self->Hash_0));
                        assert(decreases_to!(*v => v[i as int]));
                        assert(decreases_to!(v[i as int] => v[i as int].0));
                        assert(decreases_to!(v[i as int] => v[i as int].1));
                    }
                    let k = v[i].0.duplicate();
                    let w = v[i].1.duplicate();
                    out.push((k, w));
                    i = i + 1;
                }
                let r = Expression::Hash(out);
                assert forall|j: int| 0 <= j < v.len() implies r.view()->Hash_0[j]
                    == self.view()->Hash_0[j] by {
                    assert(out[j].0.view() == v[j].0.view());
                }
                assert(r.view()->Hash_0 =~= self.view()->Hash_0);
                r
            },
        };
        proof {
            lemma_vec_views(r);
        }
        r
    }
}

impl Statement {
    /// A copy with the same view.
    pub fn duplicate(&self) -> (r: Statement)
        ensures
            r.view() == self.view(),
        decreases self,
    {
        proof {
            lemma_block_view(*self);
        }
        let r = match self {
            Statement::Let { name, value } => Statement::Let {
                name: name.clone(),
                value: value.duplicate(),
            },
            Statement::Return(e) => Statement::Return(e.duplicate()),
            Statement::Expression(e) => Statement::Expression(e.duplicate()),
            Statement::Block(v) => {
                proof {
                    assert(decreases_to!(*self => self->Block_0));
                }
                Statement::Block(duplicate_stmts(v))
            },
        };
        proof {
            lemma_block_view(r);
        }
        r
    }
}

} // verus!
