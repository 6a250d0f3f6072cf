//! Tree-walking evaluator. `eval_expr`, `eval_stmt` and their helpers are the
//! semantics over the models; every executable function is proved equal to
//! its spec counterpart. `fuel` bounds how deeply evaluation nests, so that
//! a runaway recursion in a program ends in an error.

use vstd::prelude::*;
use vstd::string::*;
use vstd::wrapping::i32_specs::{wrapping_add, wrapping_mul, wrapping_sub};

use crate::ast::{
    exprs_view, lemma_block_view, lemma_vec_views, stmts_view, ExprV, Expression, InfixOprator,
    PrefixOprator, Program, Statement, StmtV,
};
use crate::builtins::{self, builtin_printed, builtin_result_view, builtin_spec};
use crate::environment::{store_set, Entries, EnvV, Environment, lookup};
use crate::error::Error;
use crate::object::{
    entries_view, key_of, lemma_object_vec_views, obj_text, objs_view, BuiltinFn, KeyV, MapKey,
    ObjV, Object,
};

verus! {

/// How deeply evaluation may nest before it gives up with an error. Each
/// level of nested expression or statement takes one unit; a function call
/// takes about seven (the call, the body's statement and block, and the
/// expressions inside), so calls can nest about 400 deep.
pub const MAX_DEPTH: u64 = 3000;

/// A value, or the message of an evaluation error.
pub type EvalResult = Result<ObjV, Seq<char>>;

pub open spec fn depth_message() -> Seq<char> {
    "maximum evaluation depth exceeded"@
}

pub open spec fn infix_message() -> Seq<char> {
    "Invalid infix expression"@
}

pub open spec fn prefix_message() -> Seq<char> {
    "Invalid prefix expression"@
}

/// An outcome that ends the evaluation around it: an error, or the value of
/// a `return` on its way to the enclosing call.
pub open spec fn halts(r: EvalResult) -> bool {
    match r {
        Ok(v) => v is Ret,
        Err(_) => true,
    }
}

/// Truthiness, as `!` reads it: `false` and `null` are false, all else true.
pub open spec fn truthy(o: ObjV) -> bool {
    match o {
        ObjV::Bool(b) => b,
        ObjV::Null => false,
        _ => true,
    }
}

/// Integer negation with wrap-around.
pub open spec fn wrapping_neg(i: i32) -> i32 {
    wrapping_sub(0, i)
}

/// Integer division that truncates toward zero and wraps on overflow;
/// `d` is not zero.
pub open spec fn wrapping_div(n: i32, d: i32) -> i32 {
    match n.checked_div(d) {
        Some(q) => q,
        None => i32::MIN,
    }
}

pub open spec fn eval_prefix_spec(op: PrefixOprator, right: ObjV) -> EvalResult {
    match op {
        PrefixOprator::Bang => Ok(ObjV::Bool(!truthy(right))),
        PrefixOprator::Minus => match right {
            ObjV::Int(i) => Ok(ObjV::Int(wrapping_neg(i))),
            _ => Err(prefix_message()),
        },
    }
}

pub open spec fn eval_infix_spec(op: InfixOprator, l: ObjV, r: ObjV) -> EvalResult {
    match (l, r) {
        (ObjV::Int(a), ObjV::Int(b)) => match op {
            InfixOprator::Plus => Ok(ObjV::Int(wrapping_add(a, b))),
            InfixOprator::Minus => Ok(ObjV::Int(wrapping_sub(a, b))),
            InfixOprator::Asterisk => Ok(ObjV::Int(wrapping_mul(a, b))),
            InfixOprator::Slash => if b == 0 {
                Err("division by zero"@)
            } else {
                Ok(ObjV::Int(wrapping_div(a, b)))
            },
            InfixOprator::Gt => Ok(ObjV::Bool(a > b)),
            InfixOprator::Lt => Ok(ObjV::Bool(a < b)),
            InfixOprator::Equal => Ok(ObjV::Bool(a == b)),
            InfixOprator::Nequal => Ok(ObjV::Bool(a != b)),
            _ => Err(infix_message()),
        },
        (ObjV::Bool(a), ObjV::Bool(b)) => match op {
            InfixOprator::Equal => Ok(ObjV::Bool(a == b)),
            InfixOprator::Nequal => Ok(ObjV::Bool(a != b)),
            _ => Err(infix_message()),
        },
        (ObjV::Str(a), ObjV::Str(b)) => match op {
            InfixOprator::Plus => Ok(ObjV::Str(a + b)),
            InfixOprator::Equal => Ok(ObjV::Bool(a == b)),
            InfixOprator::Nequal => Ok(ObjV::Bool(a != b)),
            _ => Err(infix_message()),
        },
        _ => Err(infix_message()),
    }
}

/// Index of the first entry keyed `k`, looking from `i` on.
pub open spec fn key_find(m: Seq<(KeyV, ObjV)>, k: KeyV, i: int) -> Option<int>
    decreases m.len() - i,
{
    if 0 <= i < m.len() {
        if m[i].0 == k {
            Some(i)
        } else {
            key_find(m, k, i + 1)
        }
    } else {
        None
    }
}

/// `m` with `k` mapped to `v`: an entry of that key keeps its place and
/// takes the new value, a new key goes last.
pub open spec fn hash_insert(m: Seq<(KeyV, ObjV)>, k: KeyV, v: ObjV) -> Seq<(KeyV, ObjV)> {
    match key_find(m, k, 0) {
        Some(j) => m.update(j, (k, v)),
        None => m.push((k, v)),
    }
}

pub open spec fn eval_index_spec(l: ObjV, i: ObjV) -> EvalResult {
    match (l, i) {
        (ObjV::Array(a), ObjV::Int(n)) => Ok(
            if 0 <= n < a.len() {
                a[n as int]
            } else {
                ObjV::Null
            },
        ),
        (ObjV::Hash(m), k) => Ok(
            match key_find(m, key_of(k), 0) {
                Some(j) => m[j].1,
                None => ObjV::Null,
            },
        ),
        _ => Err("Invalid index expression"@),
    }
}

/// The bindings of a call's new scope: each identifier parameter bound to the
/// argument in its place; extra arguments are dropped, missing ones leave
/// their parameter unbound.
pub open spec fn bind_params(store: Entries, ps: Seq<ExprV>, args: Seq<ObjV>, i: int) -> Entries
    decreases ps.len() - i,
{
    if 0 <= i < ps.len() && i < args.len() {
        let next = match ps[i] {
            ExprV::Ident(n) => store_set(store, n, args[i]),
            _ => store,
        };
        bind_params(next, ps, args, i + 1)
    } else {
        store
    }
}

/// The state after a scope is added to the arena.
pub open spec fn with_scope(st: EnvV, store: Entries, parent: nat) -> EnvV {
    EnvV {
        scopes: st.scopes.push(crate::environment::ScopeV { store, parent: Some(parent) }),
        ..st
    }
}

/// Applies a function value to arguments.
pub open spec fn apply_spec(f: ObjV, args: Seq<ObjV>, st: EnvV, fuel: nat) -> (EnvV, EvalResult)
    decreases fuel, 0nat,
{
    match f {
        ObjV::Func(ps, body, env) => if env >= st.scopes.len() {
            (st, Err("function refers to a missing scope"@))
        } else if fuel == 0 {
            (st, Err(depth_message()))
        } else {
            let st1 = with_scope(st, bind_params(Seq::empty(), ps, args, 0), env);
            let (st2, r) = eval_stmt(*body, st1, st.scopes.len(), (fuel - 1) as nat);
            (
                st2,
                match r {
                    Ok(ObjV::Ret(v)) => Ok(*v),
                    other => other,
                },
            )
        },
        ObjV::Builtin(b) => (
            EnvV { output: st.output + builtin_printed(b, args), ..st },
            builtin_spec(b, args),
        ),
        other => (st, Err(obj_text(other) + " Can not be called"@)),
    }
}

/// Evaluates `es[i..]` left to right after `acc`; an error or a `return`
/// value stops it and is handed back as `Err`.
pub open spec fn eval_exprs(
    es: Seq<ExprV>,
    i: int,
    st: EnvV,
    sc: nat,
    fuel: nat,
    acc: Seq<ObjV>,
) -> (EnvV, Result<Seq<ObjV>, EvalResult>)
    decreases fuel, es.len() - i,
{
    if 0 <= i < es.len() {
        let (st1, r) = eval_expr(es[i], st, sc, fuel);
        if halts(r) {
            (st1, Err(r))
        } else {
            eval_exprs(es, i + 1, st1, sc, fuel, acc.push(r->Ok_0))
        }
    } else {
        (st, Ok(acc))
    }
}

/// Evaluates the pairs of a map literal from `i` on, key then value, into `acc`.
pub open spec fn eval_pairs(
    ps: Seq<(ExprV, ExprV)>,
    i: int,
    st: EnvV,
    sc: nat,
    fuel: nat,
    acc: Seq<(KeyV, ObjV)>,
) -> (EnvV, EvalResult)
    decreases fuel, ps.len() - i,
{
    if 0 <= i < ps.len() {
        let (st1, k) = eval_expr(ps[i].0, st, sc, fuel);
        if halts(k) {
            (st1, k)
        } else {
            let (st2, v) = eval_expr(ps[i].1, st1, sc, fuel);
            if halts(v) {
                (st2, v)
            } else {
                eval_pairs(ps, i + 1, st2, sc, fuel, hash_insert(acc, key_of(k->Ok_0), v->Ok_0))
            }
        }
    } else {
        (st, Ok(ObjV::Hash(acc)))
    }
}

/// Runs a `for` body once per value from `vals[i]` on, binding `p` to each;
/// the result is that of the last run. An error or a `return` value stops
/// the loop and is passed on.
pub open spec fn eval_for(
    p: Seq<char>,
    vals: Seq<ObjV>,
    i: int,
    body: StmtV,
    st: EnvV,
    sc: nat,
    fuel: nat,
    last: ObjV,
) -> (EnvV, EvalResult)
    decreases fuel, vals.len() - i,
{
    if 0 <= i < vals.len() {
        if fuel == 0 {
            (st, Err(depth_message()))
        } else {
            let st1 = st.bind(sc as int, p, vals[i]);
            match body {
                StmtV::Block(ss) => {
                    let (st2, r) = eval_block(ss, 0, st1, sc, (fuel - 1) as nat, ObjV::Null);
                    if halts(r) {
                        (st2, r)
                    } else {
                        eval_for(p, vals, i + 1, body, st2, sc, fuel, r->Ok_0)
                    }
                },
                _ => eval_for(p, vals, i + 1, body, st1, sc, fuel, last),
            }
        }
    } else {
        (st, Ok(last))
    }
}

/// Evaluates an expression in scope `sc` of state `st`; the result is the
/// state after it and its value or error.
pub open spec fn eval_expr(e: ExprV, st: EnvV, sc: nat, fuel: nat) -> (EnvV, EvalResult)
    decreases fuel, 0nat,
{
    if fuel == 0 {
        (st, Err(depth_message()))
    } else {
        let f = (fuel - 1) as nat;
        match e {
            ExprV::Int(i) => (st, Ok(ObjV::Int(i))),
            ExprV::Bool(b) => (st, Ok(ObjV::Bool(b))),
            ExprV::Str(s) => (st, Ok(ObjV::Str(s))),
            ExprV::Ident(n) => (
                st,
                match lookup(st.scopes, sc as int, n) {
                    Some(v) => Ok(v),
                    None => Err("Undefined variable "@ + n),
                },
            ),
            ExprV::Prefix(op, r) => {
                let (st1, rv) = eval_expr(*r, st, sc, f);
                if halts(rv) {
                    (st1, rv)
                } else {
                    (st1, eval_prefix_spec(op, rv->Ok_0))
                }
            },
            ExprV::Infix(l, op, r) => if op is Assign {
                match *l {
                    ExprV::Ident(n) => {
                        let (st1, rv) = eval_expr(*r, st, sc, f);
                        if halts(rv) {
                            (st1, rv)
                        } else {
                            (st1.bind(sc as int, n, rv->Ok_0), rv)
                        }
                    },
                    _ => (st, Err("Invalid assignment target"@)),
                }
            } else {
                let (st1, lv) = eval_expr(*l, st, sc, f);
                if halts(lv) {
                    (st1, lv)
                } else {
                    let (st2, rv) = eval_expr(*r, st1, sc, f);
                    if halts(rv) {
                        (st2, rv)
                    } else {
                        (st2, eval_infix_spec(op, lv->Ok_0, rv->Ok_0))
                    }
                }
            },
            ExprV::If(c, t, a) => {
                let (st1, cv) = eval_expr(*c, st, sc, f);
                if halts(cv) {
                    (st1, cv)
                } else {
                    match cv->Ok_0 {
                        ObjV::Bool(b) => if b {
                            eval_stmt(*t, st1, sc, f)
                        } else {
                            match a {
                                Some(a) => eval_stmt(*a, st1, sc, f),
                                None => (st1, Ok(ObjV::Null)),
                            }
                        },
                        _ => (st1, Err("If condition must be boolean"@)),
                    }
                }
            },
            ExprV::Function(ps, body) => (st, Ok(ObjV::Func(ps, body, sc))),
            ExprV::Call(fe, args) => {
                let (st1, av) = eval_exprs(args, 0, st, sc, f, Seq::empty());
                match av {
                    Ok(vals) => {
                        let (st2, fv) = eval_expr(*fe, st1, sc, f);
                        if halts(fv) {
                            (st2, fv)
                        } else {
                            apply_spec(fv->Ok_0, vals, st2, f)
                        }
                    },
                    Err(h) => (st1, h),
                }
            },
            ExprV::Array(es) => {
                let (st1, av) = eval_exprs(es, 0, st, sc, f, Seq::empty());
                match av {
                    Ok(vals) => (st1, Ok(ObjV::Array(vals))),
                    Err(h) => (st1, h),
                }
            },
            ExprV::Index(l, i) => {
                let (st1, lv) = eval_expr(*l, st, sc, f);
                if halts(lv) {
                    (st1, lv)
                } else {
                    let (st2, iv) = eval_expr(*i, st1, sc, f);
                    if halts(iv) {
                        (st2, iv)
                    } else {
                        (st2, eval_index_spec(lv->Ok_0, iv->Ok_0))
                    }
                }
            },
            ExprV::Hash(ps) => eval_pairs(ps, 0, st, sc, f, Seq::empty()),
            ExprV::For(p, arr, body) => match *arr {
                ExprV::Array(es) => {
                    let (st1, av) = eval_exprs(es, 0, st, sc, f, Seq::empty());
                    match av {
                        Ok(vals) => {
                            let (st2, r) = eval_for(p, vals, 0, *body, st1, sc, f, ObjV::Null);
                            match r {
                                Ok(v) => (st2.unbind(sc as int, p), Ok(v)),
                                Err(m) => (st2, Err(m)),
                            }
                        },
                        Err(h) => (st1, h),
                    }
                },
                _ => (st, Ok(ObjV::Null)),
            },
        }
    }
}

/// Evaluates the statements of a block from `i` on; a `return` value stops
/// the block and is passed on as it is.
pub open spec fn eval_block(
    ss: Seq<StmtV>,
    i: int,
    st: EnvV,
    sc: nat,
    fuel: nat,
    last: ObjV,
) -> (EnvV, EvalResult)
    decreases fuel, ss.len() - i,
{
    if 0 <= i < ss.len() {
        let (st1, r) = eval_stmt(ss[i], st, sc, fuel);
        match r {
            Ok(v) => if v is Ret {
                (st1, Ok(v))
            } else {
                eval_block(ss, i + 1, st1, sc, fuel, v)
            },
            Err(m) => (st1, Err(m)),
        }
    } else {
        (st, Ok(last))
    }
}

pub open spec fn eval_stmt(s: StmtV, st: EnvV, sc: nat, fuel: nat) -> (EnvV, EvalResult)
    decreases fuel, 0nat,
{
    if fuel == 0 {
        (st, Err(depth_message()))
    } else {
        let f = (fuel - 1) as nat;
        match s {
            StmtV::Let(n, e) => {
                let (st1, r) = eval_expr(e, st, sc, f);
                if halts(r) {
                    (st1, r)
                } else {
                    (st1.bind(sc as int, n, r->Ok_0), r)
                }
            },
            StmtV::Return(e) => {
                let (st1, r) = eval_expr(e, st, sc, f);
                if halts(r) {
                    (st1, r)
                } else {
                    (st1, Ok(ObjV::Ret(Box::new(r->Ok_0))))
                }
            },
            StmtV::Expr(e) => eval_expr(e, st, sc, f),
            StmtV::Block(ss) => eval_block(ss, 0, st, sc, f, ObjV::Null),
        }
    }
}

/// Runs top-level statements from `i` on; a `return` value ends the program
/// and is unwrapped.
pub open spec fn eval_program(
    ss: Seq<StmtV>,
    i: int,
    st: EnvV,
    sc: nat,
    fuel: nat,
    last: ObjV,
) -> (EnvV, EvalResult)
    decreases ss.len() - i,
{
    if 0 <= i < ss.len() {
        let (st1, r) = eval_stmt(ss[i], st, sc, fuel);
        match r {
            Ok(ObjV::Ret(v)) => (st1, Ok(*v)),
            Ok(v) => eval_program(ss, i + 1, st1, sc, fuel, v),
            Err(m) => (st1, Err(m)),
        }
    } else {
        (st, Ok(last))
    }
}

/// An evaluation outcome as the model sees it.
pub open spec fn result_view(r: Result<Object, Error>) -> EvalResult {
    builtin_result_view(r)
}

pub open spec fn results_view(r: Result<Vec<Object>, Result<Object, Error>>) -> Result<
    Seq<ObjV>,
    EvalResult,
> {
    match r {
        Ok(v) => Ok(objs_view(v@)),
        Err(h) => Err(result_view(h)),
    }
}

/// Every error of the evaluator is an `EvalError`.
pub open spec fn is_eval_error<T>(r: Result<T, Error>) -> bool {
    r is Err ==> r->Err_0 is EvalError
}

/// Whether `o` is the value of a `return` on its way out.
fn is_return(o: &Object) -> (r: bool)
    ensures
        r == (o.view() is Ret),
{
    matches!(o, Object::Return(_))
}

fn eval_error(msg: String) -> (r: Error)
    ensures
        r == (Error::EvalError { msg }),
{
    Error::EvalError { msg }
}

fn error_from(s: &str) -> (r: Error)
    ensures
        r is EvalError && r->EvalError_msg@ == s@,
{
    Error::EvalError { msg: String::from_str(s) }
}

/// `!` on a value.
fn eval_prefix_bang_operator(right: &Object) -> (r: Object)
    ensures
        Ok::<ObjV, Seq<char>>(r.view()) == eval_prefix_spec(PrefixOprator::Bang, right.view()),
{
    match right {
        Object::Boolean(b) => Object::Boolean(!*b),
        Object::Null => Object::Boolean(true),
        _ => Object::Boolean(false),
    }
}

/// Unary `-` on a value.
fn eval_prefix_minus_operator(right: &Object) -> (r: Result<Object, Error>)
    ensures
        result_view(r) == eval_prefix_spec(PrefixOprator::Minus, right.view()),
        is_eval_error(r),
{
    match right {
        Object::Integer(i) => Ok(Object::Integer(0i32.wrapping_sub(*i))),
        _ => Err(error_from("Invalid prefix expression")),
    }
}

fn eval_prefix_expression(op: PrefixOprator, right: &Object) -> (r: Result<Object, Error>)
    ensures
        result_view(r) == eval_prefix_spec(op, right.view()),
        is_eval_error(r),
{
    match op {
        PrefixOprator::Bang => Ok(eval_prefix_bang_operator(right)),
        PrefixOprator::Minus => eval_prefix_minus_operator(right),
    }
}

/// A binary operator on two values.
fn eval_infix_expression(op: InfixOprator, left: &Object, right: &Object) -> (r: Result<
    Object,
    Error,
>)
    ensures
        result_view(r) == eval_infix_spec(op, left.view(), right.view()),
        is_eval_error(r),
{
    match (left, right) {
        (Object::Integer(a), Object::Integer(b)) => {
            let a = *a;
            let b = *b;
            match op {
                InfixOprator::Plus => Ok(Object::Integer(a.wrapping_add(b))),
                InfixOprator::Minus => Ok(Object::Integer(a.wrapping_sub(b))),
                InfixOprator::Asterisk => Ok(Object::Integer(a.wrapping_mul(b))),
                InfixOprator::Slash => if b == 0 {
                    Err(error_from("division by zero"))
                } else {
                    match a.checked_div(b) {
                        Some(q) => Ok(Object::Integer(q)),
                        None => Ok(Object::Integer(i32::MIN)),
                    }
                },
                InfixOprator::Gt => Ok(Object::Boolean(a > b)),
                InfixOprator::Lt => Ok(Object::Boolean(a < b)),
                InfixOprator::Equal => Ok(Object::Boolean(a == b)),
                InfixOprator::Nequal => Ok(Object::Boolean(a != b)),
                _ => Err(error_from("Invalid infix expression")),
            }
        },
        (Object::Boolean(a), Object::Boolean(b)) => match op {
            InfixOprator::Equal => Ok(Object::Boolean(*a == *b)),
            InfixOprator::Nequal => Ok(Object::Boolean(*a != *b)),
            _ => Err(error_from("Invalid infix expression")),
        },
        (Object::String(a), Object::String(b)) => match op {
            InfixOprator::Plus => {
                let mut s = a.clone();
                s.append(b.as_str());
                Ok(Object::String(s))
            },
            InfixOprator::Equal => Ok(Object::Boolean(a.eq(b))),
            InfixOprator::Nequal => Ok(Object::Boolean(!a.eq(b))),
            _ => Err(error_from("Invalid infix expression")),
        },
        _ => Err(error_from("Invalid infix expression")),
    }
}

/// Index of the entry keyed `k` in `m`.
fn find_key(m: &Vec<(MapKey, Object)>, k: &MapKey) -> (r: Option<usize>)
    ensures
        match r {
            Some(j) => key_find(entries_view(m@), k.view(), 0) == Some(j as int) && j < m.len(),
            None => key_find(entries_view(m@), k.view(), 0) is None,
        },
{
    let ghost ev = entries_view(m@);
    let mut i: usize = 0;
    while i < m.len()
        invariant
            ev == entries_view(m@),
            i <= m.len(),
            key_find(ev, k.view(), i as int) == key_find(ev, k.view(), 0),
        decreases m.len() - i,
    {
        if m[i].0.same(k) {
            return Some(i);
        }
        i = i + 1;
    }
    None
}

/// Indexing into an array or a map.
fn eval_index_expression(left: &Object, index: &Object) -> (r: Result<Object, Error>)
    ensures
        result_view(r) == eval_index_spec(left.view(), index.view()),
        is_eval_error(r),
{
    proof {
        lemma_object_vec_views(*left);
    }
    match (left, index) {
        (Object::Array(a), Object::Integer(i)) => {
            if 0 <= *i && (*i as usize) < a.len() {
                Ok(a[*i as usize].duplicate())
            } else {
                Ok(Object::Null)
            }
        },
        (Object::Hash(m), _) => {
            let k = MapKey::from_object(index);
            match find_key(m, &k) {
                Some(j) => Ok(m[j].1.duplicate()),
                None => Ok(Object::Null),
            }
        },
        _ => Err(error_from("Invalid index expression")),
    }
}

/// Binds `name` to `value` in an entry list.
fn set_entry(store: &mut Vec<(String, Object)>, name: &String, value: Object)
    ensures
        builtins::entries_view(final(store)@) == store_set(
            builtins::entries_view(old(store)@),
            name@,
            value.view(),
        ),
{
    let ghost ev = builtins::entries_view(store@);
    let ghost vv = value.view();
    proof {
        crate::environment::lemma_find_from(ev, name@, 0);
    }
    let mut i: usize = 0;
    while i < store.len()
        invariant
            ev == builtins::entries_view(store@),
            ev == builtins::entries_view(old(store)@),
            vv == value.view(),
            i <= store.len(),
            crate::environment::find_from(ev, name@, i as int) == crate::environment::find_from(
                ev,
                name@,
                0,
            ),
        decreases store.len() - i,
    {
        if store[i].0.eq(name) {
            assert(ev[i as int].0 == name@);
            let ghost old_store = store@;
            let n = name.clone();
            let ghost pair = (n, value);
            store[i] = (n, value);
            assert(store@ == old_store.update(i as int, pair));
            assert(crate::environment::find_from(ev, name@, i as int) == Some(i as int));
            assert(store_set(ev, name@, vv) == ev.update(i as int, (name@, vv)));
            assert forall|j: int| 0 <= j < store.len() implies builtins::entries_view(store@)[j]
                == ev.update(i as int, (name@, vv))[j] by {
                if j == i {
                    assert(store@[j] == pair);
                } else {
                    assert(store@[j] == old_store[j]);
                }
            }
            assert(builtins::entries_view(store@) =~= store_set(ev, name@, vv));
            return;
        }
        i = i + 1;
    }
    store.push((name.clone(), value));
    assert(builtins::entries_view(store@) =~= store_set(ev, name@, vv));
}

/// A new scope's bindings: the parameters bound to the arguments.
fn extend_function_env(parameters: &Vec<Expression>, args: &Vec<Object>) -> (r: Vec<
    (String, Object),
>)
    ensures
        builtins::entries_view(r@) == bind_params(
            Seq::empty(),
            exprs_view(parameters@),
            objs_view(args@),
            0,
        ),
{
    let ghost ps = exprs_view(parameters@);
    let ghost vs = objs_view(args@);
    let mut store: Vec<(String, Object)> = Vec::new();
    let mut i: usize = 0;
    assert(builtins::entries_view(store@) =~= Seq::<(Seq<char>, ObjV)>::empty());
    while i < parameters.len() && i < args.len()
        invariant
            ps == exprs_view(parameters@),
            vs == objs_view(args@),
            i <= parameters.len(),
            bind_params(builtins::entries_view(store@), ps, vs, i as int) == bind_params(
                Seq::empty(),
                ps,
                vs,
                0,
            ),
        decreases parameters.len() - i,
    {
        match &parameters[i] {
            Expression::Identifier(n) => {
                set_entry(&mut store, n, args[i].duplicate());
            },
            _ => {},
        }
        i = i + 1;
    }
    store
}

/// Applies a function value to arguments.
fn apply_function(function: &Object, args: &Vec<Object>, env: &mut Environment, fuel: u64) -> (r:
    Result<Object, Error>)
    requires
        old(env).wf(),
    ensures
        final(env).wf(),
        final(env).view().scopes.len() >= old(env).view().scopes.len(),
        is_eval_error(r),
        (final(env).view(), result_view(r)) == apply_spec(
            function.view(),
            objs_view(args@),
            old(env).view(),
            fuel as nat,
        ),
    decreases fuel, 0nat,
{
    match function {
        Object::Function { parameters, body, env: captured } => {
            if *captured >= env.scope_count() {
                return Err(error_from("function refers to a missing scope"));
            }
            if fuel == 0 {
                return Err(error_from("maximum evaluation depth exceeded"));
            }
            let store = extend_function_env(parameters, args);
            let idx = env.push_scope(*captured, store);
            let evaluated = eval_statement(body, env, idx, fuel - 1);
            match evaluated {
                Ok(Object::Return(v)) => Ok(*v),
                other => other,
            }
        },
        Object::Builtin(f) => {
            let ghost before = env.view();
            let r = match f {
                BuiltinFn::Len => builtins::len(args),
                BuiltinFn::First => builtins::first(args),
                BuiltinFn::Last => builtins::last(args),
                BuiltinFn::Rest => builtins::rest(args),
                BuiltinFn::Push => builtins::push(args),
                BuiltinFn::Puts => {
                    let lines = builtins::puts(args);
                    let mut i: usize = 0;
                    while i < lines.len()
                        invariant
                            env.wf(),
                            i <= lines.len(),
                            env.view() == (EnvV {
                                output: before.output + Seq::new(
                                    i as nat,
                                    |j: int| lines[j]@,
                                ),
                                ..before
                            }),
                        decreases lines.len() - i,
                    {
                        let ghost mid = env.view();
                        env.emit(lines[i].clone());
                        assert(env.view().output =~= before.output + Seq::new(
                            (i + 1) as nat,
                            |j: int| lines[j]@,
                        ));
                        i = i + 1;
                    }
                    assert(Seq::new(lines.len() as nat, |j: int| lines[j]@) =~= builtin_printed(
                        *f,
                        objs_view(args@),
                    ));
                    Ok(Object::Null)
                },
            };
            proof {
                if !(*f is Puts) {
                    assert(before.output + builtin_printed(*f, objs_view(args@)) =~= before.output);
                }
            }
            r
        },
        _ => {
            let mut msg = function.to_string();
            msg.append(" Can not be called");
            Err(eval_error(msg))
        },
    }
}

/// Evaluates expressions left to right; an error or a `return` value stops
/// it and comes back as `Err`.
fn eval_expressions(
    expressions: &Vec<Expression>,
    env: &mut Environment,
    sc: usize,
    fuel: u64,
) -> (r: Result<Vec<Object>, Result<Object, Error>>)
    requires
        old(env).wf(),
        sc < old(env).view().scopes.len(),
    ensures
        final(env).wf(),
        final(env).view().scopes.len() >= old(env).view().scopes.len(),
        r matches Err(h) ==> is_eval_error(h),
        (final(env).view(), results_view(r)) == eval_exprs(
            exprs_view(expressions@),
            0,
            old(env).view(),
            sc as nat,
            fuel as nat,
            Seq::empty(),
        ),
    decreases fuel, 1nat,
{
    let ghost es = exprs_view(expressions@);
    let ghost st0 = env.view();
    let mut result: Vec<Object> = Vec::new();
    let mut i: usize = 0;
    assert(objs_view(result@) =~= Seq::<ObjV>::empty());
    while i < expressions.len()
        invariant
            env.wf(),
            es == exprs_view(expressions@),
            i <= expressions.len(),
            sc < env.view().scopes.len(),
            st0 == old(env).view(),
            env.view().scopes.len() >= st0.scopes.len(),
            eval_exprs(es, i as int, env.view(), sc as nat, fuel as nat, objs_view(result@))
                == eval_exprs(es, 0, st0, sc as nat, fuel as nat, Seq::empty()),
        decreases expressions.len() - i,
    {
        let ghost acc = objs_view(result@);
        let evaluated = eval_expression(&expressions[i], env, sc, fuel);
        match evaluated {
            Ok(v) => {
                if is_return(&v) {
                    return Err(Ok(v));
                }
                result.push(v);
                assert(objs_view(result@) =~= acc.push(result@.last().view()));
            },
            Err(e) => {
                return Err(Err(e));
            },
        }
        i = i + 1;
    }
    Ok(result)
}

/// Evaluates an expression in scope `sc`.
fn eval_expression(expression: &Expression, env: &mut Environment, sc: usize, fuel: u64) -> (r:
    Result<Object, Error>)
    requires
        old(env).wf(),
        sc < old(env).view().scopes.len(),
    ensures
        final(env).wf(),
        final(env).view().scopes.len() >= old(env).view().scopes.len(),
        is_eval_error(r),
        (final(env).view(), result_view(r)) == eval_expr(
            expression.view(),
            old(env).view(),
            sc as nat,
            fuel as nat,
        ),
    decreases fuel, 0nat,
{
    if fuel == 0 {
        return Err(error_from("maximum evaluation depth exceeded"));
    }
    let f = fuel - 1;
    proof {
        lemma_vec_views(*expression);
    }
    match expression {
        Expression::Integer(i) => Ok(Object::Integer(*i)),
        Expression::Bool(b) => Ok(Object::Boolean(*b)),
        Expression::String(s) => Ok(Object::String(s.clone())),
        Expression::Identifier(name) => match env.get_from(sc, name) {
            Some(o) => Ok(o.duplicate()),
            None => {
                let mut msg = String::from_str("Undefined variable ");
                msg.append(name.as_str());
                Err(eval_error(msg))
            },
        },
        Expression::Prefix { operator, right } => {
            let right = match eval_expression(right, env, sc, f) {
                Ok(v) => v,
                Err(e) => {
                    return Err(e);
                },
            };
            if is_return(&right) {
                return Ok(right);
            }
            eval_prefix_expression(*operator, &right)
        },
        Expression::Infix { left, operator, right } => {
            if matches!(operator, InfixOprator::Assign) {
                match &**left {
                    Expression::Identifier(name) => {
                        let value = match eval_expression(right, env, sc, f) {
                            Ok(v) => v,
                            Err(e) => {
                                return Err(e);
                            },
                        };
                        if is_return(&value) {
                            return Ok(value);
                        }
                        let copy = value.duplicate();
                        env.set_in(sc, name.clone(), copy);
                        Ok(value)
                    },
                    _ => Err(error_from("Invalid assignment target")),
                }
            } else {
                let l = match eval_expression(left, env, sc, f) {
                    Ok(v) => v,
                    Err(e) => {
                        return Err(e);
                    },
                };
                if is_return(&l) {
                    return Ok(l);
                }
                let r = match eval_expression(right, env, sc, f) {
                    Ok(v) => v,
                    Err(e) => {
                        return Err(e);
                    },
                };
                if is_return(&r) {
                    return Ok(r);
                }
                eval_infix_expression(*operator, &l, &r)
            }
        },
        Expression::If { condition, consequence, alternative } => {
            let c = match eval_expression(condition, env, sc, f) {
                Ok(v) => v,
                Err(e) => {
                    return Err(e);
                },
            };
            if is_return(&c) {
                return Ok(c);
            }
            match c {
                Object::Boolean(b) => {
                    if b {
                        eval_statement(consequence, env, sc, f)
                    } else {
                        match alternative {
                            Some(a) => eval_statement(a, env, sc, f),
                            None => Ok(Object::Null),
                        }
                    }
                },
                _ => Err(error_from("If condition must be boolean")),
            }
        },
        Expression::Function { parameters, body } => {
            let mut ps: Vec<Expression> = Vec::new();
            let mut i: usize = 0;
            while i < parameters.len()
                invariant
                    i <= parameters.len(),
                    ps.len() == i,
                    forall|j: int| 0 <= j < i ==> #[trigger] ps[j].view() == parameters[j].view(),
                decreases parameters.len() - i,
            {
                ps.push(parameters[i].duplicate());
                i = i + 1;
            }
            assert(exprs_view(ps@) =~= exprs_view(parameters@));
            Ok(Object::Function { parameters: ps, body: Box::new(body.duplicate()), env: sc })
        },
        Expression::Call { function, arguments } => {
            let args = match eval_expressions(arguments, env, sc, f) {
                Ok(v) => v,
                Err(h) => {
                    return h;
                },
            };
            let func = match eval_expression(function, env, sc, f) {
                Ok(v) => v,
                Err(e) => {
                    return Err(e);
                },
            };
            if is_return(&func) {
                return Ok(func);
            }
            apply_function(&func, &args, env, f)
        },
        Expression::Array(elements) => {
            let values = match eval_expressions(elements, env, sc, f) {
                Ok(v) => v,
                Err(h) => {
                    return h;
                },
            };
            let r = Object::Array(values);
            proof {
                lemma_object_vec_views(r);
            }
            Ok(r)
        },
        Expression::Index { left, index } => {
            let l = match eval_expression(left, env, sc, f) {
                Ok(v) => v,
                Err(e) => {
                    return Err(e);
                },
            };
            if is_return(&l) {
                return Ok(l);
            }
            let i = match eval_expression(index, env, sc, f) {
                Ok(v) => v,
                Err(e) => {
                    return Err(e);
                },
            };
            if is_return(&i) {
                return Ok(i);
            }
            eval_index_expression(&l, &i)
        },
        Expression::Hash(pairs) => {
            assert(expression.view()->Hash_0 =~= Seq::new(
                pairs.len() as nat,
                |i: int| (pairs[i].0.view(), pairs[i].1.view()),
            ));
            eval_pairs_exec(pairs, env, sc, f)
        },
        Expression::For { parameter, array, statement } => {
            match &**array {
                Expression::Array(elements) => {
                    proof {
                        lemma_vec_views(**array);
                    }
                    let values = match eval_expressions(elements, env, sc, f) {
                        Ok(v) => v,
                        Err(h) => {
                            return h;
                        },
                    };
                    let r = match eval_for_exec(parameter, &values, statement, env, sc, f) {
                        Ok(v) => v,
                        Err(e) => {
                            return Err(e);
                        },
                    };
                    env.remove_in(sc, parameter);
                    Ok(r)
                },
                _ => Ok(Object::Null),
            }
        },
    }
}

/// Evaluates the pairs of a map literal into a map value.
fn eval_pairs_exec(
    pairs: &Vec<(Expression, Expression)>,
    env: &mut Environment,
    sc: usize,
    fuel: u64,
) -> (r: Result<Object, Error>)
    requires
        old(env).wf(),
        sc < old(env).view().scopes.len(),
    ensures
        final(env).wf(),
        final(env).view().scopes.len() >= old(env).view().scopes.len(),
        is_eval_error(r),
        (final(env).view(), result_view(r)) == eval_pairs(
            Seq::new(pairs.len() as nat, |i: int| (pairs[i].0.view(), pairs[i].1.view())),
            0,
            old(env).view(),
            sc as nat,
            fuel as nat,
            Seq::empty(),
        ),
    decreases fuel, 1nat,
{
    let ghost ps = Seq::new(pairs.len() as nat, |i: int| (pairs[i].0.view(), pairs[i].1.view()));
    let ghost st0 = env.view();
    let mut m: Vec<(MapKey, Object)> = Vec::new();
    let mut i: usize = 0;
    assert(entries_view(m@) =~= Seq::<(KeyV, ObjV)>::empty());
    while i < pairs.len()
        invariant
            env.wf(),
            ps == Seq::new(pairs.len() as nat, |i: int| (pairs[i].0.view(), pairs[i].1.view())),
            i <= pairs.len(),
            sc < env.view().scopes.len(),
            st0 == old(env).view(),
            env.view().scopes.len() >= st0.scopes.len(),
            eval_pairs(ps, i as int, env.view(), sc as nat, fuel as nat, entries_view(m@))
                == eval_pairs(ps, 0, st0, sc as nat, fuel as nat, Seq::empty()),
        decreases pairs.len() - i,
    {
        let ghost acc = entries_view(m@);
        let key = match eval_expression(&pairs[i].0, env, sc, fuel) {
            Ok(v) => v,
            Err(e) => {
                return Err(e);
            },
        };
        if is_return(&key) {
            return Ok(key);
        }
        let value = match eval_expression(&pairs[i].1, env, sc, fuel) {
            Ok(v) => v,
            Err(e) => {
                return Err(e);
            },
        };
        if is_return(&value) {
            return Ok(value);
        }
        let k = MapKey::from_object(&key);
        let ghost kv = k.view();
        let ghost vv = value.view();
        match find_key(&m, &k) {
            Some(j) => {
                m[j] = (k, value);
            },
            None => {
                m.push((k, value));
            },
        }
        assert(entries_view(m@) =~= crate::evaluator::hash_insert(acc, kv, vv));
        i = i + 1;
    }
    let r = Object::Hash(m);
    proof {
        lemma_object_vec_views(r);
    }
    Ok(r)
}

/// Runs a `for` body once per value, binding `parameter` to each in scope `sc`.
fn eval_for_exec(
    parameter: &String,
    values: &Vec<Object>,
    statement: &Statement,
    env: &mut Environment,
    sc: usize,
    fuel: u64,
) -> (r: Result<Object, Error>)
    requires
        old(env).wf(),
        sc < old(env).view().scopes.len(),
    ensures
        final(env).wf(),
        final(env).view().scopes.len() >= old(env).view().scopes.len(),
        is_eval_error(r),
        (final(env).view(), result_view(r)) == eval_for(
            parameter@,
            objs_view(values@),
            0,
            statement.view(),
            old(env).view(),
            sc as nat,
            fuel as nat,
            ObjV::Null,
        ),
    decreases fuel, 1nat,
{
    let ghost vals = objs_view(values@);
    let ghost st0 = env.view();
    let mut result = Object::Null;
    let mut i: usize = 0;
    proof {
        lemma_block_view(*statement);
    }
    while i < values.len()
        invariant
            env.wf(),
            vals == objs_view(values@),
            i <= values.len(),
            sc < env.view().scopes.len(),
            st0 == old(env).view(),
            env.view().scopes.len() >= st0.scopes.len(),
            statement is Block ==> statement.view() == StmtV::Block(stmts_view(statement->Block_0@)),
            eval_for(parameter@, vals, i as int, statement.view(), env.view(), sc as nat, fuel as nat, result.view())
                == eval_for(parameter@, vals, 0, statement.view(), st0, sc as nat, fuel as nat, ObjV::Null),
        decreases values.len() - i,
    {
        if fuel == 0 {
            return Err(error_from("maximum evaluation depth exceeded"));
        }
        env.set_in(sc, parameter.clone(), values[i].duplicate());
        match statement {
            Statement::Block(stmts) => {
                result = match eval_block_statements(stmts, env, sc, fuel - 1) {
                    Ok(v) => v,
                    Err(e) => {
                        return Err(e);
                    },
                };
                if is_return(&result) {
                    return Ok(result);
                }
            },
            _ => {},
        }
        i = i + 1;
    }
    Ok(result)
}

/// Evaluates a block's statements; a `return` value stops the block and is
/// passed on unchanged.
fn eval_block_statements(
    statements: &Vec<Statement>,
    env: &mut Environment,
    sc: usize,
    fuel: u64,
) -> (r: Result<Object, Error>)
    requires
        old(env).wf(),
        sc < old(env).view().scopes.len(),
    ensures
        final(env).wf(),
        final(env).view().scopes.len() >= old(env).view().scopes.len(),
        is_eval_error(r),
        (final(env).view(), result_view(r)) == eval_block(
            stmts_view(statements@),
            0,
            old(env).view(),
            sc as nat,
            fuel as nat,
            ObjV::Null,
        ),
    decreases fuel, 1nat,
{
    let ghost ss = stmts_view(statements@);
    let ghost st0 = env.view();
    let mut result = Object::Null;
    let mut i: usize = 0;
    while i < statements.len()
        invariant
            env.wf(),
            ss == stmts_view(statements@),
            i <= statements.len(),
            sc < env.view().scopes.len(),
            st0 == old(env).view(),
            env.view().scopes.len() >= st0.scopes.len(),
            eval_block(ss, i as int, env.view(), sc as nat, fuel as nat, result.view())
                == eval_block(ss, 0, st0, sc as nat, fuel as nat, ObjV::Null),
        decreases statements.len() - i,
    {
        result = match eval_statement(&statements[i], env, sc, fuel) {
            Ok(v) => v,
            Err(e) => {
                return Err(e);
            },
        };
        if matches!(result, Object::Return(_)) {
            return Ok(result);
        }
        i = i + 1;
    }
    Ok(result)
}

/// Evaluates a statement in scope `sc`.
fn eval_statement(statement: &Statement, env: &mut Environment, sc: usize, fuel: u64) -> (r:
    Result<Object, Error>)
    requires
        old(env).wf(),
        sc < old(env).view().scopes.len(),
    ensures
        final(env).wf(),
        final(env).view().scopes.len() >= old(env).view().scopes.len(),
        is_eval_error(r),
        (final(env).view(), result_view(r)) == eval_stmt(
            statement.view(),
            old(env).view(),
            sc as nat,
            fuel as nat,
        ),
    decreases fuel, 0nat,
{
    if fuel == 0 {
        return Err(error_from("maximum evaluation depth exceeded"));
    }
    let f = fuel - 1;
    proof {
        lemma_block_view(*statement);
    }
    match statement {
        Statement::Expression(e) => eval_expression(e, env, sc, f),
        Statement::Block(statements) => eval_block_statements(statements, env, sc, f),
        Statement::Return(e) => {
            let v = match eval_expression(e, env, sc, f) {
                Ok(v) => v,
                Err(e) => {
                    return Err(e);
                },
            };
            if is_return(&v) {
                return Ok(v);
            }
            Ok(Object::Return(Box::new(v)))
        },
        Statement::Let { name, value } => {
            let val = match eval_expression(value, env, sc, f) {
                Ok(v) => v,
                Err(e) => {
                    return Err(e);
                },
            };
            if is_return(&val) {
                return Ok(val);
            }
            env.set_in(sc, name.clone(), val.duplicate());
            Ok(val)
        },
    }
}

/// Runs top-level statements in the active scope; a `return` value ends the
/// program and is unwrapped.
fn eval_statements(statements: &Vec<Statement>, env: &mut Environment) -> (r: Result<
    Object,
    Error,
>)
    requires
        old(env).wf(),
    ensures
        final(env).wf(),
        is_eval_error(r),
        (final(env).view(), result_view(r)) == eval_program(
            stmts_view(statements@),
            0,
            old(env).view(),
            old(env).view().current,
            MAX_DEPTH as nat,
            ObjV::Null,
        ),
{
    let ghost ss = stmts_view(statements@);
    let ghost st0 = env.view();
    proof {
        crate::environment::lemma_wf_view(env);
    }
    let sc = env.current_scope();
    let mut result = Object::Null;
    let mut i: usize = 0;
    while i < statements.len()
        invariant
            env.wf(),
            ss == stmts_view(statements@),
            i <= statements.len(),
            sc == st0.current,
            st0 == old(env).view(),
            sc < env.view().scopes.len(),
            eval_program(ss, i as int, env.view(), sc as nat, MAX_DEPTH as nat, result.view())
                == eval_program(ss, 0, st0, sc as nat, MAX_DEPTH as nat, ObjV::Null),
        decreases statements.len() - i,
    {
        result = match eval_statement(&statements[i], env, sc, MAX_DEPTH) {
            Ok(v) => v,
            Err(e) => {
                return Err(e);
            },
        };
        match result {
            Object::Return(o) => {
                return Ok(*o);
            },
            _ => {},
        }
        i = i + 1;
    }
    Ok(result)
}

/// Runs a program in `env`'s active scope. Bindings it makes stay in `env`;
/// lines it prints are added to `env`'s output. Nesting deeper than
/// `MAX_DEPTH` ends in the error "maximum evaluation depth exceeded".
pub fn eval(program: Program, env: &mut Environment) -> (r: Result<Object, Error>)
    requires
        old(env).wf(),
    ensures
        final(env).wf(),
        is_eval_error(r),
        no_ret_bindings(old(env).view()) ==> no_ret_bindings(final(env).view()),
        (final(env).view(), result_view(r)) == eval_program(
            program.view(),
            0,
            old(env).view(),
            old(env).view().current,
            MAX_DEPTH as nat,
            ObjV::Null,
        ),
{
    let ghost st0 = env.view();
    proof {
        crate::environment::lemma_wf_view(env);
    }
    let r = eval_statements(&program.statements, env);
    proof {
        if no_ret_bindings(st0) {
            lemma_program_keeps(program.view(), 0, st0, st0.current, MAX_DEPTH as nat, ObjV::Null);
        }
    }
    r
}

/// The value of an integer expression built from literals with unary `-`
/// and binary `+ - * /`, computed as the host computes `i32` with
/// `wrapping_neg`, `wrapping_add`, `wrapping_sub`, `wrapping_mul` and
/// `wrapping_div`; `None` when it divides by zero or is not such an
/// expression.
pub open spec fn host_int(e: ExprV) -> Option<i32>
    decreases e,
{
    match e {
        ExprV::Int(i) => Some(i),
        ExprV::Prefix(op, r) => match (op, host_int(*r)) {
            (PrefixOprator::Minus, Some(a)) => Some(wrapping_neg(a)),
            _ => None,
        },
        ExprV::Infix(l, op, r) => match (host_int(*l), host_int(*r)) {
            (Some(a), Some(b)) => match op {
                InfixOprator::Plus => Some(wrapping_add(a, b)),
                InfixOprator::Minus => Some(wrapping_sub(a, b)),
                InfixOprator::Asterisk => Some(wrapping_mul(a, b)),
                InfixOprator::Slash => if b == 0 {
                    None
                } else {
                    Some(wrapping_div(a, b))
                },
                _ => None,
            },
            _ => None,
        },
        _ => None,
    }
}

/// Nesting depth of an expression tree.
pub open spec fn expr_depth(e: ExprV) -> nat
    decreases e,
{
    match e {
        ExprV::Infix(l, _, r) => 1 + if expr_depth(*l) >= expr_depth(*r) {
            expr_depth(*l)
        } else {
            expr_depth(*r)
        },
        ExprV::Prefix(_, r) => 1 + expr_depth(*r),
        _ => 1,
    }
}

/// An integer expression over unary `-` and `+ - * /` that never divides by zero
/// evaluates, in any state and scope, to the host's wrapping `i32` result,
/// and leaves the state as it was; `fuel` is the nesting the evaluator
/// allows, and must cover the expression's depth.
pub proof fn lemma_integer_expressions_wrap(e: ExprV, st: EnvV, sc: nat, fuel: nat)
    requires
        host_int(e) is Some,
        fuel >= expr_depth(e),
    ensures
        eval_expr(e, st, sc, fuel) == (st, Ok::<ObjV, Seq<char>>(ObjV::Int(host_int(e)->0))),
    decreases e,
{
    match e {
        ExprV::Infix(l, op, r) => {
            lemma_integer_expressions_wrap(*l, st, sc, (fuel - 1) as nat);
            lemma_integer_expressions_wrap(*r, st, sc, (fuel - 1) as nat);
        },
        ExprV::Prefix(op, r) => {
            lemma_integer_expressions_wrap(*r, st, sc, (fuel - 1) as nat);
        },
        _ => {},
    }
}

/// Calling a built-in never changes a binding: `push` in particular returns
/// a new array and leaves its argument as it was.
pub proof fn lemma_builtins_leave_bindings(f: BuiltinFn, args: Seq<ObjV>, st: EnvV, fuel: nat)
    ensures
        apply_spec(ObjV::Builtin(f), args, st, fuel).0.scopes == st.scopes,
        apply_spec(ObjV::Builtin(f), args, st, fuel).0.current == st.current,
{
}

/// The same law for a program of one such expression, run by `eval`.
pub proof fn lemma_integer_program_wraps(e: ExprV, st: EnvV)
    requires
        host_int(e) is Some,
        expr_depth(e) < MAX_DEPTH,
    ensures
        eval_program(seq![StmtV::Expr(e)], 0, st, st.current, MAX_DEPTH as nat, ObjV::Null) == (
            st,
            Ok::<ObjV, Seq<char>>(ObjV::Int(host_int(e)->0)),
        ),
{
    lemma_integer_expressions_wrap(e, st, st.current, (MAX_DEPTH - 1) as nat);
    let ss = seq![StmtV::Expr(e)];
    assert(eval_stmt(ss[0], st, st.current, MAX_DEPTH as nat) == (
        st,
        Ok::<ObjV, Seq<char>>(ObjV::Int(host_int(e)->0)),
    ));
    assert(eval_program(ss, 1, st, st.current, MAX_DEPTH as nat, ObjV::Int(host_int(e)->0)) == (
        st,
        Ok::<ObjV, Seq<char>>(ObjV::Int(host_int(e)->0)),
    ));
}

/// No entry of `store` holds a `return` value.
pub open spec fn ret_free(store: Entries) -> bool {
    forall|j: int| 0 <= j < store.len() ==> !(#[trigger] store[j].1 is Ret)
}

/// No binding in any scope holds a `return` value.
pub open spec fn no_ret_bindings(st: EnvV) -> bool {
    forall|i: int| 0 <= i < st.scopes.len() ==> ret_free(#[trigger] st.scopes[i].store)
}

/// None of `vs` is a `return` value.
pub open spec fn all_plain(vs: Seq<ObjV>) -> bool {
    forall|j: int| 0 <= j < vs.len() ==> !(#[trigger] vs[j] is Ret)
}

proof fn lemma_store_set_keeps(store: Entries, n: Seq<char>, v: ObjV)
    requires
        ret_free(store),
        !(v is Ret),
    ensures
        ret_free(store_set(store, n, v)),
{
    crate::environment::lemma_find_from(store, n, 0);
}

proof fn lemma_bind_keeps(st: EnvV, sc: int, n: Seq<char>, v: ObjV)
    requires
        no_ret_bindings(st),
        0 <= sc < st.scopes.len(),
        !(v is Ret),
    ensures
        no_ret_bindings(st.bind(sc, n, v)),
        st.bind(sc, n, v).scopes.len() == st.scopes.len(),
{
    lemma_store_set_keeps(st.scopes[sc].store, n, v);
    let st2 = st.bind(sc, n, v);
    assert forall|i: int| 0 <= i < st2.scopes.len() implies ret_free(#[trigger] st2.scopes[i].store) by {
        if i != sc {
            assert(st2.scopes[i] == st.scopes[i]);
        }
    }
}

proof fn lemma_unbind_keeps(st: EnvV, sc: int, n: Seq<char>)
    requires
        no_ret_bindings(st),
        0 <= sc < st.scopes.len(),
    ensures
        no_ret_bindings(st.unbind(sc, n)),
        st.unbind(sc, n).scopes.len() == st.scopes.len(),
{
    let store = st.scopes[sc].store;
    crate::environment::lemma_find_from(store, n, 0);
    let st2 = st.unbind(sc, n);
    assert(ret_free(crate::environment::store_remove(store, n))) by {
        match crate::environment::find_from(store, n, 0) {
            Some(k) => {
                assert forall|j: int| 0 <= j < store.remove(k).len() implies !(
                #[trigger] store.remove(k)[j].1 is Ret) by {
                    if j < k {
                        assert(store.remove(k)[j] == store[j]);
                    } else {
                        assert(store.remove(k)[j] == store[j + 1]);
                    }
                }
            },
            None => {},
        }
    }
    assert forall|i: int| 0 <= i < st2.scopes.len() implies ret_free(#[trigger] st2.scopes[i].store) by {
        if i != sc {
            assert(st2.scopes[i] == st.scopes[i]);
        }
    }
}

proof fn lemma_bind_params_keeps(store: Entries, ps: Seq<ExprV>, args: Seq<ObjV>, i: int)
    requires
        ret_free(store),
        all_plain(args),
    ensures
        ret_free(bind_params(store, ps, args, i)),
    decreases ps.len() - i,
{
    if 0 <= i < ps.len() && i < args.len() {
        let next = match ps[i] {
            ExprV::Ident(n) => store_set(store, n, args[i]),
            _ => store,
        };
        if ps[i] is Ident {
            lemma_store_set_keeps(store, ps[i]->Ident_0, args[i]);
        }
        lemma_bind_params_keeps(next, ps, args, i + 1);
    }
}

proof fn lemma_apply_keeps(f: ObjV, args: Seq<ObjV>, st: EnvV, fuel: nat)
    requires
        no_ret_bindings(st),
        all_plain(args),
    ensures
        no_ret_bindings(apply_spec(f, args, st, fuel).0),
        apply_spec(f, args, st, fuel).0.scopes.len() >= st.scopes.len(),
    decreases fuel, 0nat,
{
    match f {
        ObjV::Func(ps, body, env) => {
            if env < st.scopes.len() && fuel > 0 {
                let store = bind_params(Seq::empty(), ps, args, 0);
                lemma_bind_params_keeps(Seq::empty(), ps, args, 0);
                let st1 = with_scope(st, store, env);
                assert forall|i: int| 0 <= i < st1.scopes.len() implies ret_free(
                    #[trigger] st1.scopes[i].store,
                ) by {
                    if i < st.scopes.len() {
                        assert(st1.scopes[i] == st.scopes[i]);
                    }
                }
                lemma_stmt_keeps(*body, st1, st.scopes.len(), (fuel - 1) as nat);
            }
        },
        _ => {},
    }
}

proof fn lemma_exprs_keeps(es: Seq<ExprV>, i: int, st: EnvV, sc: nat, fuel: nat, acc: Seq<ObjV>)
    requires
        no_ret_bindings(st),
        sc < st.scopes.len(),
        all_plain(acc),
    ensures
        no_ret_bindings(eval_exprs(es, i, st, sc, fuel, acc).0),
        eval_exprs(es, i, st, sc, fuel, acc).0.scopes.len() >= st.scopes.len(),
        eval_exprs(es, i, st, sc, fuel, acc).1 matches Ok(vs) ==> all_plain(vs),
    decreases fuel, es.len() - i,
{
    if 0 <= i < es.len() {
        let (st1, r) = eval_expr(es[i], st, sc, fuel);
        lemma_expr_keeps(es[i], st, sc, fuel);
        if !halts(r) {
            lemma_exprs_keeps(es, i + 1, st1, sc, fuel, acc.push(r->Ok_0));
        }
    }
}

proof fn lemma_pairs_keeps(
    ps: Seq<(ExprV, ExprV)>,
    i: int,
    st: EnvV,
    sc: nat,
    fuel: nat,
    acc: Seq<(KeyV, ObjV)>,
)
    requires
        no_ret_bindings(st),
        sc < st.scopes.len(),
    ensures
        no_ret_bindings(eval_pairs(ps, i, st, sc, fuel, acc).0),
        eval_pairs(ps, i, st, sc, fuel, acc).0.scopes.len() >= st.scopes.len(),
    decreases fuel, ps.len() - i,
{
    if 0 <= i < ps.len() {
        let (st1, k) = eval_expr(ps[i].0, st, sc, fuel);
        lemma_expr_keeps(ps[i].0, st, sc, fuel);
        if !halts(k) {
            let (st2, v) = eval_expr(ps[i].1, st1, sc, fuel);
            lemma_expr_keeps(ps[i].1, st1, sc, fuel);
            if !halts(v) {
                lemma_pairs_keeps(ps, i + 1, st2, sc, fuel, hash_insert(acc, key_of(k->Ok_0), v->Ok_0));
            }
        }
    }
}

proof fn lemma_for_keeps(
    p: Seq<char>,
    vals: Seq<ObjV>,
    i: int,
    body: StmtV,
    st: EnvV,
    sc: nat,
    fuel: nat,
    last: ObjV,
)
    requires
        no_ret_bindings(st),
        sc < st.scopes.len(),
        all_plain(vals),
    ensures
        no_ret_bindings(eval_for(p, vals, i, body, st, sc, fuel, last).0),
        eval_for(p, vals, i, body, st, sc, fuel, last).0.scopes.len() >= st.scopes.len(),
    decreases fuel, vals.len() - i,
{
    if 0 <= i < vals.len() && fuel > 0 {
        let st1 = st.bind(sc as int, p, vals[i]);
        lemma_bind_keeps(st, sc as int, p, vals[i]);
        match body {
            StmtV::Block(ss) => {
                let (st2, r) = eval_block(ss, 0, st1, sc, (fuel - 1) as nat, ObjV::Null);
                lemma_block_keeps(ss, 0, st1, sc, (fuel - 1) as nat, ObjV::Null);
                if !halts(r) {
                    lemma_for_keeps(p, vals, i + 1, body, st2, sc, fuel, r->Ok_0);
                }
            },
            _ => {
                lemma_for_keeps(p, vals, i + 1, body, st1, sc, fuel, last);
            },
        }
    }
}

proof fn lemma_expr_keeps(e: ExprV, st: EnvV, sc: nat, fuel: nat)
    requires
        no_ret_bindings(st),
        sc < st.scopes.len(),
    ensures
        no_ret_bindings(eval_expr(e, st, sc, fuel).0),
        eval_expr(e, st, sc, fuel).0.scopes.len() >= st.scopes.len(),
    decreases fuel, 0nat,
{
    if fuel > 0 {
        let f = (fuel - 1) as nat;
        match e {
            ExprV::Prefix(_, r) => {
                lemma_expr_keeps(*r, st, sc, f);
            },
            ExprV::Infix(l, op, r) => {
                if op is Assign {
                    if *l is Ident {
                        let (st1, rv) = eval_expr(*r, st, sc, f);
                        lemma_expr_keeps(*r, st, sc, f);
                        if !halts(rv) {
                            lemma_bind_keeps(st1, sc as int, l->Ident_0, rv->Ok_0);
                        }
                    }
                } else {
                    let (st1, lv) = eval_expr(*l, st, sc, f);
                    lemma_expr_keeps(*l, st, sc, f);
                    if !halts(lv) {
                        lemma_expr_keeps(*r, st1, sc, f);
                    }
                }
            },
            ExprV::If(c, t, a) => {
                let (st1, cv) = eval_expr(*c, st, sc, f);
                lemma_expr_keeps(*c, st, sc, f);
                lemma_stmt_keeps(*t, st1, sc, f);
                if a is Some {
                    lemma_stmt_keeps(*a->Some_0, st1, sc, f);
                }
            },
            ExprV::Call(fe, args) => {
                let (st1, av) = eval_exprs(args, 0, st, sc, f, Seq::empty());
                lemma_exprs_keeps(args, 0, st, sc, f, Seq::empty());
                if av is Ok {
                    let (st2, fv) = eval_expr(*fe, st1, sc, f);
                    lemma_expr_keeps(*fe, st1, sc, f);
                    if !halts(fv) {
                        lemma_apply_keeps(fv->Ok_0, av->Ok_0, st2, f);
                    }
                }
            },
            ExprV::Array(es) => {
                lemma_exprs_keeps(es, 0, st, sc, f, Seq::empty());
            },
            ExprV::Index(l, i) => {
                let (st1, lv) = eval_expr(*l, st, sc, f);
                lemma_expr_keeps(*l, st, sc, f);
                if !halts(lv) {
                    lemma_expr_keeps(*i, st1, sc, f);
                }
            },
            ExprV::Hash(ps) => {
                lemma_pairs_keeps(ps, 0, st, sc, f, Seq::empty());
            },
            ExprV::For(p, arr, body) => {
                if *arr is Array {
                    let es = arr->Array_0;
                    let (st1, av) = eval_exprs(es, 0, st, sc, f, Seq::empty());
                    lemma_exprs_keeps(es, 0, st, sc, f, Seq::empty());
                    if av is Ok {
                        let (st2, r) = eval_for(p, av->Ok_0, 0, *body, st1, sc, f, ObjV::Null);
                        lemma_for_keeps(p, av->Ok_0, 0, *body, st1, sc, f, ObjV::Null);
                        lemma_unbind_keeps(st2, sc as int, p);
                    }
                }
            },
            _ => {},
        }
    }
}

proof fn lemma_block_keeps(ss: Seq<StmtV>, i: int, st: EnvV, sc: nat, fuel: nat, last: ObjV)
    requires
        no_ret_bindings(st),
        sc < st.scopes.len(),
    ensures
        no_ret_bindings(eval_block(ss, i, st, sc, fuel, last).0),
        eval_block(ss, i, st, sc, fuel, last).0.scopes.len() >= st.scopes.len(),
    decreases fuel, ss.len() - i,
{
    if 0 <= i < ss.len() {
        let (st1, r) = eval_stmt(ss[i], st, sc, fuel);
        lemma_stmt_keeps(ss[i], st, sc, fuel);
        if r is Ok {
            lemma_block_keeps(ss, i + 1, st1, sc, fuel, r->Ok_0);
        }
    }
}

proof fn lemma_stmt_keeps(s: StmtV, st: EnvV, sc: nat, fuel: nat)
    requires
        no_ret_bindings(st),
        sc < st.scopes.len(),
    ensures
        no_ret_bindings(eval_stmt(s, st, sc, fuel).0),
        eval_stmt(s, st, sc, fuel).0.scopes.len() >= st.scopes.len(),
    decreases fuel, 0nat,
{
    if fuel > 0 {
        let f = (fuel - 1) as nat;
        match s {
            StmtV::Let(n, e) => {
                let (st1, r) = eval_expr(e, st, sc, f);
                lemma_expr_keeps(e, st, sc, f);
                if !halts(r) {
                    lemma_bind_keeps(st1, sc as int, n, r->Ok_0);
                }
            },
            StmtV::Return(e) => {
                lemma_expr_keeps(e, st, sc, f);
            },
            StmtV::Expr(e) => {
                lemma_expr_keeps(e, st, sc, f);
            },
            StmtV::Block(ss) => {
                lemma_block_keeps(ss, 0, st, sc, f, ObjV::Null);
            },
        }
    }
}

/// Running a program never binds a `return` value: if no binding held one
/// before, none holds one after.
pub proof fn lemma_program_keeps(ss: Seq<StmtV>, i: int, st: EnvV, sc: nat, fuel: nat, last: ObjV)
    requires
        no_ret_bindings(st),
        sc < st.scopes.len(),
    ensures
        no_ret_bindings(eval_program(ss, i, st, sc, fuel, last).0),
    decreases ss.len() - i,
{
    if 0 <= i < ss.len() {
        let (st1, r) = eval_stmt(ss[i], st, sc, fuel);
        lemma_stmt_keeps(ss[i], st, sc, fuel);
        if r is Ok && !(r->Ok_0 is Ret) {
            lemma_program_keeps(ss, i + 1, st1, sc, fuel, r->Ok_0);
        }
    }
}

} // verus!
