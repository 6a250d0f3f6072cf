use vstd::prelude::*;
use vstd::string::*;

use crate::environment::Entries;
use crate::error::Error;
use crate::object::{lemma_object_vec_views, objs_view, obj_text, BuiltinFn, Object, ObjV};
use crate::text::{nat_text, nat_to_string};

verus! {

/// The built-in table: each host function under its name.
pub open spec fn table() -> Entries {
    seq![
        ("len"@, ObjV::Builtin(BuiltinFn::Len)),
        ("first"@, ObjV::Builtin(BuiltinFn::First)),
        ("last"@, ObjV::Builtin(BuiltinFn::Last)),
        ("rest"@, ObjV::Builtin(BuiltinFn::Rest)),
        ("push"@, ObjV::Builtin(BuiltinFn::Push)),
        ("puts"@, ObjV::Builtin(BuiltinFn::Puts)),
    ]
}

pub open spec fn entries_view(v: Seq<(String, Object)>) -> Entries {
    Seq::new(v.len(), |i: int| (v[i].0@, v[i].1.view()))
}

/// The built-in table.
pub fn new() -> (r: Vec<(String, Object)>)
    ensures
        entries_view(r@) == table(),
{
    let mut r: Vec<(String, Object)> = Vec::new();
    r.push((String::from_str("len"), Object::Builtin(BuiltinFn::Len)));
    r.push((String::from_str("first"), Object::Builtin(BuiltinFn::First)));
    r.push((String::from_str("last"), Object::Builtin(BuiltinFn::Last)));
    r.push((String::from_str("rest"), Object::Builtin(BuiltinFn::Rest)));
    r.push((String::from_str("push"), Object::Builtin(BuiltinFn::Push)));
    r.push((String::from_str("puts"), Object::Builtin(BuiltinFn::Puts)));
    assert(entries_view(r@) =~= table());
    r
}

/// What a built-in returns: a value, or an error message.
pub type BuiltinResult = Result<ObjV, Seq<char>>;

/// The kind of a value, as error messages name it.
pub open spec fn kind_name(o: ObjV) -> Seq<char> {
    match o {
        ObjV::Int(_) => "INTEGER"@,
        ObjV::Bool(_) => "BOOLEAN"@,
        ObjV::Str(_) => "STRING"@,
        ObjV::Ret(_) => "RETURN"@,
        ObjV::Func(_, _, _) => "FUNCTION"@,
        ObjV::Array(_) => "ARRAY"@,
        ObjV::Builtin(_) => "BUILTIN"@,
        ObjV::Hash(_) => "HASH"@,
        ObjV::Null => "NULL"@,
    }
}

pub open spec fn arity_message(got: nat, want: nat) -> Seq<char> {
    "wrong number of arguments. got="@ + nat_text(got) + ", want="@ + nat_text(want)
}

pub open spec fn builtin_arity(f: BuiltinFn) -> nat {
    match f {
        BuiltinFn::Push => 2,
        _ => 1,
    }
}

/// The result of calling built-in `f` on `args`.
pub open spec fn builtin_spec(f: BuiltinFn, args: Seq<ObjV>) -> BuiltinResult {
    if f is Puts {
        Ok(ObjV::Null)
    } else if args.len() != builtin_arity(f) {
        Err(arity_message(args.len(), builtin_arity(f)))
    } else {
        match f {
            BuiltinFn::Len => match args[0] {
                ObjV::Str(s) => Ok(ObjV::Int((vstd::utf8::encode_utf8(s).len() as usize) as i32)),
                ObjV::Array(a) => Ok(ObjV::Int(a.len() as i32)),
                o => Err("argument to `len` not supported, got "@ + kind_name(o)),
            },
            BuiltinFn::First => match args[0] {
                ObjV::Array(a) => Ok(
                    if a.len() > 0 {
                        a[0]
                    } else {
                        ObjV::Null
                    },
                ),
                o => Err("argument to `first` must be Array, got "@ + kind_name(o)),
            },
            BuiltinFn::Last => match args[0] {
                ObjV::Array(a) => Ok(
                    if a.len() > 0 {
                        a.last()
                    } else {
                        ObjV::Null
                    },
                ),
                o => Err("argument to `last` must be Array, got "@ + kind_name(o)),
            },
            BuiltinFn::Rest => match args[0] {
                ObjV::Array(a) => Ok(
                    if a.len() > 0 {
                        ObjV::Array(a.drop_first())
                    } else {
                        ObjV::Null
                    },
                ),
                o => Err("argument to `rest` must be Array, got "@ + kind_name(o)),
            },
            BuiltinFn::Push => match args[0] {
                ObjV::Array(a) => Ok(ObjV::Array(a.push(args[1]))),
                o => Err("first argument to `push` must be Array, got "@ + kind_name(o)),
            },
            BuiltinFn::Puts => Ok(ObjV::Null),
        }
    }
}

/// The lines that calling built-in `f` on `args` prints: one per argument
/// for `puts`, none for the others.
pub open spec fn builtin_printed(f: BuiltinFn, args: Seq<ObjV>) -> Seq<Seq<char>> {
    if f is Puts {
        Seq::new(args.len(), |i: int| obj_text(args[i]))
    } else {
        Seq::empty()
    }
}

/// A builtin's outcome, with a message for `Err`.
pub open spec fn builtin_result_view(r: Result<Object, Error>) -> BuiltinResult {
    match r {
        Ok(o) => Ok(o.view()),
        Err(Error::EvalError { msg }) => Err(msg@),
        Err(Error::ParseError { msg }) => Err(msg@),
    }
}

fn kind_name_of(o: &Object) -> (r: String)
    ensures
        r@ == kind_name(o.view()),
{
    match o {
        Object::Integer(_) => String::from_str("INTEGER"),
        Object::Boolean(_) => String::from_str("BOOLEAN"),
        Object::String(_) => String::from_str("STRING"),
        Object::Return(_) => String::from_str("RETURN"),
        Object::Function { .. } => String::from_str("FUNCTION"),
        Object::Array(_) => String::from_str("ARRAY"),
        Object::Builtin(_) => String::from_str("BUILTIN"),
        Object::Hash(_) => String::from_str("HASH"),
        Object::Null => String::from_str("NULL"),
    }
}

fn arity_error(got: usize, want: u64) -> (r: Error)
    ensures
        r == (Error::EvalError { msg: r->EvalError_msg }),
        r->EvalError_msg@ == arity_message(got as nat, want as nat),
{
    let mut msg = String::from_str("wrong number of arguments. got=");
    let g = nat_to_string(got as u64);
    msg.append(g.as_str());
    msg.append(", want=");
    let w = nat_to_string(want);
    msg.append(w.as_str());
    Error::EvalError { msg }
}

fn type_error(prefix: &str, o: &Object) -> (r: Error)
    ensures
        r == (Error::EvalError { msg: r->EvalError_msg }),
        r->EvalError_msg@ == prefix@ + kind_name(o.view()),
{
    let mut msg = String::from_str(prefix);
    let t = kind_name_of(o);
    msg.append(t.as_str());
    Error::EvalError { msg }
}

/// Length of a string (in bytes of its UTF-8 encoding) or of an array.
pub fn len(args: &Vec<Object>) -> (r: Result<Object, Error>)
    ensures
        r is Err ==> r->Err_0 is EvalError,
        builtin_result_view(r) == builtin_spec(BuiltinFn::Len, objs_view(args@)),
{
    if args.len() != 1 {
        return Err(arity_error(args.len(), 1));
    }
    proof {
        lemma_object_vec_views(args[0]);
    }
    match &args[0] {
        Object::String(s) => {
            let t = s.as_str();
            assert(t.spec_bytes() == vstd::utf8::encode_utf8(s@));
            Ok(Object::Integer(#[verifier::truncate] (t.len() as i32)))
        },
        Object::Array(a) => Ok(Object::Integer(a.len() as i32)),
        o => Err(type_error("argument to `len` not supported, got ", o)),
    }
}

/// First element of an array, or `Null` when it is empty.
pub fn first(args: &Vec<Object>) -> (r: Result<Object, Error>)
    ensures
        r is Err ==> r->Err_0 is EvalError,
        builtin_result_view(r) == builtin_spec(BuiltinFn::First, objs_view(args@)),
{
    if args.len() != 1 {
        return Err(arity_error(args.len(), 1));
    }
    proof {
        lemma_object_vec_views(args[0]);
    }
    match &args[0] {
        Object::Array(a) => if a.len() > 0 {
            Ok(a[0].duplicate())
        } else {
            Ok(Object::Null)
        },
        o => Err(type_error("argument to `first` must be Array, got ", o)),
    }
}

/// Last element of an array, or `Null` when it is empty.
pub fn last(args: &Vec<Object>) -> (r: Result<Object, Error>)
    ensures
        r is Err ==> r->Err_0 is EvalError,
        builtin_result_view(r) == builtin_spec(BuiltinFn::Last, objs_view(args@)),
{
    if args.len() != 1 {
        return Err(arity_error(args.len(), 1));
    }
    proof {
        lemma_object_vec_views(args[0]);
    }
    match &args[0] {
        Object::Array(a) => if a.len() > 0 {
            Ok(a[a.len() - 1].duplicate())
        } else {
            Ok(Object::Null)
        },
        o => Err(type_error("argument to `last` must be Array, got ", o)),
    }
}

/// All but the first element of an array as a new array, or `Null` when it
/// is empty.
pub fn rest(args: &Vec<Object>) -> (r: Result<Object, Error>)
    ensures
        r is Err ==> r->Err_0 is EvalError,
        builtin_result_view(r) == builtin_spec(BuiltinFn::Rest, objs_view(args@)),
{
    if args.len() != 1 {
        return Err(arity_error(args.len(), 1));
    }
    proof {
        lemma_object_vec_views(args[0]);
    }
    match &args[0] {
        Object::Array(a) => {
            if a.len() == 0 {
                return Ok(Object::Null);
            }
            let mut out: Vec<Object> = Vec::new();
            let mut i: usize = 1;
            while i < a.len()
                invariant
                    1 <= i <= a.len(),
                    out.len() == i - 1,
                    forall|j: int| 0 <= j < out.len() ==> #[trigger] out[j].view() == a[j + 1].view(),
                decreases a.len() - i,
            {
                out.push(a[i].duplicate());
                i = i + 1;
            }
            let r = Object::Array(out);
            proof {
                lemma_object_vec_views(r);
                assert(objs_view(out@) =~= objs_view(a@).drop_first());
            }
            Ok(r)
        },
        o => Err(type_error("argument to `rest` must be Array, got ", o)),
    }
}

/// A new array: the first argument's elements, then the second argument.
/// The first argument is left as it was.
pub fn push(args: &Vec<Object>) -> (r: Result<Object, Error>)
    ensures
        r is Err ==> r->Err_0 is EvalError,
        builtin_result_view(r) == builtin_spec(BuiltinFn::Push, objs_view(args@)),
{
    if args.len() != 2 {
        return Err(arity_error(args.len(), 2));
    }
    proof {
        lemma_object_vec_views(args[0]);
    }
    match &args[0] {
        Object::Array(a) => {
            let mut out: Vec<Object> = Vec::new();
            let mut i: usize = 0;
            while i < a.len()
                invariant
                    i <= a.len(),
                    out.len() == i,
                    forall|j: int| 0 <= j < i ==> #[trigger] out[j].view() == a[j].view(),
                decreases a.len() - i,
            {
                out.push(a[i].duplicate());
                i = i + 1;
            }
            out.push(args[1].duplicate());
            let r = Object::Array(out);
            proof {
                lemma_object_vec_views(r);
                assert(objs_view(out@) =~= objs_view(a@).push(args[1].view()));
            }
            Ok(r)
        },
        o => Err(type_error("first argument to `push` must be Array, got ", o)),
    }
}

/// The lines that `puts` prints for `args`: the text of each argument.
pub fn puts(args: &Vec<Object>) -> (r: Vec<String>)
    ensures
        Seq::new(r.len() as nat, |i: int| r[i]@) == builtin_printed(BuiltinFn::Puts, objs_view(args@)),
{
    let mut out: Vec<String> = Vec::new();
    let mut i: usize = 0;
    while i < args.len()
        invariant
            i <= args.len(),
            out.len() == i,
            forall|j: int| 0 <= j < i ==> #[trigger] out[j]@ == obj_text(args[j].view()),
        decreases args.len() - i,
    {
        out.push(args[i].to_string());
        i = i + 1;
    }
    assert(Seq::new(out.len() as nat, |i: int| out[i]@) =~= builtin_printed(
        BuiltinFn::Puts,
        objs_view(args@),
    ));
    out
}

} // verus!
