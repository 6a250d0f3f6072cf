use vstd::prelude::*;
use vstd::string::*;

use crate::ast::{exprs_view, Expression, ExprV, Statement, StmtV};
use crate::text::{bool_text, bool_to_string, int_text, int_to_string, join, join_strings};

verus! {

broadcast use vstd::std_specs::vec::axiom_vec_index_decreases;

/// The values that can key a map.
#[derive(Debug, PartialEq, Eq)]
pub enum MapKey {
    Integer(i32),
    Boolean(bool),
    String(String),
    Null,
}

/// The functions that the host provides.
#[derive(Debug, Clone, Copy, PartialEq, Eq, Structural)]
pub enum BuiltinFn {
    Len,
    First,
    Last,
    Rest,
    Push,
    Puts,
}

/// A runtime value. A function refers to the scope it was defined in by its
/// index in the environment's arena of scopes; a map keeps its entries in
/// insertion order with distinct keys.
#[derive(Debug, PartialEq, Eq)]
pub enum Object {
    Integer(i32),
    Boolean(bool),
    String(String),
    Return(Box<Object>),
    Function { parameters: Vec<Expression>, body: Box<Statement>, env: usize },
    Array(Vec<Object>),
    Builtin(BuiltinFn),
    Hash(Vec<(MapKey, Object)>),
    Null,
}

/// Mathematical model of a map key.
pub enum KeyV {
    Int(i32),
    Bool(bool),
    Str(Seq<char>),
    Null,
}

/// Mathematical model of a runtime value.
pub enum ObjV {
    Int(i32),
    Bool(bool),
    Str(Seq<char>),
    Ret(Box<ObjV>),
    Func(Seq<ExprV>, Box<StmtV>, nat),
    Array(Seq<ObjV>),
    Builtin(BuiltinFn),
    Hash(Seq<(KeyV, ObjV)>),
    Null,
}

impl MapKey {
    pub open spec fn view(&self) -> KeyV {
        match self {
            MapKey::Integer(i) => KeyV::Int(*i),
            MapKey::Boolean(b) => KeyV::Bool(*b),
            MapKey::String(s) => KeyV::Str(s@),
            MapKey::Null => KeyV::Null,
        }
    }

    /// The key that a value stands for: integers, booleans and strings key
    /// as themselves, every other value as `Null`.
    pub fn from_object(o: &Object) -> (r: MapKey)
        ensures
            r.view() == key_of(o.view()),
    {
        match o {
            Object::Integer(i) => MapKey::Integer(*i),
            Object::Boolean(b) => MapKey::Boolean(*b),
            Object::String(s) => MapKey::String(s.clone()),
            _ => MapKey::Null,
        }
    }

    pub fn duplicate(&self) -> (r: MapKey)
        ensures
            r.view() == self.view(),
    {
        match self {
            MapKey::Integer(i) => MapKey::Integer(*i),
            MapKey::Boolean(b) => MapKey::Boolean(*b),
            MapKey::String(s) => MapKey::String(s.clone()),
            MapKey::Null => MapKey::Null,
        }
    }

    /// Whether the two keys are the same.
    pub fn same(&self, other: &MapKey) -> (r: bool)
        ensures
            r == (self.view() == other.view()),
    {
        match (self, other) {
            (MapKey::Integer(a), MapKey::Integer(b)) => *a == *b,
            (MapKey::Boolean(a), MapKey::Boolean(b)) => *a == *b,
            (MapKey::String(a), MapKey::String(b)) => a.eq(b),
            (MapKey::Null, MapKey::Null) => true,
            _ => false,
        }
    }

    pub fn to_string(&self) -> (r: String)
        ensures
            r@ == key_text(self.view()),
    {
        match self {
            MapKey::Integer(i) => int_to_string(*i),
            MapKey::Boolean(b) => bool_to_string(*b),
            MapKey::String(s) => s.clone(),
            MapKey::Null => String::from_str("null"),
        }
    }
}

/// The key that a value stands for.
pub open spec fn key_of(o: ObjV) -> KeyV {
    match o {
        ObjV::Int(i) => KeyV::Int(i),
        ObjV::Bool(b) => KeyV::Bool(b),
        ObjV::Str(s) => KeyV::Str(s),
        _ => KeyV::Null,
    }
}

impl Object {
    pub open spec fn view(&self) -> ObjV
        decreases self,
    {
        match self {
            Object::Integer(i) => ObjV::Int(*i),
            Object::Boolean(b) => ObjV::Bool(*b),
            Object::String(s) => ObjV::Str(s@),
            Object::Return(v) => ObjV::Ret(Box::new(v.view())),
            Object::Function { parameters, body, env } => ObjV::Func(
                exprs_view(parameters@),
                Box::new(body.view()),
                *env as nat,
            ),
            Object::Array(v) => ObjV::Array(
                Seq::new(
                    v.len() as nat,
                    |i: int|
                        if 0 <= i < v.len() {
                            v[i].view()
                        } else {
                            ObjV::Null
                        },
                ),
            ),
            Object::Builtin(f) => ObjV::Builtin(*f),
            Object::Hash(v) => ObjV::Hash(
                Seq::new(
                    v.len() as nat,
                    |i: int|
                        if 0 <= i < v.len() {
                            (v[i].0.view(), v[i].1.view())
                        } else {
                            (KeyV::Null, ObjV::Null)
                        },
                ),
            ),
            Object::Null => ObjV::Null,
        }
    }
}

/// Views of the values in `v`.
pub open spec fn objs_view(v: Seq<Object>) -> Seq<ObjV> {
    Seq::new(v.len(), |i: int| v[i].view())
}

/// Views of the entries in `v`.
pub open spec fn entries_view(v: Seq<(MapKey, Object)>) -> Seq<(KeyV, ObjV)> {
    Seq::new(v.len(), |i: int| (v[i].0.view(), v[i].1.view()))
}

pub proof fn lemma_object_vec_views(o: Object)
    ensures
        o is Array ==> o.view() == ObjV::Array(objs_view(o->Array_0@)),
        o is Hash ==> o.view() == ObjV::Hash(entries_view(o->Hash_0@)),
{
    if o is Array {
        assert(o.view()->Array_0 =~= objs_view(o->Array_0@));
    }
    if o is Hash {
        assert(o.view()->Hash_0 =~= entries_view(o->Hash_0@));
    }
}

pub open spec fn key_text(k: KeyV) -> Seq<char> {
    match k {
        KeyV::Int(i) => int_text(i as int),
        KeyV::Bool(b) => bool_text(b),
        KeyV::Str(s) => s,
        KeyV::Null => "null"@,
    }
}

/// The text of each value in `s`.
pub open spec fn obj_text_items(s: Seq<ObjV>) -> Seq<Seq<char>>
    decreases s, 0int,
{
    Seq::new(
        s.len(),
        |i: int|
            if 0 <= i < s.len() {
                obj_text(s[i])
            } else {
                Seq::empty()
            },
    )
}

/// The text `key: value` of each entry in `s`.
pub open spec fn entry_text_items(s: Seq<(KeyV, ObjV)>) -> Seq<Seq<char>>
    decreases s, 0int,
{
    Seq::new(
        s.len(),
        |i: int|
            if 0 <= i < s.len() {
                key_text(s[i].0) + ": "@ + obj_text(s[i].1)
            } else {
                Seq::empty()
            },
    )
}

/// The canonical textual form of a value.
pub open spec fn obj_text(o: ObjV) -> Seq<char>
    decreases o,
{
    match o {
        ObjV::Int(i) => int_text(i as int),
        ObjV::Bool(b) => bool_text(b),
        ObjV::Str(s) => s,
        ObjV::Ret(v) => obj_text(*v),
        ObjV::Func(_, _, _) => Seq::empty(),
        ObjV::Array(s) => "["@ + join(obj_text_items(s), ","@) + "]"@,
        ObjV::Builtin(_) => "builtin function"@,
        ObjV::Hash(s) => "{"@ + join(entry_text_items(s), ","@) + "}"@,
        ObjV::Null => "null"@,
    }
}

impl Object {
    /// The canonical textual form of this value.
    pub fn to_string(&self) -> (r: String)
        ensures
            r@ == obj_text(self.view()),
        decreases self,
    {
        proof {
            lemma_object_vec_views(*self);
        }
        match self {
            Object::Integer(i) => int_to_string(*i),
            Object::Boolean(b) => bool_to_string(*b),
            Object::String(s) => s.clone(),
            Object::Return(v) => v.to_string(),
            Object::Function { .. } => String::new(),
            Object::Builtin(_) => String::from_str("builtin function"),
            Object::Null => String::from_str("null"),
            Object::Array(v) => {
                let mut items: Vec<String> = Vec::new();
                let mut i: usize = 0;
                while i < v.len()
                    invariant
                        *self == Object::Array(*v),
                        i <= v.len(),
                        items.len() == i,
                        forall|j: int| 0 <= j < i ==> #[trigger] items[j]@ == obj_text(v[j].view()),
                    decreases v.len() - i,
                {
                    proof {
                        assert(decreases_to!(*self => self->Array_0));
                        assert(decreases_to!(*v => v[i as int]));
                    }
                    items.push(v[i].to_string());
                    i = i + 1;
                }
                let mut r = String::from_str("[");
                let t = join_strings(&items, ",");
                r.append(t.as_str());
                r.append("]");
                proof {
                    assert(Seq::new(items.len() as nat, |i: int| items[i]@) =~= obj_text_items(
                        objs_view(v@),
                    ));
                }
                r
            },
            Object::Hash(v) => {
                let mut items: Vec<String> = Vec::new();
                let mut i: usize = 0;
                while i < v.len()
                    invariant
                        *self == Object::Hash(*v),
                        i <= v.len(),
                        items.len() == i,
                        forall|j: int|
                            0 <= j < i ==> #[trigger] items[j]@ == key_text(v[j].0.view()) + ": "@
                                + obj_text(v[j].1.view()),
                    decreases v.len() - i,
                {
                    proof {
                        assert(decreases_to!(*self => self->Hash_0));
                        assert(decreases_to!(*v => v[i as int]));
                        assert(decreases_to!(v[i as int] => v[i as int].1));
                    }
                    let mut t = v[i].0.to_string();
                    t.append(": ");
                    let u = v[i].1.to_string();
                    t.append(u.as_str());
                    items.push(t);
                    i = i + 1;
                }
                let mut r = String::from_str("{");
                let t = join_strings(&items, ",");
                r.append(t.as_str());
                r.append("}");
                proof {
                    assert(Seq::new(items.len() as nat, |i: int| items[i]@) =~= entry_text_items(
                        entries_view(v@),
                    ));
                }
                r
            },
        }
    }

    /// A copy with the same view.
    pub fn duplicate(&self) -> (r: Object)
        ensures
            r.view() == self.view(),
        decreases self,
    {
        proof {
            lemma_object_vec_views(*self);
        }
        let r = match self {
            Object::Integer(i) => Object::Integer(*i),
            Object::Boolean(b) => Object::Boolean(*b),
            Object::String(s) => Object::String(s.clone()),
            Object::Return(v) => Object::Return(Box::new(v.duplicate())),
            Object::Function { parameters, body, env } => {
                let mut ps: Vec<Expression> = Vec::new();
                let mut i: usize = 0;
                while i < parameters.len()
                    invariant
                        i <= parameters.len(),
                        ps.len() == i,
                        forall|j: int| 0 <= j < i ==> #[trigger] ps[j].view() == parameters[j].view(),
                    decreases parameters.len() - i,
                {
                    ps.push(parameters[i].duplicate());
                    i = i + 1;
                }
                assert(exprs_view(ps@) =~= exprs_view(parameters@));
                Object::Function { parameters: ps, body: Box::new(body.duplicate()), env: *env }
            },
            Object::Builtin(f) => Object::Builtin(*f),
            Object::Null => Object::Null,
            Object::Array(v) => {
                let mut out: Vec<Object> = Vec::new();
                let mut i: usize = 0;
                while i < v.len()
                    invariant
                        *self == Object::Array(*v),
                        i <= v.len(),
                        out.len() == i,
                        forall|j: int| 0 <= j < i ==> #[trigger] out[j].view() == v[j].view(),
                    decreases v.len() - i,
                {
                    proof {
                        assert(decreases_to!(*self => self->Array_0));
                        assert(decreases_to!(*v => v[i as int]));
                    }
                    out.push(v[i].duplicate());
                    i = i + 1;
                }
                assert(objs_view(out@) =~= objs_view(v@));
                Object::Array(out)
            },
            Object::Hash(v) => {
                let mut out: Vec<(MapKey, Object)> = Vec::new();
                let mut i: usize = 0;
                while i < v.len()
                    invariant
                        *self == Object::Hash(*v),
                        i <= v.len(),
                        out.len() == i,
                        forall|j: int|
                            0 <= j < i ==> #[trigger] out[j].0.view() == v[j].0.view()
                                && out[j].1.view() == v[j].1.view(),
                    decreases v.len() - i,
                {
                    proof {
                        assert(decreases_to!(*self => self->Hash_0));
                        assert(decreases_to!(*v => v[i as int]));
                        assert(decreases_to!(v[i as int] => v[i as int].1));
                    }
                    let k = v[i].0.duplicate();
                    let w = v[i].1.duplicate();
                    out.push((k, w));
                    i = i + 1;
                }
                assert forall|j: int| 0 <= j < v.len() implies entries_view(out@)[j]
                    == entries_view(v@)[j] by {
                    assert(out[j].0.view() == v[j].0.view());
                }
                assert(entries_view(out@) =~= entries_view(v@));
                Object::Hash(out)
            },
        };
        proof {
            lemma_object_vec_views(r);
        }
        r
    }
}

} // verus!
