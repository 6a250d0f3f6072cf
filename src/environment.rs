use vstd::prelude::*;

use crate::builtins;
use crate::object::{Object, ObjV};

verus! {

/// Entries of a store or of the built-in table: a name and its value.
pub type Entries = Seq<(Seq<char>, ObjV)>;

/// Index of the first entry named `name`, looking from `i` on.
pub open spec fn find_from(store: Entries, name: Seq<char>, i: int) -> Option<int>
    decreases store.len() - i,
{
    if 0 <= i < store.len() {
        if store[i].0 == name {
            Some(i)
        } else {
            find_from(store, name, i + 1)
        }
    } else {
        None
    }
}

pub proof fn lemma_find_from(store: Entries, name: Seq<char>, i: int)
    requires
        0 <= i,
    ensures
        match find_from(store, name, i) {
            Some(k) => i <= k < store.len() && store[k].0 == name && forall|j: int|
                i <= j < k ==> store[j].0 != name,
            None => forall|j: int| i <= j < store.len() ==> store[j].0 != name,
        },
    decreases store.len() - i,
{
    if i < store.len() {
        lemma_find_from(store, name, i + 1);
    }
}

/// The value bound to `name` in `store`.
pub open spec fn store_get(store: Entries, name: Seq<char>) -> Option<ObjV> {
    match find_from(store, name, 0) {
        Some(k) => Some(store[k].1),
        None => None,
    }
}

/// `store` with `name` bound to `v`: the entry is replaced where there is
/// one, else added at the end.
pub open spec fn store_set(store: Entries, name: Seq<char>, v: ObjV) -> Entries {
    match find_from(store, name, 0) {
        Some(k) => store.update(k, (name, v)),
        None => store.push((name, v)),
    }
}

/// `store` without its entry for `name`.
pub open spec fn store_remove(store: Entries, name: Seq<char>) -> Entries {
    match find_from(store, name, 0) {
        Some(k) => store.remove(k),
        None => store,
    }
}

/// Mathematical model of a scope: its bindings and its parent's index.
pub struct ScopeV {
    pub store: Entries,
    pub parent: Option<nat>,
}

/// Mathematical model of an environment: the arena of scopes, the active
/// scope, and the lines printed so far that nobody has taken yet.
pub struct EnvV {
    pub scopes: Seq<ScopeV>,
    pub current: nat,
    pub output: Seq<Seq<char>>,
}

/// The value that `name` denotes from scope `idx`: the innermost binding on
/// the chain of parents, else the built-in of that name.
pub open spec fn lookup(scopes: Seq<ScopeV>, idx: int, name: Seq<char>) -> Option<ObjV>
    decreases idx,
{
    if 0 <= idx < scopes.len() {
        match store_get(scopes[idx].store, name) {
            Some(v) => Some(v),
            None => match scopes[idx].parent {
                Some(p) => if p < idx {
                    lookup(scopes, p as int, name)
                } else {
                    store_get(builtins::table(), name)
                },
                None => store_get(builtins::table(), name),
            },
        }
    } else {
        store_get(builtins::table(), name)
    }
}

/// A scope that does not bind `name` sees the binding of its parent, as the
/// parent holds it at the time of the lookup.
pub proof fn lemma_enclosed_sees_parent(scopes: Seq<ScopeV>, child: int, name: Seq<char>)
    requires
        0 <= child < scopes.len(),
        scopes[child].parent matches Some(p) && p < child,
        store_get(scopes[child].store, name) is None,
    ensures
        lookup(scopes, child, name) == lookup(scopes, scopes[child].parent->Some_0 as int, name),
{
}

/// Parents come before their children in the arena.
pub open spec fn scopes_wf(scopes: Seq<ScopeV>) -> bool {
    forall|i: int|
        0 <= i < scopes.len() ==> match #[trigger] scopes[i].parent {
            Some(p) => p < i,
            None => true,
        }
}

impl EnvV {
    pub open spec fn wf(self) -> bool {
        &&& self.current < self.scopes.len()
        &&& scopes_wf(self.scopes)
    }

    /// The state after binding `name` to `v` in scope `sc`.
    pub open spec fn bind(self, sc: int, name: Seq<char>, v: ObjV) -> EnvV {
        EnvV {
            scopes: self.scopes.update(
                sc,
                ScopeV {
                    store: store_set(self.scopes[sc].store, name, v),
                    parent: self.scopes[sc].parent,
                },
            ),
            ..self
        }
    }

    /// The state after dropping the binding of `name` in scope `sc`.
    pub open spec fn unbind(self, sc: int, name: Seq<char>) -> EnvV {
        EnvV {
            scopes: self.scopes.update(
                sc,
                ScopeV {
                    store: store_remove(self.scopes[sc].store, name),
                    parent: self.scopes[sc].parent,
                },
            ),
            ..self
        }
    }
}

/// A well-formed environment has a well-formed model.
pub proof fn lemma_wf_view(env: &Environment)
    requires
        env.wf(),
    ensures
        env.view().wf(),
{
}

/// A scope: its bindings in insertion order, and its parent's index.
#[derive(Debug)]
pub struct Scope {
    store: Vec<(String, Object)>,
    parent: Option<usize>,
}

impl Scope {
    pub closed spec fn view(&self) -> ScopeV {
        ScopeV {
            store: Seq::new(self.store.len() as nat, |i: int| (self.store[i].0@, self.store[i].1.view())),
            parent: match self.parent {
                Some(p) => Some(p as nat),
                None => None,
            },
        }
    }
}

/// Name-to-value bindings, lexically scoped. The scopes live in an arena and
/// refer to their parent by index, so a function value can keep the scope it
/// was defined in for as long as the environment lives.
#[derive(Debug)]
pub struct Environment {
    scopes: Vec<Scope>,
    current: usize,
    output: Vec<String>,
    builtins: Vec<(String, Object)>,
}

impl Environment {
    pub closed spec fn view(&self) -> EnvV {
        EnvV {
            scopes: Seq::new(self.scopes.len() as nat, |i: int| self.scopes[i].view()),
            current: self.current as nat,
            output: Seq::new(self.output.len() as nat, |i: int| self.output[i]@),
        }
    }

    pub closed spec fn wf(&self) -> bool {
        &&& self.view().wf()
        &&& builtins::entries_view(self.builtins@) == builtins::table()
    }

    /// A root environment with no bindings but the built-ins.
    pub fn new() -> (r: Environment)
        ensures
            r.wf(),
            r.view() == (EnvV {
                scopes: seq![ScopeV { store: Seq::empty(), parent: None }],
                current: 0,
                output: Seq::empty(),
            }),
    {
        let mut scopes: Vec<Scope> = Vec::new();
        scopes.push(Scope { store: Vec::new(), parent: None });
        let r = Environment { scopes, current: 0, output: Vec::new(), builtins: builtins::new() };
        assert(r.view().scopes[0].store =~= Seq::<(Seq<char>, ObjV)>::empty());
        assert(r.view().scopes =~= seq![ScopeV { store: Seq::empty(), parent: None }]);
        assert(r.view().output =~= Seq::<Seq<char>>::empty());
        r
    }

    /// Adds to `outer`'s arena an empty scope enclosed by its active scope,
    /// and returns the new scope's index; the active scope does not change.
    /// The parent is shared, not copied: a name that the new scope does not
    /// bind is looked up in the parent as it is at the time of the lookup
    /// (`lemma_enclosed_sees_parent`).
    pub fn new_enclosed(outer: &mut Environment) -> (child: usize)
        requires
            old(outer).wf(),
        ensures
            final(outer).wf(),
            child == old(outer).view().scopes.len(),
            final(outer).view() == (EnvV {
                scopes: old(outer).view().scopes.push(
                    ScopeV { store: Seq::empty(), parent: Some(old(outer).view().current) },
                ),
                ..old(outer).view()
            }),
    {
        let parent = outer.current;
        let store: Vec<(String, Object)> = Vec::new();
        let child = outer.push_scope(parent, store);
        assert(Seq::new(store.len() as nat, |i: int| (store[i].0@, store[i].1.view())) =~= Seq::<
            (Seq<char>, ObjV),
        >::empty());
        child
    }

    /// Number of scopes in the arena.
    pub fn scope_count(&self) -> (r: usize)
        ensures
            r == self.view().scopes.len(),
    {
        self.scopes.len()
    }

    /// The active scope.
    pub fn current_scope(&self) -> (r: usize)
        ensures
            r == self.view().current,
    {
        self.current
    }

    /// Index of the entry named `name` in scope `sc`.
    fn find(&self, sc: usize, name: &String) -> (r: Option<usize>)
        requires
            sc < self.view().scopes.len(),
        ensures
            match r {
                Some(k) => find_from(self.view().scopes[sc as int].store, name@, 0) == Some(k as int)
                    && k < self.view().scopes[sc as int].store.len(),
                None => find_from(self.view().scopes[sc as int].store, name@, 0) is None,
            },
    {
        proof {
            lemma_find_from(self.view().scopes[sc as int].store, name@, 0);
        }
        let ghost store = self.view().scopes[sc as int].store;
        let s = &self.scopes[sc];
        let mut i: usize = 0;
        while i < s.store.len()
            invariant
                sc < self.scopes.len(),
                *s == self.scopes[sc as int],
                store == self.view().scopes[sc as int].store,
                store == s.view().store,
                i <= s.store.len(),
                find_from(store, name@, i as int) == find_from(store, name@, 0),
            decreases s.store.len() - i,
        {
            if s.store[i].0.eq(name) {
                assert(store[i as int].0 == name@);
                return Some(i);
            }
            i = i + 1;
        }
        None
    }

    fn builtin(&self, name: &String) -> (r: Option<&Object>)
        requires
            self.wf(),
        ensures
            match store_get(builtins::table(), name@) {
                Some(v) => r matches Some(o) && o.view() == v,
                None => r is None,
            },
    {
        let ghost t = builtins::table();
        let mut i: usize = 0;
        while i < self.builtins.len()
            invariant
                self.wf(),
                t == builtins::table(),
                i <= self.builtins.len(),
                find_from(t, name@, i as int) == find_from(t, name@, 0),
            decreases self.builtins.len() - i,
        {
            if self.builtins[i].0.eq(name) {
                return Some(&self.builtins[i].1);
            }
            i = i + 1;
        }
        None
    }

    /// The value that `name` denotes from scope `sc`.
    pub fn get_from(&self, sc: usize, name: &String) -> (r: Option<&Object>)
        requires
            self.wf(),
        ensures
            match lookup(self.view().scopes, sc as int, name@) {
                Some(v) => r matches Some(o) && o.view() == v,
                None => r is None,
            },
        decreases sc,
    {
        if sc >= self.scopes.len() {
            return self.builtin(name);
        }
        let ghost sv = self.view().scopes[sc as int];
        assert(sv == self.scopes[sc as int].view());
        match self.find(sc, name) {
            Some(k) => {
                assert(sv.store[k as int].1 == self.scopes[sc as int].store[k as int].1.view());
                assert(store_get(sv.store, name@) == Some(sv.store[k as int].1));
                assert(lookup(self.view().scopes, sc as int, name@) == Some(sv.store[k as int].1));
                Some(&self.scopes[sc].store[k].1)
            },
            None => match self.scopes[sc].parent {
                Some(p) => if p < sc {
                    self.get_from(p, name)
                } else {
                    self.builtin(name)
                },
                None => self.builtin(name),
            },
        }
    }

    /// The value that `name` denotes from the active scope.
    pub fn get(&self, name: &String) -> (r: Option<&Object>)
        requires
            self.wf(),
        ensures
            match lookup(self.view().scopes, self.view().current as int, name@) {
                Some(v) => r matches Some(o) && o.view() == v,
                None => r is None,
            },
    {
        self.get_from(self.current, name)
    }

    /// Binds `name` to `value` in scope `sc`, replacing a binding of that name.
    pub fn set_in(&mut self, sc: usize, name: String, value: Object)
        requires
            old(self).wf(),
            sc < old(self).view().scopes.len(),
        ensures
            final(self).wf(),
            final(self).view() == old(self).view().bind(sc as int, name@, value.view()),
    {
        let ghost before = self.view();
        let ghost old_scopes = self.scopes@;
        let ghost nv = name@;
        let ghost vv = value.view();
        let ghost target = before.bind(sc as int, nv, vv);
        proof {
            lemma_find_from(before.scopes[sc as int].store, nv, 0);
        }
        match self.find(sc, &name) {
            Some(k) => {
                self.scopes[sc].store[k] = (name, value);
            },
            None => {
                self.scopes[sc].store.push((name, value));
            },
        }
        assert forall|j: int| 0 <= j < self.scopes.len() && j != sc implies self.scopes[j] == old_scopes[j] by {}
        assert(self.view().scopes[sc as int].store =~= target.scopes[sc as int].store);
        assert(self.view().scopes =~= target.scopes);
        assert(self.view().output =~= before.output);
    }

    /// Binds `name` to `value` in the active scope.
    pub fn set(&mut self, name: String, value: Object)
        requires
            old(self).wf(),
        ensures
            final(self).wf(),
            final(self).view() == old(self).view().bind(
                old(self).view().current as int,
                name@,
                value.view(),
            ),
    {
        let sc = self.current;
        self.set_in(sc, name, value);
    }

    /// Drops the binding of `name` in scope `sc`, if there is one.
    pub fn remove_in(&mut self, sc: usize, name: &String)
        requires
            old(self).wf(),
            sc < old(self).view().scopes.len(),
        ensures
            final(self).wf(),
            final(self).view() == old(self).view().unbind(sc as int, name@),
    {
        let ghost before = self.view();
        let ghost old_scopes = self.scopes@;
        proof {
            lemma_find_from(before.scopes[sc as int].store, name@, 0);
        }
        match self.find(sc, name) {
            Some(k) => {
                let _ = self.scopes[sc].store.remove(k);
            },
            None => {},
        }
        assert forall|j: int| 0 <= j < self.scopes.len() && j != sc implies self.scopes[j] == old_scopes[j] by {}
        assert(self.view().scopes[sc as int].store =~= before.unbind(sc as int, name@).scopes[sc as int].store);
        assert(self.view().scopes =~= before.unbind(sc as int, name@).scopes);
        assert(self.view().output =~= before.output);
    }

    /// Adds a scope with the given bindings whose parent is `parent`, and
    /// returns its index. The active scope does not change.
    pub fn push_scope(&mut self, parent: usize, store: Vec<(String, Object)>) -> (r: usize)
        requires
            old(self).wf(),
            parent < old(self).view().scopes.len(),
        ensures
            final(self).wf(),
            r == old(self).view().scopes.len(),
            final(self).view() == (EnvV {
                scopes: old(self).view().scopes.push(
                    ScopeV {
                        store: Seq::new(store.len() as nat, |i: int| (store[i].0@, store[i].1.view())),
                        parent: Some(parent as nat),
                    },
                ),
                ..old(self).view()
            }),
    {
        let ghost before = self.view();
        let n = self.scopes.len();
        self.scopes.push(Scope { store, parent: Some(parent) });
        assert(self.view().scopes =~= before.scopes.push(
            ScopeV {
                store: Seq::new(store.len() as nat, |i: int| (store[i].0@, store[i].1.view())),
                parent: Some(parent as nat),
            },
        ));
        assert(self.view().output =~= before.output);
        n
    }

    /// Records a line printed by the program.
    pub fn emit(&mut self, line: String)
        requires
            old(self).wf(),
        ensures
            final(self).wf(),
            final(self).view() == (EnvV {
                output: old(self).view().output.push(line@),
                ..old(self).view()
            }),
    {
        let ghost before = self.view();
        self.output.push(line);
        assert(self.view().scopes =~= before.scopes);
        assert(self.view().output =~= before.output.push(line@));
    }

    /// Hands out the lines printed so far and forgets them.
    pub fn take_output(&mut self) -> (r: Vec<String>)
        requires
            old(self).wf(),
        ensures
            final(self).wf(),
            Seq::new(r.len() as nat, |i: int| r[i]@) == old(self).view().output,
            final(self).view() == (EnvV { output: Seq::empty(), ..old(self).view() }),
    {
        let ghost before = self.view();
        let mut r: Vec<String> = Vec::new();
        std::mem::swap(&mut r, &mut self.output);
        assert(self.view().scopes =~= before.scopes);
        assert(self.view().output =~= Seq::<Seq<char>>::empty());
        assert(Seq::new(r.len() as nat, |i: int| r[i]@) =~= before.output);
        r
    }
}

} // verus!
