//! Scopes: an arena of scopes, each mapping names to values and linked to the
//! scope that encloses it. A scope only ever links to one made before it, so
//! every chain of enclosing scopes ends. Closures hold the index of the scope
//! they were declared in. Scopes are never freed: every block entered and every
//! call made adds one for the interpreter's lifetime, so a long-running loop
//! grows memory without bound.
use crate::error::{Error, Result};
use crate::token::Token;
use crate::value::Value;
use vstd::prelude::*;

verus! {

/// One scope: its enclosing scope, and its bindings as two parallel vectors.
pub struct Scope {
    enclosing: Option<usize>,
    names: Vec<String>,
    values: Vec<Value>,
}

/// What a scope holds, as mathematical values.
pub struct ScopeView {
    pub enclosing: Option<usize>,
    pub names: Seq<Seq<char>>,
    pub values: Seq<Value>,
}

/// The arena of all scopes of one interpreter.
pub struct Environment {
    scopes: Vec<Scope>,
}

/// The position of the last binding of `name`, if any.
pub open spec fn find_last(names: Seq<Seq<char>>, name: Seq<char>) -> Option<int>
    decreases names.len(),
{
    if names.len() == 0 {
        None
    } else if names.last() == name {
        Some(names.len() - 1)
    } else {
        find_last(names.drop_last(), name)
    }
}

/// Every scope has as many names as values, and links only to an earlier scope.
pub open spec fn chain_wf(scopes: Seq<ScopeView>) -> bool {
    forall|i: int|
        0 <= i < scopes.len() ==> {
            &&& (#[trigger] scopes[i]).names.len() == scopes[i].values.len()
            &&& (scopes[i].enclosing matches Some(e) ==> e < i)
        }
}

/// The scope where `name` is found, walking outward from scope `at`.
pub open spec fn resolve(scopes: Seq<ScopeView>, at: int, name: Seq<char>) -> Option<int>
    decreases at,
{
    if !(0 <= at < scopes.len()) {
        None
    } else if find_last(scopes[at].names, name) is Some {
        Some(at)
    } else {
        match scopes[at].enclosing {
            Some(e) => if e < at {
                resolve(scopes, e as int, name)
            } else {
                None
            },
            None => None,
        }
    }
}

/// The value of `name` as seen from scope `at`.
pub open spec fn lookup(scopes: Seq<ScopeView>, at: int, name: Seq<char>) -> Option<Value> {
    match resolve(scopes, at, name) {
        Some(k) => Some(scopes[k].values[find_last(scopes[k].names, name)->0]),
        None => None,
    }
}

/// A scope with `name` bound to `v`: its binding replaced, or a new one added.
pub open spec fn bind(s: ScopeView, name: Seq<char>, v: Value) -> ScopeView {
    match find_last(s.names, name) {
        Some(i) => ScopeView { enclosing: s.enclosing, names: s.names, values: s.values.update(i, v) },
        None => ScopeView { enclosing: s.enclosing, names: s.names.push(name), values: s.values.push(v) },
    }
}

/// The arena after a declaration of `name` in scope `at`.
pub open spec fn defined(scopes: Seq<ScopeView>, at: int, name: Seq<char>, v: Value) -> Seq<ScopeView> {
    scopes.update(at, bind(scopes[at], name, v))
}

/// The arena after an assignment to `name` from scope `at`: the binding that
/// `at` sees changes; where there is none, nothing does.
pub open spec fn assigned(scopes: Seq<ScopeView>, at: int, name: Seq<char>, v: Value) -> Seq<ScopeView> {
    match resolve(scopes, at, name) {
        Some(k) => scopes.update(k, bind(scopes[k], name, v)),
        None => scopes,
    }
}

/// An empty scope inside `enclosing`.
pub open spec fn fresh_scope(enclosing: Option<usize>) -> ScopeView {
    ScopeView { enclosing, names: Seq::empty(), values: Seq::empty() }
}

/// Two arenas with the same names and links everywhere resolve every name alike.
pub open spec fn same_shape(a: Seq<ScopeView>, b: Seq<ScopeView>) -> bool {
    &&& a.len() == b.len()
    &&& forall|i: int|
        0 <= i < a.len() ==> (#[trigger] a[i]).names == b[i].names && a[i].enclosing == b[i].enclosing
}

pub proof fn lemma_find_last_in(names: Seq<Seq<char>>, name: Seq<char>)
    ensures
        find_last(names, name) matches Some(i) ==> 0 <= i < names.len() && names[i] == name,
    decreases names.len(),
{
    if names.len() > 0 && names.last() != name {
        lemma_find_last_in(names.drop_last(), name);
    }
}

proof fn lemma_resolve_same_shape(a: Seq<ScopeView>, b: Seq<ScopeView>, at: int, name: Seq<char>)
    requires
        same_shape(a, b),
    ensures
        resolve(a, at, name) == resolve(b, at, name),
    decreases at,
{
    if 0 <= at < a.len() {
        assert(a[at].names == b[at].names);
        if let Some(e) = a[at].enclosing {
            if e < at {
                lemma_resolve_same_shape(a, b, e as int, name);
            }
        }
    }
}

pub proof fn lemma_resolve_in(scopes: Seq<ScopeView>, at: int, name: Seq<char>)
    ensures
        resolve(scopes, at, name) matches Some(k) ==> 0 <= k <= at < scopes.len() && find_last(
            scopes[k].names,
            name,
        ) is Some,
    decreases at,
{
    if 0 <= at < scopes.len() && find_last(scopes[at].names, name) is None {
        if let Some(e) = scopes[at].enclosing {
            if e < at {
                lemma_resolve_in(scopes, e as int, name);
            }
        }
    }
}

/// Changing a scope beyond `at`, or adding scopes, leaves what `at` sees alone.
proof fn lemma_resolve_prefix(a: Seq<ScopeView>, b: Seq<ScopeView>, at: int, name: Seq<char>)
    requires
        0 <= at < a.len(),
        at < b.len(),
        forall|i: int| 0 <= i <= at ==> #[trigger] a[i] == b[i],
    ensures
        resolve(a, at, name) == resolve(b, at, name),
        lookup(a, at, name) == lookup(b, at, name),
    decreases at,
{
    assert(a[at] == b[at]);
    if find_last(a[at].names, name) is None {
        if let Some(e) = a[at].enclosing {
            if e < at {
                lemma_resolve_prefix(a, b, e as int, name);
            }
        }
    }
    lemma_resolve_in(a, at, name);
    lemma_resolve_in(b, at, name);
    if let Some(k) = resolve(a, at, name) {
        assert(a[k] == b[k]);
    }
}

/// A declaration is seen at once from the scope that made it.
pub proof fn lemma_define_then_lookup(scopes: Seq<ScopeView>, at: int, name: Seq<char>, v: Value)
    requires
        chain_wf(scopes),
        0 <= at < scopes.len(),
    ensures
        lookup(defined(scopes, at, name, v), at, name) == Some(v),
{
    let s = scopes[at];
    let d = defined(scopes, at, name, v);
    assert(s.names.len() == s.values.len());
    lemma_find_last_in(s.names, name);
    if find_last(s.names, name) is None {
        assert(bind(s, name, v).names.drop_last() =~= s.names);
        assert(find_last(bind(s, name, v).names, name) == Some(s.names.len() as int));
    }
    assert(d[at] == bind(s, name, v));
}

/// After an assignment to a name that is in scope, reading it gives the new value.
pub proof fn lemma_assign_then_lookup(scopes: Seq<ScopeView>, at: int, name: Seq<char>, v: Value)
    requires
        chain_wf(scopes),
        lookup(scopes, at, name) is Some,
    ensures
        lookup(assigned(scopes, at, name, v), at, name) == Some(v),
{
    let k = resolve(scopes, at, name)->0;
    lemma_resolve_in(scopes, at, name);
    let a = assigned(scopes, at, name, v);
    assert(same_shape(scopes, a)) by {
        assert forall|i: int| 0 <= i < scopes.len() implies (#[trigger] scopes[i]).names == a[i].names
            && scopes[i].enclosing == a[i].enclosing by {
            if i == k {
                assert(find_last(scopes[k].names, name) is Some);
            }
        }
    }
    lemma_resolve_same_shape(scopes, a, at, name);
    let i = find_last(scopes[k].names, name)->0;
    lemma_find_last_in(scopes[k].names, name);
}

/// An assignment to a name that no scope on the chain holds changes nothing.
pub proof fn lemma_assign_undeclared(scopes: Seq<ScopeView>, at: int, name: Seq<char>, v: Value)
    requires
        lookup(scopes, at, name) is None,
    ensures
        assigned(scopes, at, name, v) == scopes,
{
}

/// A declaration in a scope made after `at` is not seen from `at`: an inner
/// binding shadows, and never changes, an outer one.
pub proof fn lemma_define_elsewhere(
    scopes: Seq<ScopeView>,
    j: int,
    other: Seq<char>,
    v: Value,
    at: int,
    name: Seq<char>,
)
    requires
        0 <= at < j < scopes.len(),
    ensures
        lookup(defined(scopes, j, other, v), at, name) == lookup(scopes, at, name),
{
    lemma_resolve_prefix(scopes, defined(scopes, j, other, v), at, name);
}

/// Opening a new scope leaves what every existing scope sees alone.
pub proof fn lemma_push_scope(scopes: Seq<ScopeView>, s: ScopeView, at: int, name: Seq<char>)
    requires
        0 <= at < scopes.len(),
    ensures
        lookup(scopes.push(s), at, name) == lookup(scopes, at, name),
{
    lemma_resolve_prefix(scopes, scopes.push(s), at, name);
}

impl Scope {
    pub closed spec fn view(&self) -> ScopeView {
        ScopeView {
            enclosing: self.enclosing,
            names: self.names@.map_values(|s: String| s@),
            values: self.values@,
        }
    }

    /// The position of the last binding of `name` in this scope.
    fn find(&self, name: &String) -> (r: Option<usize>)
        requires
            self.names.len() == self.values.len(),
        ensures
            r matches Some(i) ==> find_last(self.view().names, name@) == Some(i as int),
            r is None ==> find_last(self.view().names, name@) is None,
    {
        let mut i = self.names.len();
        assert(self.view().names.subrange(0, i as int) =~= self.view().names);
        while i > 0
            invariant
                i <= self.names.len(),
                find_last(self.view().names, name@) == find_last(
                    self.view().names.subrange(0, i as int),
                    name@,
                ),
            decreases i,
        {
            let ghost sub = self.view().names.subrange(0, i as int);
            assert(sub.drop_last() =~= self.view().names.subrange(0, i - 1));
            if self.names[i - 1] == *name {
                return Some(i - 1);
            }
            i = i - 1;
        }
        None
    }
}

impl Environment {
    pub closed spec fn view(&self) -> Seq<ScopeView> {
        self.scopes@.map_values(|s: Scope| s.view())
    }

    pub closed spec fn wf(&self) -> bool {
        &&& chain_wf(self.view())
        &&& forall|i: int|
            0 <= i < self.scopes.len() ==> (#[trigger] self.scopes@[i]).names.len()
                == self.scopes@[i].values.len()
    }

    /// A well-formed arena has well-formed scope chains.
    pub proof fn lemma_chain_wf(&self)
        requires
            self.wf(),
        ensures
            chain_wf(self.view()),
    {
    }

    /// One global scope, empty.
    pub fn new() -> (r: Environment)
        ensures
            r.wf(),
            r.view() == seq![fresh_scope(None)],
    {
        let mut scopes: Vec<Scope> = Vec::new();
        scopes.push(Scope { enclosing: None, names: Vec::new(), values: Vec::new() });
        let r = Environment { scopes };
        assert(r.view()[0].names =~= Seq::empty());
        assert(r.view() =~= seq![fresh_scope(None)]);
        r
    }

    /// The number of scopes.
    pub fn len(&self) -> (r: usize)
        ensures
            r == self.view().len(),
    {
        self.scopes.len()
    }

    /// Opens an empty scope inside `enclosing`; gives its index.
    pub fn push_scope(&mut self, enclosing: usize) -> (r: usize)
        requires
            old(self).wf(),
            enclosing < old(self).view().len(),
        ensures
            final(self).wf(),
            r == old(self).view().len(),
            final(self).view() == old(self).view().push(fresh_scope(Some(enclosing))),
    {
        let r = self.scopes.len();
        self.scopes.push(Scope { enclosing: Some(enclosing), names: Vec::new(), values: Vec::new() });
        proof {
            assert(self.scopes@[r as int].view().names =~= Seq::empty());
            assert(self.view() =~= old(self).view().push(fresh_scope(Some(enclosing))));
        }
        r
    }

    /// Binds `name` to `value` in scope `at`, replacing a binding it holds there.
    pub fn define(&mut self, at: usize, name: &String, value: Value)
        requires
            old(self).wf(),
            at < old(self).view().len(),
        ensures
            final(self).wf(),
            final(self).view() == defined(old(self).view(), at as int, name@, value),
    {
        let ghost v = value;
        match self.scopes[at].find(name) {
            Some(i) => {
                proof {
                    lemma_find_last_in(self.scopes@[at as int].view().names, name@);
                }
                self.scopes[at].values.set(i, value);
            },
            None => {
                self.scopes[at].names.push(name.clone());
                self.scopes[at].values.push(value);
            },
        }
        proof {
            let s = old(self).scopes@[at as int];
            assert(self.scopes@[at as int].view().names =~= bind(s.view(), name@, v).names);
            assert(self.scopes@[at as int].view().values =~= bind(s.view(), name@, v).values);
            assert(self.view() =~= defined(old(self).view(), at as int, name@, v));
            assert forall|i: int| 0 <= i < self.scopes.len() implies (
            #[trigger] self.scopes@[i]).names.len() == self.scopes@[i].values.len() by {
                if i == at {
                    assert(self.scopes@[i].view().names.len() == self.scopes@[i].names.len());
                    assert(s.view().names.len() == s.names.len());
                } else {
                    assert(self.scopes@[i] == old(self).scopes@[i]);
                }
            }
            assert forall|i: int| 0 <= i < self.view().len() implies (
            #[trigger] self.view()[i]).names.len() == self.view()[i].values.len() && (
            self.view()[i].enclosing matches Some(e) ==> e < i) by {
                assert(old(self).view()[i].enclosing == self.view()[i].enclosing);
            }
        }
    }

    /// Where `name` is bound as seen from scope `at`: the scope and the position
    /// of the binding in it.
    fn resolve_index(&self, at: usize, name: &String) -> (r: Option<(usize, usize)>)
        requires
            self.wf(),
            at < self.view().len(),
        ensures
            match r {
                Some((k, i)) => {
                    &&& resolve(self.view(), at as int, name@) == Some(k as int)
                    &&& find_last(self.view()[k as int].names, name@) == Some(i as int)
                    &&& k < self.scopes.len()
                    &&& i < self.scopes@[k as int].values.len()
                },
                None => resolve(self.view(), at as int, name@) is None,
            },
    {
        let mut k = at;
        loop
            invariant
                self.wf(),
                k < self.view().len(),
                resolve(self.view(), at as int, name@) == resolve(self.view(), k as int, name@),
            decreases k,
        {
            let ghost sv = self.view()[k as int];
            assert(self.scopes@[k as int].view() == sv);
            match self.scopes[k].find(name) {
                Some(i) => {
                    proof {
                        lemma_find_last_in(sv.names, name@);
                    }
                    return Some((k, i));
                },
                None => match self.scopes[k].enclosing {
                    Some(e) => {
                        k = e;
                    },
                    None => {
                        return None;
                    },
                },
            }
        }
    }

    /// The value of `name` as seen from scope `at`; an error where no scope on
    /// the chain holds it.
    pub fn get(&self, at: usize, name: &Token) -> (r: Result<Value>)
        requires
            self.wf(),
            at < self.view().len(),
        ensures
            match lookup(self.view(), at as int, name.text@) {
                Some(v) => r == Ok::<Value, Error>(v),
                None => r matches Err(Error::RuntimeError { line, msg }) && line == name.line
                    && msg@ == "undefined variable "@ + name.text@,
            },
    {
        match self.resolve_index(at, &name.text) {
            Some((k, i)) => Ok(self.scopes[k].values[i].copy()),
            None => Err(
                Error::RuntimeError {
                    line: name.line,
                    msg: String::from_str("undefined variable ").concat(name.text.as_str()),
                },
            ),
        }
    }

    /// Stores `value` in the binding of `name` that scope `at` sees and gives the
    /// value back; an error, changing nothing, where there is no such binding.
    pub fn assign(&mut self, at: usize, name: &Token, value: Value) -> (r: Result<Value>)
        requires
            old(self).wf(),
            at < old(self).view().len(),
        ensures
            final(self).wf(),
            final(self).view() == assigned(old(self).view(), at as int, name.text@, value),
            match lookup(old(self).view(), at as int, name.text@) {
                Some(_) => r == Ok::<Value, Error>(value),
                None => r matches Err(Error::RuntimeError { line, msg }) && line == name.line
                    && msg@ == "undefined variable "@ + name.text@,
            },
    {
        let ghost v = value;
        match self.resolve_index(at, &name.text) {
            Some((k, i)) => {
                let out = value.copy();
                self.scopes[k].values.set(i, value);
                proof {
                    let s = old(self).scopes@[k as int];
                    assert(self.scopes@[k as int].view().names =~= bind(s.view(), name.text@, v).names);
                    assert(self.scopes@[k as int].view().values =~= bind(s.view(), name.text@, v).values);
                    assert(self.view() =~= assigned(old(self).view(), at as int, name.text@, v));
                    assert forall|j: int| 0 <= j < self.scopes.len() implies (
                    #[trigger] self.scopes@[j]).names.len() == self.scopes@[j].values.len() by {
                        if j != k {
                            assert(self.scopes@[j] == old(self).scopes@[j]);
                        }
                    }
                    assert forall|j: int| 0 <= j < self.view().len() implies (
                    #[trigger] self.view()[j]).names.len() == self.view()[j].values.len() && (
                    self.view()[j].enclosing matches Some(e) ==> e < j) by {
                        assert(old(self).view()[j].enclosing == self.view()[j].enclosing);
                    }
                }
                Ok(out)
            },
            None => Err(
                Error::RuntimeError {
                    line: name.line,
                    msg: String::from_str("undefined variable ").concat(name.text.as_str()),
                },
            ),
        }
    }
}

} // verus!
