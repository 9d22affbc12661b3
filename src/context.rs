use vstd::prelude::*;
use std::rc::Rc;
use crate::types::TypeDeclarator;

verus! {

/// The kind of a lexical scope.
#[derive(Clone, Copy, Debug, PartialEq, Eq, Structural)]
pub enum ScopeKind {
    Block,
    WhileBlock,
}

/// A name registered as denoting a type, with the scope depth it was registered at.
pub struct Entry {
    pub name: Vec<u8>,
    pub depth: usize,
    pub typ: Rc<TypeDeclarator>,
}

/// The scope and type-name tracker consulted to tell declarations from expressions.
pub struct Context {
    scopes: Vec<ScopeKind>,
    entries: Vec<Entry>,
}

impl Context {
    /// The open scopes, outermost first.
    pub closed spec fn scopes(&self) -> Seq<ScopeKind> {
        self.scopes@
    }

    /// The registered type names with the depth at which each was registered, oldest first.
    pub closed spec fn names(&self) -> Seq<(Seq<u8>, int)> {
        self.entries@.map_values(|e: Entry| (e.name@, e.depth as int))
    }

    /// The declarators registered, in the order of `names`.
    pub closed spec fn types(&self) -> Seq<TypeDeclarator> {
        self.entries@.map_values(|e: Entry| *e.typ)
    }

    /// Registration depths never decrease and never exceed the number of open scopes.
    pub open spec fn wf(&self) -> bool {
        &&& forall|i: int, j: int|
            0 <= i <= j < self.names().len() ==> self.names()[i].1 <= self.names()[j].1
        &&& forall|i: int| 0 <= i < self.names().len() ==> self.names()[i].1 <= self.scopes().len()
    }

    /// The registered names alone, oldest first.
    pub open spec fn visible(&self) -> Seq<Seq<u8>> {
        self.names().map_values(|e: (Seq<u8>, int)| e.0)
    }

    /// A name is declared exactly when it is among the visible names.
    pub proof fn lemma_visible(c: Context)
        ensures
            forall|n: Seq<u8>| c.declares(n) <==> c.visible().contains(n),
    {
        assert forall|n: Seq<u8>| c.declares(n) <==> c.visible().contains(n) by {
            if c.declares(n) {
                let i = choose|i: int| 0 <= i < c.names().len() && c.names()[i].0 == n;
                assert(c.visible()[i] == n);
            }
            if c.visible().contains(n) {
                let i = choose|i: int| 0 <= i < c.visible().len() && c.visible()[i] == n;
                assert(c.names()[i].0 == n);
            }
        }
    }

    /// Registering one more name makes exactly that name visible in addition.
    pub proof fn lemma_visible_push(a: Context, b: Context, n: Seq<u8>, d: int)
        requires
            b.names() == a.names().push((n, d)),
        ensures
            b.visible() == a.visible().push(n),
    {
        assert(b.visible() =~= a.visible().push(n));
    }

    /// `name` is visible as a type name.
    pub open spec fn declares(&self, name: Seq<u8>) -> bool {
        exists|i: int| 0 <= i < self.names().len() && self.names()[i].0 == name
    }

    pub fn new() -> (r: Context)
        ensures
            r.wf(),
            r.scopes().len() == 0,
            r.names().len() == 0,
    {
        Context { scopes: Vec::new(), entries: Vec::new() }
    }

    /// The number of open scopes.
    pub fn scopes_len(&self) -> (r: usize)
        ensures
            r == self.scopes().len(),
    {
        self.scopes.len()
    }

    /// Opens a scope of the given kind.
    pub fn set_current(&mut self, kind: ScopeKind)
        requires
            old(self).wf(),
        ensures
            final(self).wf(),
            final(self).scopes() == old(self).scopes().push(kind),
            final(self).names() == old(self).names(),
    {
        self.scopes.push(kind);
        assert(self.names() == old(self).names());
    }

    /// Closes the innermost scope, forgetting the names registered inside it.
    /// With no scope open it does nothing.
    pub fn pop(&mut self)
        requires
            old(self).wf(),
        ensures
            final(self).wf(),
            old(self).scopes().len() == 0 ==> final(self).scopes() == old(self).scopes()
                && final(self).names() == old(self).names(),
            old(self).scopes().len() > 0 ==> final(self).scopes() == old(self).scopes().drop_last(),
            old(self).scopes().len() > 0 ==> {
                let k = final(self).names().len() as int;
                &&& k <= old(self).names().len()
                &&& final(self).names() == old(self).names().take(k)
                &&& final(self).types() == old(self).types().take(k)
                &&& forall|i: int| k <= i < old(self).names().len()
                    ==> old(self).names()[i].1 == old(self).scopes().len()
                &&& forall|i: int| 0 <= i < k ==> old(self).names()[i].1 < old(self).scopes().len()
            },
    {
        if self.scopes.len() == 0 {
            return ;
        }
        self.scopes.pop();
        assert(self.scopes@ =~= old(self).scopes@.drop_last());
        let top = self.scopes.len();
        let ghost n0 = self.names();
        let ghost t0 = self.types();
        let ghost e0 = self.entries@;
        while self.entries.len() > 0 && self.entries[self.entries.len() - 1].depth > top
            invariant
                self.entries@.len() <= n0.len(),
                self.names() == n0.take(self.entries@.len() as int),
                self.types() == t0.take(self.entries@.len() as int),
                self.entries@ == e0.take(self.entries@.len() as int),
                t0 == e0.map_values(|e: Entry| *e.typ),
                self.entries@.len() <= e0.len(),
                forall|i: int, j: int| 0 <= i <= j < n0.len() ==> n0[i].1 <= n0[j].1,
                forall|i: int| 0 <= i < n0.len() ==> n0[i].1 <= top + 1,
                forall|i: int| self.entries@.len() <= i < n0.len() ==> n0[i].1 > top,
                self.scopes@.len() == top,
                self.scopes@ == old(self).scopes@.drop_last(),
            decreases self.entries.len(),
        {
            assert(self.names()[self.entries@.len() - 1].1 == self.entries@[self.entries@.len() - 1].depth);
            assert(n0[self.entries@.len() - 1] == self.names()[self.entries@.len() - 1]);
            self.entries.pop();
            assert(self.names() =~= n0.take(self.entries@.len() as int));
            assert(self.entries@ =~= e0.take(self.entries@.len() as int));
            assert(self.types() =~= t0.take(self.entries@.len() as int));
        }
        proof {
            let k = self.entries@.len() as int;
            if k > 0 {
                assert(self.names()[k - 1].1 == self.entries@[k - 1].depth);
                assert(n0[k - 1] == self.names()[k - 1]);
                assert(n0[k - 1].1 <= top);
            }
            assert forall|i: int| 0 <= i < k implies n0[i].1 < top + 1 by {
                assert(n0[i].1 <= n0[k - 1].1);
            }
        }
    }

    /// Registers `name` as an alias for `typ` in the innermost scope.
    pub fn add_alias(&mut self, name: Vec<u8>, typ: Rc<TypeDeclarator>)
        requires
            old(self).wf(),
        ensures
            final(self).wf(),
            final(self).scopes() == old(self).scopes(),
            final(self).names() == old(self).names().push((name@, old(self).scopes().len() as int)),
            final(self).types() == old(self).types().push(*typ),
    {
        let depth = self.scopes.len();
        let ghost n0 = self.names();
        let ghost t0 = self.types();
        self.entries.push(Entry { name, depth, typ });
        assert(self.names() =~= n0.push((name@, depth as int)));
        assert(self.types() =~= t0.push(*typ));
    }

    /// Registers the name that `typ` declares, if any, as a type name in the innermost scope.
    pub fn add_type_decl(&mut self, typ: Rc<TypeDeclarator>)
        requires
            old(self).wf(),
        ensures
            final(self).wf(),
            final(self).scopes() == old(self).scopes(),
            typ.identifier matches Some(n) ==> final(self).names() == old(self).names().push((n@, old(self).scopes().len() as int)),
            typ.identifier is None ==> final(self).names() == old(self).names(),
            typ.identifier is Some ==> final(self).types() == old(self).types().push(*typ),
            typ.identifier is None ==> final(self).types() == old(self).types(),
    {
        match &typ.identifier {
            Some(n) => {
                let name = copy_bytes(n);
                let shared = typ.clone();
                assert(*shared == *typ);
                self.add_alias(name, shared);
            },
            None => {},
        }
    }

    /// `after_` is `before` with, at most, names registered in its innermost scope.
    pub open spec fn extends_current(before: Context, after_: Context) -> bool {
        &&& after_.scopes() == before.scopes()
        &&& before.names().len() <= after_.names().len()
        &&& after_.names().take(before.names().len() as int) == before.names()
        &&& forall|i: int| before.names().len() <= i < after_.names().len()
            ==> after_.names()[i].1 == before.scopes().len()
    }

    /// A context extends itself.
    pub proof fn lemma_extends_refl(c: Context)
        ensures
            Context::extends_current(c, c),
    {
        assert(c.names().take(c.names().len() as int) =~= c.names());
    }

    /// Looks up the latest registration of `name`.
    pub fn lookup(&self, name: &Vec<u8>) -> (r: Option<Rc<TypeDeclarator>>)
        ensures
            r is Some <==> self.declares(name@),
            r matches Some(t) ==> exists|i: int|
                0 <= i < self.names().len() && self.names()[i].0 == name@ && *t == self.types()[i]
                    && forall|j: int| i < j < self.names().len() ==> self.names()[j].0 != name@,
    {
        let mut i: usize = self.entries.len();
        while i > 0
            invariant
                i <= self.entries@.len(),
                forall|j: int| i <= j < self.names().len() ==> self.names()[j].0 != name@,
            decreases i,
        {
            i = i - 1;
            if bytes_eq(&self.entries[i].name, name) {
                assert(self.names()[i as int].0 == name@);
                let t = self.entries[i].typ.clone();
                assert(*t == self.types()[i as int]);
                return Some(t);
            }
        }
        None
    }
}

/// Byte-wise equality of two names.
pub fn bytes_eq(a: &Vec<u8>, b: &Vec<u8>) -> (r: bool)
    ensures
        r == (a@ == b@),
{
    if a.len() != b.len() {
        return false;
    }
    let mut i: usize = 0;
    while i < a.len()
        invariant
            a@.len() == b@.len(),
            i <= a@.len(),
            forall|j: int| 0 <= j < i ==> a@[j] == b@[j],
        decreases a@.len() - i,
    {
        if a[i] != b[i] {
            return false;
        }
        i = i + 1;
    }
    assert(a@ =~= b@);
    true
}

/// A copy of a byte string.
pub fn copy_bytes(v: &Vec<u8>) -> (r: Vec<u8>)
    ensures
        r@ == v@,
{
    let mut r: Vec<u8> = Vec::new();
    let mut i: usize = 0;
    while i < v.len()
        invariant
            i <= v@.len(),
            r@ == v@.subrange(0, i as int),
        decreases v@.len() - i,
    {
        r.push(v[i]);
        i = i + 1;
        assert(r@ =~= v@.subrange(0, i as int));
    }
    assert(r@ =~= v@);
    r
}

} // verus!
