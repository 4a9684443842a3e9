//! The lexical scope graph of a checked program, and what its parent links mean.
use vstd::prelude::*;

use crate::ids::{HirBlockId, HirExprId, ItemId, ScopeId, SymbolId};

verus! {

/// What introduces a scope.
#[derive(Clone, Copy, Debug, PartialEq, Eq, Structural)]
pub enum ScopeOwner {
    Module,
    Item(ItemId),
    Block(HirBlockId),
    Lambda(HirExprId),
}

/// One lexical scope: its parent, its owner and the symbols it declares.
pub struct Scope {
    pub id: ScopeId,
    pub parent: Option<ScopeId>,
    pub owner: ScopeOwner,
    pub symbols: Vec<SymbolId>,
}

/// All scopes of a program; a scope's identifier is its position.
pub struct ScopeTree {
    scopes: Vec<Scope>,
}

impl View for ScopeTree {
    type V = Seq<Scope>;

    closed spec fn view(&self) -> Seq<Scope> {
        self.scopes@
    }
}

/// Scopes are numbered by position and their number fits in a scope identifier.
pub open spec fn numbered(scopes: Seq<Scope>) -> bool {
    &&& scopes.len() <= u32::MAX
    &&& forall|i: int| 0 <= i < scopes.len() ==> (#[trigger] scopes[i]).id.0 == i
}

impl ScopeTree {
    #[verifier::type_invariant]
    closed spec fn inv(self) -> bool {
        numbered(self.scopes@)
    }

    pub fn new() -> (t: Self)
        ensures
            t@ == Seq::<Scope>::empty(),
    {
        ScopeTree { scopes: Vec::new() }
    }

    /// Adds a scope without symbols and returns its identifier.
    pub fn allocate(&mut self, parent: Option<ScopeId>, owner: ScopeOwner) -> (id: ScopeId)
        requires
            old(self)@.len() < u32::MAX,
        ensures
            id.0 == old(self)@.len(),
            final(self)@.len() == old(self)@.len() + 1,
            final(self)@.take(old(self)@.len() as int) == old(self)@,
            final(self)@.last().id == id,
            final(self)@.last().parent == parent,
            final(self)@.last().owner == owner,
            final(self)@.last().symbols@ == Seq::<SymbolId>::empty(),
    {
        proof {
            use_type_invariant(&*self);
        }
        let id = ScopeId(self.scopes.len() as u32);
        let mut scopes = Vec::new();
        std::mem::swap(&mut scopes, &mut self.scopes);
        scopes.push(Scope { id, parent, owner, symbols: Vec::new() });
        proof {
            assert(scopes@.take(old(self)@.len() as int) =~= old(self)@);
        }
        self.scopes = scopes;
        id
    }

    /// Declares `symbol` in `scope`; a scope that does not exist is left alone.
    pub fn insert(&mut self, scope: ScopeId, symbol: SymbolId)
        ensures
            final(self)@.len() == old(self)@.len(),
            forall|i: int|
                0 <= i < old(self)@.len() && i != scope.0 ==> final(self)@[i] == old(self)@[i],
            scope.0 < old(self)@.len() ==> {
                let s = final(self)@[scope.0 as int];
                let o = old(self)@[scope.0 as int];
                &&& s.id == o.id
                &&& s.parent == o.parent
                &&& s.owner == o.owner
                &&& s.symbols@ == o.symbols@.push(symbol)
            },
    {
        proof {
            use_type_invariant(&*self);
        }
        let i = scope.index();
        if i < self.scopes.len() {
            let mut taken = Scope {
                id: self.scopes[i].id,
                parent: self.scopes[i].parent,
                owner: self.scopes[i].owner,
                symbols: Vec::new(),
            };
            let mut symbols = Vec::new();
            let n = self.scopes[i].symbols.len();
            for j in 0..n
                invariant
                    i < self.scopes@.len(),
                    n == self.scopes@[i as int].symbols@.len(),
                    symbols@ == self.scopes@[i as int].symbols@.take(j as int),
            {
                symbols.push(self.scopes[i].symbols[j]);
                proof {
                    assert(self.scopes@[i as int].symbols@.take(j + 1) =~= self.scopes@[
                        i as int
                    ].symbols@.take(j as int).push(self.scopes@[i as int].symbols@[j as int]));
                }
            }
            proof {
                assert(self.scopes@[i as int].symbols@.take(n as int) =~= self.scopes@[
                    i as int
                ].symbols@);
            }
            symbols.push(symbol);
            taken.symbols = symbols;
            let mut scopes = Vec::new();
            std::mem::swap(&mut scopes, &mut self.scopes);
            scopes.set(i, taken);
            self.scopes = scopes;
        }
    }

    /// The number of scopes; scopes are numbered by position.
    pub fn len(&self) -> (n: usize)
        ensures
            n == self@.len(),
            numbered(self@),
    {
        proof {
            use_type_invariant(self);
        }
        self.scopes.len()
    }

    /// The scope at position `i`.
    pub fn at(&self, i: usize) -> (s: &Scope)
        requires
            i < self@.len(),
        ensures
            *s == self@[i as int],
    {
        &self.scopes[i]
    }

    /// The scope with identifier `id`, if there is one.
    pub fn get(&self, id: ScopeId) -> (s: Option<&Scope>)
        ensures
            id.0 < self@.len() ==> s == Some(&self@[id.0 as int]),
            id.0 >= self@.len() ==> s is None,
    {
        let i = id.index();
        if i < self.scopes.len() {
            Some(&self.scopes[i])
        } else {
            None
        }
    }
}

/// The position of the parent of scope `i`, if it has one.
pub open spec fn parent_index(scopes: Seq<Scope>, i: int) -> Option<int> {
    match scopes[i].parent {
        Some(p) => Some(p.0 as int),
        None => None,
    }
}

/// Every parent link names an existing scope.
pub open spec fn parents_in_range(scopes: Seq<Scope>) -> bool {
    forall|i: int|
        0 <= i < scopes.len() ==> match #[trigger] parent_index(scopes, i) {
            Some(p) => 0 <= p < scopes.len(),
            None => true,
        }
}

/// The scope reached from `s` by following `k` parent links.
pub open spec fn ancestor_at(scopes: Seq<Scope>, s: int, k: nat) -> Option<int>
    decreases k,
{
    if k == 0 {
        Some(s)
    } else {
        match parent_index(scopes, s) {
            Some(p) => ancestor_at(scopes, p, (k - 1) as nat),
            None => None,
        }
    }
}

/// `a` is `s` or lies on the parent chain of `s`.
pub open spec fn is_ancestor(scopes: Seq<Scope>, a: int, s: int) -> bool {
    exists|k: nat| #[trigger] ancestor_at(scopes, s, k) == Some(a)
}

/// The parent chain of `s` ends in a scope without a parent.
pub open spec fn rooted(scopes: Seq<Scope>, s: int) -> bool {
    exists|k: nat|
        #[trigger] ancestor_at(scopes, s, k) matches Some(r) && parent_index(scopes, r) is None
}

/// No parent chain runs in a cycle.
pub open spec fn acyclic(scopes: Seq<Scope>) -> bool {
    forall|s: int| 0 <= s < scopes.len() ==> #[trigger] rooted(scopes, s)
}

/// The parent links form a forest of existing scopes.
pub open spec fn is_forest(scopes: Seq<Scope>) -> bool {
    parents_in_range(scopes) && acyclic(scopes)
}

/// The lambda expression that owns scope `i`, if a lambda does.
pub open spec fn lambda_of(scopes: Seq<Scope>, i: int) -> Option<HirExprId> {
    match scopes[i].owner {
        ScopeOwner::Lambda(e) => Some(e),
        _ => None,
    }
}

/// Ancestors of an in-range scope are in range.
pub proof fn lemma_ancestor_in_range(scopes: Seq<Scope>, s: int, k: nat)
    requires
        parents_in_range(scopes),
        0 <= s < scopes.len(),
    ensures
        ancestor_at(scopes, s, k) matches Some(a) ==> 0 <= a < scopes.len(),
    decreases k,
{
    if k > 0 {
        if let Some(p) = parent_index(scopes, s) {
            lemma_ancestor_in_range(scopes, p, (k - 1) as nat);
        }
    }
}

/// One more parent step at the far end of a chain.
pub proof fn lemma_ancestor_step(scopes: Seq<Scope>, s: int, k: nat)
    requires
        ancestor_at(scopes, s, k) is Some,
    ensures
        ancestor_at(scopes, s, k + 1) == parent_index(scopes, ancestor_at(scopes, s, k)->0),
    decreases k,
{
    reveal_with_fuel(ancestor_at, 2);
    if k > 0 {
        let p = parent_index(scopes, s)->0;
        lemma_ancestor_step(scopes, p, (k - 1) as nat);
        assert(ancestor_at(scopes, s, k + 1) == ancestor_at(scopes, p, k));
        assert(((k - 1) as nat + 1) as nat == k);
    }
}

/// A chain that has ended stays ended one step further.
pub proof fn lemma_ancestor_none_step(scopes: Seq<Scope>, s: int, k: nat)
    requires
        ancestor_at(scopes, s, k) is None,
    ensures
        ancestor_at(scopes, s, k + 1) is None,
    decreases k,
{
    if k > 0 {
        if let Some(p) = parent_index(scopes, s) {
            lemma_ancestor_none_step(scopes, p, (k - 1) as nat);
            assert(((k - 1) as nat + 1) as nat == k);
        }
    }
}

/// The scope one step short of a proper ancestor is a child of that ancestor.
pub proof fn lemma_child_toward(scopes: Seq<Scope>, s: int, k: nat)
    requires
        k >= 1,
        ancestor_at(scopes, s, k) is Some,
    ensures
        ancestor_at(scopes, s, (k - 1) as nat) matches Some(c) && parent_index(scopes, c)
            == ancestor_at(scopes, s, k),
    decreases k,
{
    reveal_with_fuel(ancestor_at, 2);
    if k > 1 {
        let p = parent_index(scopes, s)->0;
        lemma_child_toward(scopes, p, (k - 1) as nat);
        assert(ancestor_at(scopes, s, (k - 1) as nat) == ancestor_at(scopes, p, (k - 2) as nat));
    }
}

/// Chains compose: an ancestor of an ancestor is an ancestor.
pub proof fn lemma_ancestor_compose(scopes: Seq<Scope>, s: int, j: nat, k: nat)
    requires
        ancestor_at(scopes, s, j) is Some,
    ensures
        ancestor_at(scopes, ancestor_at(scopes, s, j)->0, k) == ancestor_at(scopes, s, j + k),
    decreases j,
{
    if j > 0 {
        let p = parent_index(scopes, s)->0;
        lemma_ancestor_compose(scopes, p, (j - 1) as nat, k);
        assert((j - 1) as nat + k == (j + k - 1) as nat);
    }
}

/// `is_ancestor` is transitive.
pub proof fn lemma_ancestor_transitive(scopes: Seq<Scope>, a: int, b: int, c: int)
    requires
        is_ancestor(scopes, a, b),
        is_ancestor(scopes, b, c),
    ensures
        is_ancestor(scopes, a, c),
{
    let j = choose|j: nat| ancestor_at(scopes, c, j) == Some(b);
    let k = choose|k: nat| ancestor_at(scopes, b, k) == Some(a);
    lemma_ancestor_compose(scopes, c, j, k);
}

/// A child's ancestors are the child and its parent's ancestors.
pub proof fn lemma_ancestor_of_parent(scopes: Seq<Scope>, a: int, s: int, p: int)
    requires
        parent_index(scopes, s) == Some(p),
        is_ancestor(scopes, a, p),
    ensures
        is_ancestor(scopes, a, s),
{
    let k = choose|k: nat| ancestor_at(scopes, p, k) == Some(a);
    assert(ancestor_at(scopes, s, k + 1) == Some(a));
}

} // verus!

verus! {

/// `children[p]` lists, in increasing order, the scopes below `upto` whose parent is `p`.
pub open spec fn child_lists_of(t: Seq<Scope>, children: Seq<Vec<usize>>, upto: int) -> bool {
    &&& children.len() == t.len()
    &&& forall|p: int, m: int|
        0 <= p < t.len() && 0 <= m < children[p]@.len() ==> {
            &&& (#[trigger] children[p]@[m]) < upto
            &&& parent_index(t, children[p]@[m] as int) == Some(p)
        }
    &&& forall|p: int, m1: int, m2: int|
        0 <= p < t.len() && 0 <= m1 < m2 < children[p]@.len() ==> #[trigger] children[p]@[m1]
            < #[trigger] children[p]@[m2]
    &&& forall|j: int|
        0 <= j < upto && #[trigger] parent_index(t, j) is Some ==> children[parent_index(
            t,
            j,
        )->0]@.contains(j as usize)
}

/// The children of every scope, or `None` when a parent link names a missing scope.
pub fn child_lists(scopes: &ScopeTree) -> (r: Option<Vec<Vec<usize>>>)
    ensures
        match r {
            Some(children) => parents_in_range(scopes@) && child_lists_of(
                scopes@,
                children@,
                scopes@.len() as int,
            ),
            None => !parents_in_range(scopes@),
        },
{
    let count = scopes.len();
    let ghost t = scopes@;
    let mut children: Vec<Vec<usize>> = Vec::new();
    for i in 0..count
        invariant
            children@.len() == i,
            forall|j: int| 0 <= j < i ==> (#[trigger] children@[j])@.len() == 0,
    {
        children.push(Vec::new());
    }
    for i in 0..count
        invariant
            count == t.len(),
            t == scopes@,
            numbered(t),
            child_lists_of(t, children@, i as int),
            forall|j: int|
                0 <= j < i ==> match #[trigger] parent_index(t, j) {
                    Some(p) => 0 <= p < t.len(),
                    None => true,
                },
    {
        match scopes.at(i).parent {
            Some(p) => {
                let p = p.index();
                if p >= count {
                    proof {
                        assert(parent_index(t, i as int) == Some(p as int));
                    }
                    return None;
                }
                proof {
                    assert(parent_index(t, i as int) == Some(p as int));
                }
                let ghost before = children@;
                children[p].push(i);
                proof {
                    assert forall|j: int|
                        0 <= j < i + 1 && #[trigger] parent_index(t, j)
                            is Some implies children@[parent_index(t, j)->0]@.contains(
                        j as usize,
                    ) by {
                        if j < i {
                            let q = parent_index(t, j)->0;
                            let m = choose|m: int|
                                0 <= m < before[q]@.len() && before[q]@[m] == j as usize;
                            assert(children@[q]@[m] == j as usize);
                        } else {
                            assert(children@[p as int]@[before[p as int]@.len() as int] == i);
                        }
                    }
                }
            },
            None => {
                proof {
                    assert(parent_index(t, i as int) is None);
                }
            },
        }
    }
    Some(children)
}

} // verus!
