//! Frame layouts: every callable body gets a slot layout with the locals that
//! execute in its frame. Lambda bodies are frames of their own and are left out.
use std::collections::HashSet;
use vstd::prelude::*;
use vstd::set_lib::{lemma_int_range, lemma_len_subset, set_int_range};

use crate::ids::{ScopeId, SymbolId};
use crate::program::{CheckedProject, HirImplItem, HirItem, HandlerArm};
use crate::scope_tree::{
    ancestor_at, child_lists, child_lists_of, is_ancestor, is_forest, lambda_of,
    lemma_ancestor_in_range, lemma_child_toward, numbered, parent_index, parents_in_range, rooted,
    Scope,
};
use crate::slots::SlotLayoutTable;
use crate::text::{decimal, with_number, with_two_numbers};

verus! {

broadcast use vstd::std_specs::hash::group_hash_axioms;

// ---------------------------------------------------------------------------
// Callables.

/// A callable's frame scope and parameters.
pub open spec fn callable(scope: ScopeId, params: Seq<SymbolId>) -> (ScopeId, Seq<SymbolId>) {
    (scope, params)
}

/// The callables among the members of an `impl` block, in order.
pub open spec fn impl_callables(members: Seq<HirImplItem>) -> Seq<(ScopeId, Seq<SymbolId>)>
    decreases members.len(),
{
    if members.len() == 0 {
        Seq::empty()
    } else {
        impl_callables(members.drop_last()) + match members.last() {
            HirImplItem::Flow(f) => seq![callable(f.scope, f.params@)],
            HirImplItem::Other => Seq::empty(),
        }
    }
}

/// The callables an item declares.
pub open spec fn item_callables(item: HirItem) -> Seq<(ScopeId, Seq<SymbolId>)> {
    match item {
        HirItem::Flow(f) => seq![callable(f.scope, f.params@)],
        HirItem::Tool(f) => seq![callable(f.scope, f.params@)],
        HirItem::Agent(f) => seq![callable(f.scope, f.params@)],
        HirItem::Impl(members) => impl_callables(members@),
        _ => Seq::empty(),
    }
}

/// The callables of a list of items, in order.
pub open spec fn items_callables(items: Seq<HirItem>) -> Seq<(ScopeId, Seq<SymbolId>)>
    decreases items.len(),
{
    if items.len() == 0 {
        Seq::empty()
    } else {
        items_callables(items.drop_last()) + item_callables(items.last())
    }
}

/// Handler arms: callables without parameters.
pub open spec fn handler_callables(arms: Seq<HandlerArm>) -> Seq<(ScopeId, Seq<SymbolId>)> {
    arms.map_values(|h: HandlerArm| callable(h.scope, Seq::<SymbolId>::empty()))
}

/// Every frame scope of the program with its parameters: items first, then handler arms.
pub open spec fn callables(project: CheckedProject) -> Seq<(ScopeId, Seq<SymbolId>)> {
    items_callables(project.hir.items@) + handler_callables(project.hir.handler_arms@)
}

/// Declaring callable `i` fails: its scope is missing or already taken.
pub open spec fn declare_fails(cs: Seq<(ScopeId, Seq<SymbolId>)>, n: nat, i: int) -> bool {
    cs[i].0.0 >= n || exists|j: int| 0 <= j < i && (#[trigger] cs[j]).0 == cs[i].0
}

/// The error for callable `i`.
pub open spec fn declare_message(cs: Seq<(ScopeId, Seq<SymbolId>)>, n: nat, i: int) -> Seq<char> {
    if cs[i].0.0 >= n {
        "callable is missing scope ScopeId("@ + decimal(cs[i].0.0 as nat) + ")"@
    } else {
        "multiple callables share frame scope ScopeId("@ + decimal(cs[i].0.0 as nat) + ")"@
    }
}

/// Callable `i` is the first one whose declaration fails, with message `m`.
pub open spec fn first_declare_failure(
    cs: Seq<(ScopeId, Seq<SymbolId>)>,
    n: nat,
    i: int,
    m: Seq<char>,
) -> bool {
    &&& 0 <= i < cs.len()
    &&& declare_fails(cs, n, i)
    &&& forall|j: int| 0 <= j < i ==> !#[trigger] declare_fails(cs, n, j)
    &&& m == declare_message(cs, n, i)
}

/// Some callable is the first whose declaration fails, with message `m`.
pub open spec fn declare_error(cs: Seq<(ScopeId, Seq<SymbolId>)>, n: nat, m: Seq<char>) -> bool {
    exists|i: int| #[trigger] first_declare_failure(cs, n, i, m)
}

/// The frame scopes the callables declare.
pub open spec fn frame_set(cs: Seq<(ScopeId, Seq<SymbolId>)>) -> Set<int> {
    Set::new(|x: int| exists|i: int| 0 <= i < cs.len() && (#[trigger] cs[i]).0.0 == x)
}

// ---------------------------------------------------------------------------
// Which frame a scope executes in.

/// Following parent links from `s`, step `j` reaches a frame scope or a lambda scope.
pub open spec fn stops(t: Seq<Scope>, fs: Set<int>, s: int, j: nat) -> bool {
    ancestor_at(t, s, j) matches Some(x) && (fs.contains(x) || lambda_of(t, x) is Some)
}

/// Scope `s` executes in frame `a`: `a` is the first frame on its parent chain,
/// and no lambda comes before it.
pub open spec fn owned_by(t: Seq<Scope>, fs: Set<int>, s: int, a: int) -> bool {
    exists|k: nat|
        #[trigger] ancestor_at(t, s, k) == Some(a) && fs.contains(a) && forall|j: nat|
            j < k ==> !#[trigger] stops(t, fs, s, j)
}

/// `o` is the frame scope `s` executes in, if any.
pub open spec fn owner_rel(t: Seq<Scope>, fs: Set<int>, s: int, o: Option<int>) -> bool {
    match o {
        Some(a) => owned_by(t, fs, s, a),
        None => forall|a: int| !#[trigger] owned_by(t, fs, s, a),
    }
}

proof fn lemma_owner_frame(t: Seq<Scope>, fs: Set<int>, s: int)
    requires
        fs.contains(s),
    ensures
        owner_rel(t, fs, s, Some(s)),
{
    assert(ancestor_at(t, s, 0) == Some(s));
}

proof fn lemma_owner_lambda(t: Seq<Scope>, fs: Set<int>, s: int)
    requires
        !fs.contains(s),
        lambda_of(t, s) is Some,
    ensures
        owner_rel(t, fs, s, None),
{
    assert forall|a: int| !#[trigger] owned_by(t, fs, s, a) by {
        if owned_by(t, fs, s, a) {
            let k = choose|k: nat|
                #[trigger] ancestor_at(t, s, k) == Some(a) && fs.contains(a) && forall|j: nat|
                    j < k ==> !#[trigger] stops(t, fs, s, j);
            assert(ancestor_at(t, s, 0) == Some(s));
            if k > 0 {
                assert(stops(t, fs, s, 0));
            }
        }
    }
}

proof fn lemma_owner_inherit(t: Seq<Scope>, fs: Set<int>, s: int, p: int, o: Option<int>)
    requires
        !fs.contains(s),
        lambda_of(t, s) is None,
        parent_index(t, s) == Some(p),
        owner_rel(t, fs, p, o),
    ensures
        owner_rel(t, fs, s, o),
{
    assert(ancestor_at(t, s, 0) == Some(s));
    assert(!stops(t, fs, s, 0));
    match o {
        Some(a) => {
            let k = choose|k: nat|
                #[trigger] ancestor_at(t, p, k) == Some(a) && fs.contains(a) && forall|j: nat|
                    j < k ==> !#[trigger] stops(t, fs, p, j);
            assert(ancestor_at(t, s, k + 1) == Some(a));
            assert forall|j: nat| j < k + 1 implies !#[trigger] stops(t, fs, s, j) by {
                if j > 0 {
                    assert(ancestor_at(t, s, j) == ancestor_at(t, p, (j - 1) as nat));
                    assert(!stops(t, fs, p, (j - 1) as nat));
                }
            }
        },
        None => {
            assert forall|a: int| !#[trigger] owned_by(t, fs, s, a) by {
                if owned_by(t, fs, s, a) {
                    let k = choose|k: nat|
                        #[trigger] ancestor_at(t, s, k) == Some(a) && fs.contains(a) && forall|
                            j: nat,
                        | j < k ==> !#[trigger] stops(t, fs, s, j);
                    if k == 0 {
                        assert(false);
                    } else {
                        let k1 = (k - 1) as nat;
                        assert(ancestor_at(t, p, k1) == Some(a));
                        assert forall|j: nat| j < k1 implies !#[trigger] stops(t, fs, p, j) by {
                            assert(ancestor_at(t, s, j + 1) == ancestor_at(t, p, j));
                            assert(!stops(t, fs, s, j + 1));
                        }
                        assert(owned_by(t, fs, p, a));
                    }
                }
            }
        },
    }
}

proof fn lemma_owner_root(t: Seq<Scope>, fs: Set<int>, s: int)
    requires
        !fs.contains(s),
        parent_index(t, s) is None,
    ensures
        owner_rel(t, fs, s, None),
{
    assert forall|a: int| !#[trigger] owned_by(t, fs, s, a) by {
        if owned_by(t, fs, s, a) {
            let k = choose|k: nat|
                #[trigger] ancestor_at(t, s, k) == Some(a) && fs.contains(a) && forall|j: nat|
                    j < k ==> !#[trigger] stops(t, fs, s, j);
            if k > 0 {
                assert(ancestor_at(t, s, k) is None);
            }
        }
    }
}

/// A scope executes in at most one frame.
pub proof fn lemma_owner_unique(t: Seq<Scope>, fs: Set<int>, s: int, a: int, b: int)
    requires
        owned_by(t, fs, s, a),
        owned_by(t, fs, s, b),
    ensures
        a == b,
{
    let ka = choose|k: nat|
        #[trigger] ancestor_at(t, s, k) == Some(a) && fs.contains(a) && forall|j: nat|
            j < k ==> !#[trigger] stops(t, fs, s, j);
    let kb = choose|k: nat|
        #[trigger] ancestor_at(t, s, k) == Some(b) && fs.contains(b) && forall|j: nat|
            j < k ==> !#[trigger] stops(t, fs, s, j);
    if ka < kb {
        assert(stops(t, fs, s, ka));
    } else if kb < ka {
        assert(stops(t, fs, s, kb));
    }
}

// ---------------------------------------------------------------------------
// Walking the scope forest to find the frame of every scope.

pub open spec fn opt_int(o: Option<usize>) -> Option<int> {
    match o {
        Some(a) => Some(a as int),
        None => None,
    }
}

spec fn vset(visited: Seq<bool>) -> Set<int> {
    Set::new(|x: int| 0 <= x < visited.len() && visited[x])
}

#[verifier::opaque]
spec fn w1(
    t: Seq<Scope>,
    children: Seq<Vec<usize>>,
    fs: Set<int>,
    visited: Seq<bool>,
    owners: Seq<Option<usize>>,
    pending: Seq<(usize, Option<usize>)>,
) -> bool {
    &&& numbered(t)
    &&& parents_in_range(t)
    &&& child_lists_of(t, children, t.len() as int)
    &&& visited.len() == t.len()
    &&& owners.len() == t.len()
    &&& forall|x: int|
        0 <= x < t.len() && #[trigger] visited[x] ==> {
            &&& owner_rel(t, fs, x, opt_int(owners[x]))
            &&& rooted(t, x)
            &&& (parent_index(t, x) matches Some(p) ==> visited[p])
            &&& (owners[x] matches Some(a) ==> a < t.len())
        }
    &&& forall|i: int|
        0 <= i < pending.len() ==> {
            &&& (#[trigger] pending[i]).0 < t.len()
            &&& !visited[pending[i].0 as int]
            &&& match parent_index(t, pending[i].0 as int) {
                Some(p) => visited[p] && pending[i].1 == owners[p],
                None => pending[i].1 is None,
            }
        }
    &&& forall|i: int, j: int|
        0 <= i < j < pending.len() ==> (#[trigger] pending[i]).0 != (#[trigger] pending[j]).0
    &&& forall|u: int|
        0 <= u < t.len() && !visited[u] && #[trigger] rooted(t, u) ==> exists|i: int|
            0 <= i < pending.len() && #[trigger] is_ancestor(t, pending[i].0 as int, u)
}

proof fn lemma_vset_bound(visited: Seq<bool>)
    ensures
        vset(visited).finite(),
        vset(visited).len() <= visited.len(),
{
    lemma_int_range(0, visited.len() as int);
    assert(vset(visited).subset_of(set_int_range(0, visited.len() as int)));
    lemma_len_subset(vset(visited), set_int_range(0, visited.len() as int));
}

/// One step of the walk: visit the scope on top of the stack.
#[verifier::spinoff_prover]
proof fn lemma_w1_step(
    t: Seq<Scope>,
    children: Seq<Vec<usize>>,
    fs: Set<int>,
    v0: Seq<bool>,
    o0: Seq<Option<usize>>,
    p0: Seq<(usize, Option<usize>)>,
    v1: Seq<bool>,
    o1: Seq<Option<usize>>,
    p1: Seq<(usize, Option<usize>)>,
    own: Option<usize>,
)
    requires
        w1(t, children, fs, v0, o0, p0),
        p0.len() > 0,
        ({
            let id = p0.last().0 as int;
            &&& owner_rel(t, fs, id, opt_int(own))
            &&& (own matches Some(a) ==> a < t.len())
            &&& v1 == v0.update(id, true)
            &&& o1 == o0.update(id, own)
            &&& p1 == p0.drop_last() + children[id]@.map_values(|c: usize| (c, own))
        }),
    ensures
        w1(t, children, fs, v1, o1, p1),
        vset(v1) == vset(v0).insert(p0.last().0 as int),
        !vset(v0).contains(p0.last().0 as int),
{
    reveal(w1);
    let top = p0.len() - 1;
    let id = p0.last().0 as int;
    assert(p0.last() == p0[top]);
    let kids = children[id]@;
    let base = p0.drop_last();
    assert(vset(v1) =~= vset(v0).insert(id));
    assert(rooted(t, id)) by {
        match parent_index(t, id) {
            Some(p) => {
                assert(v0[p]);
                let k = choose|k: nat|
                    #[trigger] ancestor_at(t, p, k) matches Some(r) && parent_index(t, r) is None;
                assert(ancestor_at(t, id, k + 1) == ancestor_at(t, p, k));
            },
            None => {
                assert(ancestor_at(t, id, 0) == Some(id));
            },
        }
    }
    assert forall|x: int| 0 <= x < t.len() && #[trigger] v1[x] implies {
        &&& owner_rel(t, fs, x, opt_int(o1[x]))
        &&& rooted(t, x)
        &&& (parent_index(t, x) matches Some(p) ==> v1[p])
        &&& (o1[x] matches Some(a) ==> a < t.len())
    } by {
        if x != id {
            assert(v0[x]);
        }
    }
    assert forall|i: int| 0 <= i < p1.len() implies {
        &&& (#[trigger] p1[i]).0 < t.len()
        &&& !v1[p1[i].0 as int]
        &&& match parent_index(t, p1[i].0 as int) {
            Some(p) => v1[p] && p1[i].1 == o1[p],
            None => p1[i].1 is None,
        }
    } by {
        if i < base.len() {
            assert(p1[i] == p0[i]);
            assert(p0[i].0 != p0[top].0);
            match parent_index(t, p0[i].0 as int) {
                Some(p) => {
                    assert(p != id);
                },
                None => {},
            }
        } else {
            let m = i - base.len();
            assert(p1[i] == (kids[m], own));
            let c = kids[m] as int;
            assert(parent_index(t, c) == Some(id));
            assert(!v0[c]);
            assert(c != id);
        }
    }
    assert forall|i: int, j: int| 0 <= i < j < p1.len() implies (#[trigger] p1[i]).0 != (
    #[trigger] p1[j]).0 by {
        if j < base.len() {
            assert(p1[i] == p0[i] && p1[j] == p0[j]);
        } else if i < base.len() {
            let c = kids[j - base.len()] as int;
            assert(p1[j].0 == c);
            assert(p1[i] == p0[i]);
            assert(parent_index(t, c) == Some(id));
            match parent_index(t, p0[i].0 as int) {
                Some(p) => {
                    assert(v0[p]);
                },
                None => {},
            }
        } else {
            assert(kids[i - base.len()] < kids[j - base.len()]);
        }
    }
    assert forall|u: int| 0 <= u < t.len() && !v1[u] && #[trigger] rooted(t, u) implies exists|i: int|
        0 <= i < p1.len() && #[trigger] is_ancestor(t, p1[i].0 as int, u) by {
        assert(!v0[u]);
        let i = choose|i: int| 0 <= i < p0.len() && #[trigger] is_ancestor(t, p0[i].0 as int, u);
        if i < top {
            assert(p1[i] == p0[i]);
            assert(is_ancestor(t, p1[i].0 as int, u));
        } else {
            let k = choose|k: nat| #[trigger] ancestor_at(t, u, k) == Some(id);
            assert(u != id);
            assert(k > 0);
            lemma_child_toward(t, u, k);
            let c = ancestor_at(t, u, (k - 1) as nat)->0;
            lemma_ancestor_in_range(t, u, (k - 1) as nat);
            assert(kids.contains(c as usize));
            let m = choose|m: int| 0 <= m < kids.len() && kids[m] == c as usize;
            assert(p1[base.len() + m].0 == c);
            assert(is_ancestor(t, c, u));
            assert(is_ancestor(t, p1[base.len() + m].0 as int, u));
        }
    }
}

/// Distinct existing scopes with the same parent, or two roots.
pub open spec fn siblings(t: Seq<Scope>, u: int, v: int) -> bool {
    &&& 0 <= u < t.len()
    &&& 0 <= v < t.len()
    &&& u != v
    &&& parent_index(t, u) == parent_index(t, v)
}

/// `order` walks the scopes depth first: every scope comes after its ancestors, and of
/// two sibling scopes the one with the larger identity comes first, with all it contains.
pub open spec fn walk_order(t: Seq<Scope>, order: Seq<usize>) -> bool {
    &&& forall|q1: int, q2: int|
        0 <= q1 < q2 < order.len() ==> !is_ancestor(
            t,
            #[trigger] order[q2] as int,
            #[trigger] order[q1] as int,
        )
    &&& forall|q1: int, q2: int, u: int, v: int|
        0 <= q1 < q2 < order.len() && v < u && siblings(t, u, v) && #[trigger] is_ancestor(
            t,
            v,
            order[q1] as int,
        ) ==> !#[trigger] is_ancestor(t, u, order[q2] as int)
}

/// The walk so far is depth first; every scope below a larger sibling of a visited scope
/// has been visited; and every unvisited scope below a larger sibling of a pending scope
/// lies below a scope pending above it.
#[verifier::opaque]
spec fn w3(
    t: Seq<Scope>,
    visited: Seq<bool>,
    pending: Seq<(usize, Option<usize>)>,
    order: Seq<usize>,
) -> bool {
    &&& walk_order(t, order)
    &&& forall|v: int, u: int, w: int|
        #![trigger siblings(t, u, v), is_ancestor(t, u, w)]
        visited[v] && v < u && siblings(t, u, v) && 0 <= w < t.len() && is_ancestor(t, u, w)
            ==> visited[w]
    &&& forall|i: int, u: int, w: int|
        #![trigger siblings(t, u, pending[i].0 as int), is_ancestor(t, u, w)]
        0 <= i < pending.len() && pending[i].0 < u && siblings(t, u, pending[i].0 as int) && 0
            <= w < t.len() && !visited[w] && is_ancestor(t, u, w) ==> exists|j: int|
            i < j < pending.len() && #[trigger] is_ancestor(t, pending[j].0 as int, w)
}

/// The ancestors of a visited scope are visited.
proof fn lemma_visited_ancestor(t: Seq<Scope>, visited: Seq<bool>, x: int, k: nat)
    requires
        parents_in_range(t),
        visited.len() == t.len(),
        forall|y: int|
            0 <= y < t.len() && #[trigger] visited[y] ==> (parent_index(t, y) matches Some(p)
                ==> visited[p]),
        0 <= x < t.len(),
        visited[x],
    ensures
        ancestor_at(t, x, k) matches Some(a) ==> 0 <= a < t.len() && visited[a],
    decreases k,
{
    if k > 0 {
        if let Some(p) = parent_index(t, x) {
            lemma_visited_ancestor(t, visited, p, (k - 1) as nat);
        }
    }
}

/// One step of the walk keeps it depth first.
#[verifier::spinoff_prover]
#[verifier::rlimit(40)]
proof fn lemma_w3_step(
    t: Seq<Scope>,
    children: Seq<Vec<usize>>,
    fs: Set<int>,
    v0: Seq<bool>,
    o0: Seq<Option<usize>>,
    p0: Seq<(usize, Option<usize>)>,
    ord0: Seq<usize>,
    v1: Seq<bool>,
    p1: Seq<(usize, Option<usize>)>,
    ord1: Seq<usize>,
    own: Option<usize>,
)
    requires
        w1(t, children, fs, v0, o0, p0),
        w3(t, v0, p0, ord0),
        visit_order(v0, ord0),
        p0.len() > 0,
        ({
            let id = p0.last().0 as int;
            &&& v1 == v0.update(id, true)
            &&& p1 == p0.drop_last() + children[id]@.map_values(|c: usize| (c, own))
            &&& ord1 == ord0.push(id as usize)
        }),
    ensures
        w3(t, v1, p1, ord1),
{
    reveal(w1);
    reveal(w3);
    let n = t.len();
    let top = p0.len() - 1;
    let x = p0.last().0 as int;
    assert(p0.last() == p0[top]);
    assert(0 <= x < n && !v0[x]);
    let kids = children[x]@;
    let base = p0.drop_last();
    // a scope with a visited descendant was visited
    assert forall|a: int, y: int| 0 <= y < n && v0[y] && #[trigger] is_ancestor(t, a, y) implies 0 <= a
        < n && v0[a] by {
        let k = choose|k: nat| #[trigger] ancestor_at(t, y, k) == Some(a);
        lemma_visited_ancestor(t, v0, y, k);
    }
    assert forall|q: int| 0 <= q < ord0.len() implies #[trigger] v0[ord0[q] as int] && ord0[q] < n by {}
    // the new scope comes after its ancestors and after the subtrees of larger siblings
    assert forall|q1: int, q2: int|
        0 <= q1 < q2 < ord1.len() implies !is_ancestor(t, #[trigger] ord1[q2] as int, #[trigger] ord1[q1] as int) by {
        if q2 < ord0.len() {
            assert(ord1[q1] == ord0[q1] && ord1[q2] == ord0[q2]);
        } else {
            assert(ord1[q2] as int == x);
            assert(ord1[q1] == ord0[q1]);
            assert(v0[ord0[q1] as int]);
        }
    }
    assert forall|q1: int, q2: int, u: int, v: int|
        0 <= q1 < q2 < ord1.len() && v < u && siblings(t, u, v) && #[trigger] is_ancestor(t, v, ord1[q1] as int)
            implies !#[trigger] is_ancestor(t, u, ord1[q2] as int) by {
        assert(ord1[q1] == ord0[q1]);
        if q2 < ord0.len() {
            assert(ord1[q2] == ord0[q2]);
        } else {
            assert(ord1[q2] as int == x);
            assert(v0[ord0[q1] as int]);
            assert(v0[v]);
            if is_ancestor(t, u, x) {
                assert(v0[x]);
            }
        }
    }
    assert(walk_order(t, ord1));
    // larger siblings of the new scope are done
    assert forall|v: int, u: int, w: int|
        #![trigger siblings(t, u, v), is_ancestor(t, u, w)]
        v1[v] && v < u && siblings(t, u, v) && 0 <= w < n && is_ancestor(t, u, w) implies v1[w] by {
        if v != x {
            assert(v0[v]);
        } else if !v0[w] {
            assert(siblings(t, u, p0[top].0 as int));
            let j = choose|j: int| top < j < p0.len() && #[trigger] is_ancestor(t, p0[j].0 as int, w);
        }
    }
    // the children of the new scope wait above what was pending
    assert forall|i: int, u: int, w: int|
        #![trigger siblings(t, u, p1[i].0 as int), is_ancestor(t, u, w)]
        0 <= i < p1.len() && p1[i].0 < u && siblings(t, u, p1[i].0 as int) && 0 <= w < n && !v1[w]
            && is_ancestor(t, u, w) implies exists|j: int|
        i < j < p1.len() && #[trigger] is_ancestor(t, p1[j].0 as int, w) by {
        if i < base.len() {
            assert(p1[i] == p0[i]);
            assert(w != x && !v0[w]);
            let j = choose|j: int| i < j < p0.len() && #[trigger] is_ancestor(t, p0[j].0 as int, w);
            if j < top {
                assert(p1[j] == p0[j]);
                assert(is_ancestor(t, p1[j].0 as int, w));
            } else {
                assert(p0[j].0 as int == x);
                let k = choose|k: nat| #[trigger] ancestor_at(t, w, k) == Some(x);
                assert(k > 0) by {
                    if k == 0 {
                        assert(ancestor_at(t, w, 0) == Some(w));
                    }
                }
                lemma_child_toward(t, w, k);
                lemma_ancestor_in_range(t, w, (k - 1) as nat);
                let c = ancestor_at(t, w, (k - 1) as nat)->0;
                assert(parent_index(t, c) == Some(x));
                assert(kids.contains(c as usize));
                let m = choose|m: int| 0 <= m < kids.len() && kids[m] == c as usize;
                assert(p1[base.len() + m].0 == c);
                assert(is_ancestor(t, c, w));
                assert(is_ancestor(t, p1[base.len() + m].0 as int, w));
            }
        } else {
            let m = i - base.len();
            let c = kids[m] as int;
            assert(p1[i].0 as int == c);
            assert(parent_index(t, c) == Some(x));
            assert(parent_index(t, u) == Some(x));
            assert(kids.contains(u as usize));
            let m2 = choose|m2: int| 0 <= m2 < kids.len() && kids[m2] == u as usize;
            if m2 <= m {
                if m2 < m {
                    assert(kids[m2] < kids[m]);
                }
            }
            assert(p1[base.len() + m2].0 as int == u);
            assert(is_ancestor(t, p1[base.len() + m2].0 as int, w));
        }
    }
}

/// `order` lists each visited scope once, in the order of the walk.
spec fn visit_order(visited: Seq<bool>, order: Seq<usize>) -> bool {
    &&& forall|q: int| 0 <= q < order.len() ==> (#[trigger] order[q]) < visited.len() && visited[order[q] as int]
    &&& forall|a: int, b: int| 0 <= a < order.len() && 0 <= b < order.len() && a != b ==> order[a] != order[b]
    &&& forall|x: int| 0 <= x < visited.len() && #[trigger] visited[x] ==> order.contains(x as usize)
}

/// The frame of every rooted scope: `visited[x]` holds exactly for scopes whose
/// parent chain ends, and for them `owners[x]` is the frame they execute in.
fn frame_owners(
    scopes: &crate::scope_tree::ScopeTree,
    children: &Vec<Vec<usize>>,
    is_frame: &Vec<bool>,
    Ghost(fs): Ghost<Set<int>>,
) -> (r: (Vec<bool>, Vec<Option<usize>>, Vec<usize>))
    requires
        numbered(scopes@),
        parents_in_range(scopes@),
        child_lists_of(scopes@, children@, scopes@.len() as int),
        is_frame@.len() == scopes@.len(),
        forall|x: int| 0 <= x < scopes@.len() ==> (#[trigger] is_frame@[x] <==> fs.contains(x)),
    ensures
        r.0@.len() == scopes@.len(),
        r.1@.len() == scopes@.len(),
        forall|x: int| 0 <= x < scopes@.len() ==> (#[trigger] r.0@[x] <==> rooted(scopes@, x)),
        forall|x: int|
            0 <= x < scopes@.len() && #[trigger] r.0@[x] ==> owner_rel(
                scopes@,
                fs,
                x,
                opt_int(r.1@[x]),
            ) && (r.1@[x] matches Some(a) ==> a < scopes@.len()),
        visit_order(r.0@, r.2@),
        walk_order(scopes@, r.2@),
{
    let n = scopes.len();
    let ghost t = scopes@;
    let mut visited: Vec<bool> = Vec::new();
    let mut owners: Vec<Option<usize>> = Vec::new();
    for i in 0..n
        invariant
            visited@.len() == i,
            owners@.len() == i,
            forall|k: int| 0 <= k < i ==> !(#[trigger] visited@[k]),
    {
        visited.push(false);
        owners.push(None);
    }
    let mut pending: Vec<(usize, Option<usize>)> = Vec::new();
    for i in 0..n
        invariant
            n == t.len(),
            t == scopes@,
            visited@.len() == n,
            forall|k: int| 0 <= k < n ==> !(#[trigger] visited@[k]),
            forall|j: int|
                0 <= j < pending@.len() ==> (#[trigger] pending@[j]).0 < i && parent_index(
                    t,
                    pending@[j].0 as int,
                ) is None && pending@[j].1 is None,
            forall|a: int, b: int|
                0 <= a < b < pending@.len() ==> (#[trigger] pending@[a]).0 < (
                #[trigger] pending@[b]).0,
            forall|x: int|
                0 <= x < i && parent_index(t, x) is None ==> exists|j: int|
                    0 <= j < pending@.len() && (#[trigger] pending@[j]).0 == x,
    {
        if scopes.at(i).parent.is_none() {
            let ghost before = pending@;
            pending.push((i, None));
            proof {
                assert forall|x: int|
                    0 <= x < i + 1 && parent_index(t, x) is None implies exists|j: int|
                        0 <= j < pending@.len() && (#[trigger] pending@[j]).0 == x by {
                    if x < i {
                        let j = choose|j: int| 0 <= j < before.len() && (#[trigger] before[j]).0 == x;
                        assert(pending@[j] == before[j]);
                    } else {
                        assert(pending@[before.len() as int].0 == x);
                    }
                }
            }
        }
    }
    proof {
        reveal(w1);
        assert forall|u: int| 0 <= u < t.len() && !visited@[u] && #[trigger] rooted(t, u) implies exists|
            i: int,
        | 0 <= i < pending@.len() && #[trigger] is_ancestor(t, pending@[i].0 as int, u) by {
            let k = choose|k: nat|
                #[trigger] ancestor_at(t, u, k) matches Some(r) && parent_index(t, r) is None;
            lemma_ancestor_in_range(t, u, k);
            let r = ancestor_at(t, u, k)->0;
            let j = choose|j: int| 0 <= j < pending@.len() && (#[trigger] pending@[j]).0 == r;
            assert(is_ancestor(t, pending@[j].0 as int, u));
        }
        assert(w1(t, children@, fs, visited@, owners@, pending@));
        reveal(w3);
        assert forall|i: int, u: int, w: int|
            #![trigger siblings(t, u, pending@[i].0 as int), is_ancestor(t, u, w)]
            0 <= i < pending@.len() && pending@[i].0 < u && siblings(t, u, pending@[i].0 as int) && 0
                <= w < t.len() && !visited@[w] && is_ancestor(t, u, w) implies exists|j: int|
            i < j < pending@.len() && #[trigger] is_ancestor(t, pending@[j].0 as int, w) by {
            let j = choose|j: int| 0 <= j < pending@.len() && (#[trigger] pending@[j]).0 == u;
            if j <= i {
                if j < i {
                    assert(pending@[j].0 < pending@[i].0);
                }
            }
        }
        assert(w3(t, visited@, pending@, Seq::<usize>::empty()));
        lemma_vset_bound(visited@);
        assert(vset(visited@) =~= Set::<int>::empty());
    }
    let mut order: Vec<usize> = Vec::new();
    proof {
        assert(order@ == Seq::<usize>::empty());
    }
    while pending.len() > 0
        invariant
            n == t.len(),
            t == scopes@,
            visit_order(visited@, order@),
            w3(t, visited@, pending@, order@),
            is_frame@.len() == n,
            forall|x: int| 0 <= x < n ==> (#[trigger] is_frame@[x] <==> fs.contains(x)),
            w1(t, children@, fs, visited@, owners@, pending@),
            vset(visited@).finite(),
        decreases n - vset(visited@).len(),
    {
        let ghost v0 = visited@;
        let ghost o0 = owners@;
        let ghost p0 = pending@;
        proof {
            reveal(w1);
            assert(p0.last() == p0[p0.len() - 1]);
        }
        let (id, inherited) = pending.pop().unwrap();
        proof {
            assert(id < n);
        }
        let own = if is_frame[id] {
            Some(id)
        } else {
            match scopes.at(id).owner {
                crate::scope_tree::ScopeOwner::Lambda(_) => None,
                _ => inherited,
            }
        };
        proof {
            reveal(w1);
            let x = id as int;
            if fs.contains(x) {
                lemma_owner_frame(t, fs, x);
            } else if lambda_of(t, x) is Some {
                lemma_owner_lambda(t, fs, x);
            } else {
                match parent_index(t, x) {
                    Some(p) => {
                        assert(v0[p]);
                        lemma_owner_inherit(t, fs, x, p, opt_int(o0[p]));
                    },
                    None => lemma_owner_root(t, fs, x),
                }
            }
        }
        proof {
            reveal(w1);
            assert(!v0[id as int]);
        }
        let ghost ord0 = order@;
        visited.set(id, true);
        owners.set(id, own);
        order.push(id);
        proof {
            assert forall|a: int, b: int| 0 <= a < order@.len() && 0 <= b < order@.len() && a != b implies order@[a] != order@[b] by {
                if a == ord0.len() as int {
                    assert(v0[ord0[b] as int]);
                } else if b == ord0.len() as int {
                    assert(v0[ord0[a] as int]);
                } else {
                    assert(ord0[a] != ord0[b]);
                }
            }
            assert forall|x: int| 0 <= x < visited@.len() && #[trigger] visited@[x] implies order@.contains(x as usize) by {
                if x == id as int {
                    assert(order@[ord0.len() as int] == id);
                } else {
                    assert(ord0.contains(x as usize));
                    let q = choose|q: int| 0 <= q < ord0.len() && ord0[q] == x as usize;
                    assert(order@[q] == x as usize);
                }
            }
        }
        let kids = &children[id];
        let ghost kv = kids@;
        for k in 0..kids.len()
            invariant
                kv == kids@,
                pending@ == p0.drop_last() + kv.take(k as int).map_values(|c: usize| (c, own)),
        {
            pending.push((kids[k], own));
            proof {
                assert(kv.take(k + 1) == kv.take(k as int).push(kv[k as int]));
                assert(kv.take(k + 1).map_values(|c: usize| (c, own)) == kv.take(k as int).map_values(
                    |c: usize| (c, own),
                ).push((kv[k as int], own)));
            }
        }
        proof {
            assert(kv.take(kv.len() as int) == kv);
            lemma_w1_step(t, children@, fs, v0, o0, p0, visited@, owners@, pending@, own);
            lemma_w3_step(t, children@, fs, v0, o0, p0, ord0, visited@, pending@, order@, own);
            lemma_vset_bound(visited@);
            lemma_vset_bound(v0);
        }
    }
    proof {
        reveal(w1);
        reveal(w3);
        assert forall|x: int| 0 <= x < t.len() implies (#[trigger] visited@[x] <==> rooted(t, x)) by {
            if rooted(t, x) && !visited@[x] {
                let i = choose|i: int|
                    0 <= i < pending@.len() && #[trigger] is_ancestor(t, pending@[i].0 as int, x);
            }
        }
    }
    (visited, owners, order)
}

// ---------------------------------------------------------------------------
// Local symbols and their frames.

/// Scope `y` declares `sym` at position `l`, and `sym` has a slot.
pub open spec fn declares(t: Seq<Scope>, slots: Seq<SymbolId>, y: int, l: int, sym: SymbolId) -> bool {
    &&& 0 <= y < t.len()
    &&& 0 <= l < t[y].symbols@.len()
    &&& t[y].symbols@[l] == sym
    &&& slots.contains(sym)
}

/// `sym` is declared twice among rooted scopes.
pub open spec fn declared_twice(t: Seq<Scope>, slots: Seq<SymbolId>, sym: SymbolId) -> bool {
    exists|y1: int, l1: int, y2: int, l2: int|
        #![trigger declares(t, slots, y1, l1, sym), declares(t, slots, y2, l2, sym)]
        (y1 != y2 || l1 != l2) && declares(t, slots, y1, l1, sym) && declares(t, slots, y2, l2, sym)
            && rooted(t, y1) && rooted(t, y2)
}

/// `order` lists every rooted scope once, depth first.
pub open spec fn walks_rooted(t: Seq<Scope>, order: Seq<usize>) -> bool {
    &&& order.no_duplicates()
    &&& forall|q: int| 0 <= q < order.len() ==> #[trigger] order[q] < t.len() && rooted(t, order[q] as int)
    &&& forall|x: usize| x < t.len() && rooted(t, x as int) ==> #[trigger] order.contains(x)
    &&& walk_order(t, order)
}

/// The symbol at position `l` of the `q`-th scope of the walk `order`.
pub open spec fn walk_symbol(t: Seq<Scope>, order: Seq<usize>, q: int, l: int) -> SymbolId {
    t[order[q] as int].symbols@[l]
}

/// Position `l` of the `q`-th scope of the walk holds a slot symbol met earlier in the walk.
pub open spec fn repeats(t: Seq<Scope>, slots: Seq<SymbolId>, order: Seq<usize>, q: int, l: int) -> bool {
    &&& 0 <= q < order.len()
    &&& declares(t, slots, order[q] as int, l, walk_symbol(t, order, q, l))
    &&& exists|q2: int, l2: int|
        0 <= q2 < order.len() && (q2 < q || (q2 == q && l2 < l)) && #[trigger] declares(
            t,
            slots,
            order[q2] as int,
            l2,
            walk_symbol(t, order, q, l),
        )
}

/// The first repeated symbol of the walk is at position `l` of its `q`-th scope.
pub open spec fn first_repeat(t: Seq<Scope>, slots: Seq<SymbolId>, order: Seq<usize>, q: int, l: int) -> bool {
    &&& repeats(t, slots, order, q, l)
    &&& forall|q2: int, l2: int| (q2 < q || (q2 == q && l2 < l)) ==> !#[trigger] repeats(t, slots, order, q2, l2)
}

/// The error for a symbol declared twice.
pub open spec fn duplicate_message(sym: SymbolId) -> Seq<char> {
    "local symbol SymbolId("@ + decimal(sym.0 as nat) + ") has multiple declaring scopes"@
}

/// Frame `f` holds `sym`: some scope executing in `f` declares it.
pub open spec fn frame_holds(t: Seq<Scope>, slots: Seq<SymbolId>, fs: Set<int>, f: int, sym: SymbolId) -> bool {
    exists|y: int, l: int| #[trigger] declares(t, slots, y, l, sym) && owned_by(t, fs, y, f)
}

/// The slot symbols among the first `l` symbols of scope `y`, in order.
pub open spec fn slot_symbols_upto(t: Seq<Scope>, slots: Seq<SymbolId>, y: int, l: int) -> Seq<SymbolId>
    decreases l,
{
    if l <= 0 {
        Seq::empty()
    } else {
        let prev = slot_symbols_upto(t, slots, y, l - 1);
        let sym = t[y].symbols@[l - 1];
        if slots.contains(sym) {
            prev.push(sym)
        } else {
            prev
        }
    }
}

/// The slot symbols scope `y` declares, in order.
pub open spec fn scope_slot_symbols(t: Seq<Scope>, slots: Seq<SymbolId>, y: int) -> Seq<SymbolId> {
    slot_symbols_upto(t, slots, y, t[y].symbols@.len() as int)
}

/// What frame `f` holds once the first `q` scopes of the walk `order` are done: the
/// slot symbols of each scope that executes in `f`, scope after scope.
pub open spec fn frame_walk(
    t: Seq<Scope>,
    slots: Seq<SymbolId>,
    fs: Set<int>,
    order: Seq<usize>,
    f: int,
    q: int,
) -> Seq<SymbolId>
    decreases q,
{
    if q <= 0 {
        Seq::empty()
    } else {
        let y = order[q - 1] as int;
        frame_walk(t, slots, fs, order, f, q - 1) + if owned_by(t, fs, y, f) {
            scope_slot_symbols(t, slots, y)
        } else {
            Seq::empty()
        }
    }
}

/// `frame_walk` with the frame of each scope read from `owners`.
spec fn owners_walk(
    t: Seq<Scope>,
    slots: Seq<SymbolId>,
    owners: Seq<Option<usize>>,
    order: Seq<usize>,
    f: int,
    q: int,
) -> Seq<SymbolId>
    decreases q,
{
    if q <= 0 {
        Seq::empty()
    } else {
        let y = order[q - 1] as int;
        owners_walk(t, slots, owners, order, f, q - 1) + if owners[y] == Some(f as usize) {
            scope_slot_symbols(t, slots, y)
        } else {
            Seq::empty()
        }
    }
}

/// Reading frames from `owners` agrees with the frame relation on the walked scopes.
proof fn lemma_owners_walk(
    t: Seq<Scope>,
    slots: Seq<SymbolId>,
    fs: Set<int>,
    owners: Seq<Option<usize>>,
    order: Seq<usize>,
    f: int,
    q: int,
)
    requires
        0 <= f <= usize::MAX,
        q <= order.len(),
        forall|k: int|
            0 <= k < order.len() ==> owner_rel(t, fs, #[trigger] order[k] as int, opt_int(owners[order[k] as int])),
    ensures
        owners_walk(t, slots, owners, order, f, q) == frame_walk(t, slots, fs, order, f, q),
    decreases q,
{
    if q > 0 {
        lemma_owners_walk(t, slots, fs, owners, order, f, q - 1);
        let y = order[q - 1] as int;
        assert(owner_rel(t, fs, #[trigger] order[q - 1] as int, opt_int(owners[order[q - 1] as int])));
        assert(owners[y] == Some(f as usize) <==> owned_by(t, fs, y, f)) by {
            match owners[y] {
                Some(a) => {
                    assert(owned_by(t, fs, y, a as int));
                    if a as int != f && owned_by(t, fs, y, f) {
                        lemma_owner_unique(t, fs, y, a as int, f);
                    }
                },
                None => {
                    assert(!owned_by(t, fs, y, f));
                },
            }
        }
    }
}

/// Processed occurrences, in walk order: every position of every scope walked before
/// the `p0`-th, and the first `l0` positions of the `p0`-th.
spec fn processed(rank: Seq<int>, p0: int, l0: int, y: int, l: int) -> bool {
    rank[y] < p0 || (rank[y] == p0 && l < l0)
}

#[verifier::opaque]
spec fn w2(
    t: Seq<Scope>,
    slots: Seq<SymbolId>,
    visited: Seq<bool>,
    owners: Seq<Option<usize>>,
    rank: Seq<int>,
    decl: Set<u32>,
    layouts: Seq<Vec<SymbolId>>,
    y0: int,
    l0: int,
) -> bool {
    &&& layouts.len() == t.len()
    &&& forall|k: u32|
        #![trigger decl.contains(k)]
        decl.contains(k) <==> exists|y: int, l: int|
            #[trigger] declares(t, slots, y, l, SymbolId(k)) && visited[y] && processed(rank, y0, l0, y, l)
    &&& forall|y1: int, l1: int, y2: int, l2: int, sym: SymbolId|
        #![trigger declares(t, slots, y1, l1, sym), declares(t, slots, y2, l2, sym)]
        declares(t, slots, y1, l1, sym) && declares(t, slots, y2, l2, sym) && visited[y1]
            && visited[y2] && processed(rank, y0, l0, y1, l1) && processed(rank, y0, l0, y2, l2) ==> y1 == y2
            && l1 == l2
    &&& forall|f: int| 0 <= f < t.len() ==> (#[trigger] layouts[f])@.no_duplicates()
    &&& forall|f: int, sym: SymbolId|
        0 <= f < t.len() ==> (#[trigger] layouts[f]@.contains(sym) <==> exists|y: int, l: int|
            #[trigger] declares(t, slots, y, l, sym) && visited[y] && processed(rank, y0, l0, y, l)
                && owners[y] == Some(f as usize))
}

/// Puts every slot symbol of every visited scope into the layout of its frame, walking
/// the scopes in `order`.
fn assign_symbols(
    scopes: &crate::scope_tree::ScopeTree,
    slots: &SlotLayoutTable,
    visited: &Vec<bool>,
    owners: &Vec<Option<usize>>,
    order: &Vec<usize>,
) -> (r: Result<Vec<Vec<SymbolId>>, String>)
    requires
        visited@.len() == scopes@.len(),
        owners@.len() == scopes@.len(),
        forall|x: int|
            0 <= x < scopes@.len() && #[trigger] visited@[x] ==> (owners@[x] matches Some(a) ==> a
                < scopes@.len()),
        visit_order(visited@, order@),
    ensures
        match r {
            Ok(layouts) => {
                &&& layouts@.len() == scopes@.len()
                &&& forall|y1: int, l1: int, y2: int, l2: int, sym: SymbolId|
                    #![trigger declares(scopes@, slots@, y1, l1, sym), declares(scopes@, slots@, y2, l2, sym)]
                    declares(scopes@, slots@, y1, l1, sym) && declares(scopes@, slots@, y2, l2, sym)
                        && visited@[y1] && visited@[y2] ==> y1 == y2 && l1 == l2
                &&& forall|f: int| 0 <= f < scopes@.len() ==> (#[trigger] layouts@[f])@.no_duplicates()
                &&& forall|f: int|
                    0 <= f < scopes@.len() ==> (#[trigger] layouts@[f])@ == owners_walk(
                        scopes@,
                        slots@,
                        owners@,
                        order@,
                        f,
                        order@.len() as int,
                    )
                &&& forall|f: int, sym: SymbolId|
                    0 <= f < scopes@.len() ==> (#[trigger] layouts@[f]@.contains(sym)
                        <==> exists|y: int, l: int|
                        #[trigger] declares(scopes@, slots@, y, l, sym) && visited@[y] && owners@[y]
                            == Some(f as usize))
            },
            Err(m) => {
                &&& exists|y1: int, l1: int, y2: int, l2: int, sym: SymbolId|
                    #![trigger declares(scopes@, slots@, y1, l1, sym), declares(scopes@, slots@, y2, l2, sym)]
                    (y1 != y2 || l1 != l2) && declares(scopes@, slots@, y1, l1, sym) && declares(
                        scopes@,
                        slots@,
                        y2,
                        l2,
                        sym,
                    ) && visited@[y1] && visited@[y2] && m@ == duplicate_message(sym)
                &&& exists|q: int, l: int|
                    #[trigger] first_repeat(scopes@, slots@, order@, q, l) && m@ == duplicate_message(
                        walk_symbol(scopes@, order@, q, l),
                    )
            },
        },
{
    let n = scopes.len();
    let ghost t = scopes@;
    let count = order.len();
    // the walk position of each visited scope; unvisited scopes come after the walk
    let ghost rank = Seq::new(
        n as nat,
        |y: int|
            if visited@[y] {
                order@.index_of(y as usize)
            } else {
                count as int
            },
    );
    proof {
        assert forall|q: int| 0 <= q < count implies #[trigger] rank[order@[q] as int] == q by {
            let y = order@[q] as int;
            assert(visited@[y]);
            assert(order@.contains(y as usize));
            let i = order@.index_of(y as usize);
            assert(0 <= i < count && order@[i] == y as usize);
            if i != q {
                assert(order@[i] != order@[q]);
            }
        }
        assert forall|y: int| 0 <= y < n && #[trigger] visited@[y] implies 0 <= rank[y] < count
            && order@[rank[y]] == y as usize by {
            assert(order@.contains(y as usize));
        }
    }
    let mut layouts: Vec<Vec<SymbolId>> = Vec::new();
    for i in 0..n
        invariant
            layouts@.len() == i,
            forall|k: int| 0 <= k < i ==> (#[trigger] layouts@[k])@.len() == 0,
    {
        layouts.push(Vec::new());
    }
    let mut decl: HashSet<u32> = HashSet::new();
    proof {
        reveal(w2);
        assert(decl@ =~= Set::<u32>::empty());
        assert forall|y: int, l: int| 0 <= y < n && 0 <= l && visited@[y] implies !processed(rank, 0, 0, y, l) by {}
        assert forall|f: int| 0 <= f < n implies (#[trigger] layouts@[f])@ == owners_walk(t, slots@, owners@, order@, f, 0) by {
            assert(layouts@[f]@ =~= Seq::<SymbolId>::empty());
        }
    }
    for q in 0..count
        invariant
            n == t.len(),
            t == scopes@,
            count == order@.len(),
            visited@.len() == n,
            owners@.len() == n,
            rank.len() == n,
            visit_order(visited@, order@),
            forall|x: int| 0 <= x < count ==> #[trigger] rank[order@[x] as int] == x,
            forall|y: int| 0 <= y < n && !visited@[y] ==> #[trigger] rank[y] == count,
            forall|y: int| 0 <= y < n && #[trigger] visited@[y] ==> 0 <= rank[y] < count && order@[rank[y]] == y as usize,
            forall|x: int|
                0 <= x < n && #[trigger] visited@[x] ==> (owners@[x] matches Some(a) ==> a < n),
            w2(t, slots@, visited@, owners@, rank, decl@, layouts@, q as int, 0),
            layouts@.len() == n,
            forall|f: int|
                0 <= f < n ==> (#[trigger] layouts@[f])@ == owners_walk(t, slots@, owners@, order@, f, q as int),
    {
        let y = order[q];
        proof {
            assert(visited@[y as int]);
            assert forall|y2: int| 0 <= y2 < n && #[trigger] rank[y2] == q implies y2 == y by {
                if visited@[y2] {
                    assert(order@.contains(y2 as usize));
                    let i = order@.index_of(y2 as usize);
                    assert(rank[order@[i] as int] == i);
                }
            }
        }
        let symbols = &scopes.at(y).symbols;
        let len = symbols.len();
        proof {
            assert forall|f: int| 0 <= f < n implies (#[trigger] layouts@[f])@ == owners_walk(t, slots@, owners@, order@, f, q as int)
                + if owners@[y as int] == Some(f as usize) {
                slot_symbols_upto(t, slots@, y as int, 0)
            } else {
                Seq::empty()
            } by {
                assert(layouts@[f]@ =~= owners_walk(t, slots@, owners@, order@, f, q as int) + Seq::<SymbolId>::empty());
            }
        }
        for l in 0..len
            invariant
                n == t.len(),
                t == scopes@,
                y < n,
                visited@.len() == n,
                owners@.len() == n,
                rank.len() == n,
                rank[y as int] == q,
                forall|y2: int| 0 <= y2 < n && #[trigger] rank[y2] == q ==> y2 == y,
                visited@[y as int],
                owners@[y as int] matches Some(a) ==> a < n,
                symbols@ == t[y as int].symbols@,
                len == symbols@.len(),
                w2(t, slots@, visited@, owners@, rank, decl@, layouts@, q as int, l as int),
                layouts@.len() == n,
                y == order@[q as int],
                q < count,
                count == order@.len(),
                forall|x: int| 0 <= x < count ==> #[trigger] rank[order@[x] as int] == x,
                forall|y3: int| 0 <= y3 < n && #[trigger] visited@[y3] ==> 0 <= rank[y3] < count && order@[rank[y3]] == y3 as usize,
                order@.no_duplicates(),
                visit_order(visited@, order@),
                forall|f: int|
                    0 <= f < n ==> (#[trigger] layouts@[f])@ == owners_walk(t, slots@, owners@, order@, f, q as int)
                        + if owners@[y as int] == Some(f as usize) {
                        slot_symbols_upto(t, slots@, y as int, l as int)
                    } else {
                        Seq::empty()
                    },
        {
            let sym = symbols[l];
            proof {
                lemma_slot_contains(slots@, sym);
            }
            if slots.resolve(sym).is_some() {
                if decl.contains(&sym.0) {
                    proof {
                        reveal(w2);
                        assert(decl@.contains(sym.0));
                        let (y2, l2) = choose|y2: int, l2: int|
                            #[trigger] declares(t, slots@, y2, l2, SymbolId(sym.0)) && visited@[y2]
                                && processed(rank, q as int, l as int, y2, l2);
                        assert(SymbolId(sym.0) == sym);
                        assert(declares(t, slots@, y as int, l as int, sym));
                        assert(y2 != y || l2 != l);
                        // the repeat, and no earlier one, in terms of walk positions
                        let ov = order@;
                        assert(walk_symbol(t, ov, q as int, l as int) == sym);
                        let q2 = rank[y2];
                        assert(ov[q2] as int == y2);
                        assert(declares(t, slots@, ov[q2] as int, l2, walk_symbol(t, ov, q as int, l as int)));
                        assert(repeats(t, slots@, ov, q as int, l as int));
                        assert forall|qa: int, la: int| (qa < q || (qa == q && la < l)) implies !#[trigger] repeats(
                            t,
                            slots@,
                            ov,
                            qa,
                            la,
                        ) by {
                            if repeats(t, slots@, ov, qa, la) {
                                let s2 = walk_symbol(t, ov, qa, la);
                                let (qb, lb) = choose|qb: int, lb: int|
                                    0 <= qb < ov.len() && (qb < qa || (qb == qa && lb < la)) && #[trigger] declares(
                                        t,
                                        slots@,
                                        ov[qb] as int,
                                        lb,
                                        s2,
                                    );
                                assert(rank[ov[qa] as int] == qa);
                                assert(rank[ov[qb] as int] == qb);
                                assert(processed(rank, q as int, l as int, ov[qa] as int, la));
                                assert(processed(rank, q as int, l as int, ov[qb] as int, lb));
                                assert(declares(t, slots@, ov[qa] as int, la, s2));
                                assert(visited@[ov[qa] as int] && visited@[ov[qb] as int]);
                                if qa != qb {
                                    assert(ov[qa] != ov[qb]);
                                }
                            }
                        }
                        assert(first_repeat(t, slots@, ov, q as int, l as int));
                    }
                    return Err(
                        with_number("local symbol SymbolId(", sym.0, ") has multiple declaring scopes"),
                    );
                }
                let ghost d0 = decl@;
                let ghost ls0 = layouts@;
                decl.insert(sym.0);
                match owners[y] {
                    Some(f) => {
                        layouts[f].push(sym);
                    },
                    None => {},
                }
                proof {
                    lemma_w2_add(t, slots@, visited@, owners@, rank, d0, decl@, ls0, layouts@, q as int, y as int, l as int, sym);
                    assert(sym == t[y as int].symbols@[l as int]);
                    assert forall|f: int| 0 <= f < n implies (#[trigger] layouts@[f])@ == owners_walk(t, slots@, owners@, order@, f, q as int)
                        + if owners@[y as int] == Some(f as usize) {
                        slot_symbols_upto(t, slots@, y as int, l + 1)
                    } else {
                        Seq::empty()
                    } by {
                        if owners@[y as int] == Some(f as usize) {
                            assert(layouts@[f]@ == ls0[f]@.push(sym));
                            assert(slot_symbols_upto(t, slots@, y as int, l + 1) == slot_symbols_upto(t, slots@, y as int, l as int).push(sym));
                            assert(layouts@[f]@ =~= owners_walk(t, slots@, owners@, order@, f, q as int)
                                + slot_symbols_upto(t, slots@, y as int, l + 1));
                        } else {
                            assert(layouts@[f]@ == ls0[f]@);
                        }
                    }
                }
            } else {
                proof {
                    lemma_w2_skip(t, slots@, visited@, owners@, rank, decl@, layouts@, q as int, y as int, l as int);
                    assert(slot_symbols_upto(t, slots@, y as int, l + 1) == slot_symbols_upto(t, slots@, y as int, l as int));
                }
            }
        }
        proof {
            lemma_w2_next_scope(t, slots@, visited@, owners@, rank, decl@, layouts@, q as int, y as int, len as int);
            assert forall|f: int| 0 <= f < n implies (#[trigger] layouts@[f])@ == owners_walk(t, slots@, owners@, order@, f, q + 1) by {
                assert(order@[(q + 1) - 1] == y);
                if owners@[y as int] == Some(f as usize) {
                } else {
                    assert(layouts@[f]@ =~= owners_walk(t, slots@, owners@, order@, f, q as int));
                    assert(owners_walk(t, slots@, owners@, order@, f, q + 1) =~= owners_walk(t, slots@, owners@, order@, f, q as int));
                }
            }
        }
    }
    proof {
        reveal(w2);
        assert forall|y: int, l: int| 0 <= y < n && visited@[y] implies processed(rank, count as int, 0, y, l) by {
            assert(order@.contains(y as usize));
            let i = order@.index_of(y as usize);
            assert(rank[order@[i] as int] == i);
        }
    }
    Ok(layouts)
}

proof fn lemma_slot_contains(slots: Seq<SymbolId>, sym: SymbolId)
    ensures
        crate::slots::slot_of(slots, sym) is Some <==> slots.contains(sym),
{
    crate::slots::lemma_slot_of_holds(slots, sym);
}

#[verifier::spinoff_prover]
proof fn lemma_w2_add(
    t: Seq<Scope>,
    slots: Seq<SymbolId>,
    visited: Seq<bool>,
    owners: Seq<Option<usize>>,
    rank: Seq<int>,
    d0: Set<u32>,
    d1: Set<u32>,
    ls0: Seq<Vec<SymbolId>>,
    ls1: Seq<Vec<SymbolId>>,
    p: int,
    y: int,
    l: int,
    sym: SymbolId,
)
    requires
        w2(t, slots, visited, owners, rank, d0, ls0, p, l),
        rank.len() == t.len(),
        rank[y] == p,
        forall|y2: int| 0 <= y2 < t.len() && #[trigger] rank[y2] == p ==> y2 == y,
        0 <= y < t.len(),
        visited[y],
        owners[y] matches Some(a) ==> a < t.len(),
        declares(t, slots, y, l, sym),
        !d0.contains(sym.0),
        d1 == d0.insert(sym.0),
        ls1.len() == ls0.len(),
        forall|f: int|
            0 <= f < ls0.len() ==> (#[trigger] ls1[f])@ == if owners[y] == Some(f as usize) {
                ls0[f]@.push(sym)
            } else {
                ls0[f]@
            },
    ensures
        w2(t, slots, visited, owners, rank, d1, ls1, p, l + 1),
{
    reveal(w2);
    assert(SymbolId(sym.0) == sym);
    assert forall|k: u32| #![trigger d1.contains(k)] d1.contains(k) <==> exists|y2: int, l2: int|
        #[trigger] declares(t, slots, y2, l2, SymbolId(k)) && visited[y2] && processed(rank, p, l + 1, y2, l2) by {
        if k == sym.0 {
            assert(declares(t, slots, y, l, SymbolId(k)));
        } else {
            if exists|y2: int, l2: int|
                #[trigger] declares(t, slots, y2, l2, SymbolId(k)) && visited[y2] && processed(
                    rank,
                    p,
                    l + 1,
                    y2,
                    l2,
                ) {
                let (y2, l2) = choose|y2: int, l2: int|
                    #[trigger] declares(t, slots, y2, l2, SymbolId(k)) && visited[y2] && processed(
                        rank,
                        p,
                        l + 1,
                        y2,
                        l2,
                    );
                assert(y2 != y || l2 != l);
                assert(processed(rank, p, l, y2, l2));
            }
        }
    }
    assert forall|y1: int, l1: int, y2: int, l2: int, s: SymbolId|
        #![trigger declares(t, slots, y1, l1, s), declares(t, slots, y2, l2, s)]
        declares(t, slots, y1, l1, s) && declares(t, slots, y2, l2, s) && visited[y1] && visited[y2]
            && processed(rank, p, l + 1, y1, l1) && processed(rank, p, l + 1, y2, l2) implies y1 == y2 && l1 == l2 by {
        if !processed(rank, p, l, y1, l1) && processed(rank, p, l, y2, l2) {
            assert(d0.contains(s.0)) by {
                assert(declares(t, slots, y2, l2, SymbolId(s.0)));
            }
        } else if processed(rank, p, l, y1, l1) && !processed(rank, p, l, y2, l2) {
            assert(d0.contains(s.0)) by {
                assert(declares(t, slots, y1, l1, SymbolId(s.0)));
            }
        }
    }
    assert forall|f: int| 0 <= f < t.len() implies (#[trigger] ls1[f])@.no_duplicates() by {
        if owners[y] == Some(f as usize) {
            assert(!ls0[f]@.contains(sym)) by {
                if ls0[f]@.contains(sym) {
                    let (y2, l2) = choose|y2: int, l2: int|
                        #[trigger] declares(t, slots, y2, l2, sym) && visited[y2] && processed(rank, p, l, y2, l2)
                            && owners[y2] == Some(f as usize);
                    assert(declares(t, slots, y2, l2, SymbolId(sym.0)));
                }
            }
        }
    }
    assert forall|f: int, s: SymbolId| 0 <= f < t.len() implies (#[trigger] ls1[f]@.contains(s)
        <==> exists|y2: int, l2: int|
        #[trigger] declares(t, slots, y2, l2, s) && visited[y2] && processed(rank, p, l + 1, y2, l2)
            && owners[y2] == Some(f as usize)) by {
        if exists|y2: int, l2: int|
            #[trigger] declares(t, slots, y2, l2, s) && visited[y2] && processed(rank, p, l + 1, y2, l2)
                && owners[y2] == Some(f as usize) {
            let (y2, l2) = choose|y2: int, l2: int|
                #[trigger] declares(t, slots, y2, l2, s) && visited[y2] && processed(rank, p, l + 1, y2, l2)
                    && owners[y2] == Some(f as usize);
            if y2 == y && l2 == l {
                assert(ls1[f]@.last() == s);
            } else {
                assert(processed(rank, p, l, y2, l2));
                assert(ls0[f]@.contains(s));
                let m = choose|m: int| 0 <= m < ls0[f]@.len() && ls0[f]@[m] == s;
                assert(ls1[f]@[m] == s);
            }
        }
        if ls1[f]@.contains(s) {
            let m = choose|m: int| 0 <= m < ls1[f]@.len() && ls1[f]@[m] == s;
            if owners[y] == Some(f as usize) && m == ls0[f]@.len() {
                assert(s == sym);
                assert(declares(t, slots, y, l, s));
            } else {
                assert(ls0[f]@[m] == s);
                assert(ls0[f]@.contains(s));
                let (y2, l2) = choose|y2: int, l2: int|
                    #[trigger] declares(t, slots, y2, l2, s) && visited[y2] && processed(rank, p, l, y2, l2)
                        && owners[y2] == Some(f as usize);
                assert(processed(rank, p, l + 1, y2, l2));
            }
        }
    }
}

proof fn lemma_w2_skip(
    t: Seq<Scope>,
    slots: Seq<SymbolId>,
    visited: Seq<bool>,
    owners: Seq<Option<usize>>,
    rank: Seq<int>,
    d: Set<u32>,
    ls: Seq<Vec<SymbolId>>,
    p: int,
    y: int,
    l: int,
)
    requires
        w2(t, slots, visited, owners, rank, d, ls, p, l),
        rank.len() == t.len(),
        rank[y] == p,
        forall|y2: int| 0 <= y2 < t.len() && #[trigger] rank[y2] == p ==> y2 == y,
        0 <= y < t.len(),
        0 <= l < t[y].symbols@.len(),
        !slots.contains(t[y].symbols@[l]),
    ensures
        w2(t, slots, visited, owners, rank, d, ls, p, l + 1),
{
    reveal(w2);
    assert forall|y2: int, l2: int, s: SymbolId|
        declares(t, slots, y2, l2, s) && processed(rank, p, l + 1, y2, l2) implies processed(rank, p, l, y2, l2) by {
        if y2 == y && l2 == l {
            assert(s == t[y].symbols@[l]);
        }
    }
}

proof fn lemma_w2_next_scope(
    t: Seq<Scope>,
    slots: Seq<SymbolId>,
    visited: Seq<bool>,
    owners: Seq<Option<usize>>,
    rank: Seq<int>,
    d: Set<u32>,
    ls: Seq<Vec<SymbolId>>,
    p: int,
    y: int,
    l: int,
)
    requires
        w2(t, slots, visited, owners, rank, d, ls, p, l),
        rank.len() == t.len(),
        rank[y] == p,
        forall|y2: int| 0 <= y2 < t.len() && #[trigger] rank[y2] == p ==> y2 == y,
        0 <= y < t.len(),
        l == t[y].symbols@.len(),
        visited.len() == t.len(),
    ensures
        w2(t, slots, visited, owners, rank, d, ls, p + 1, 0),
{
    reveal(w2);
    assert forall|y2: int, l2: int, s: SymbolId|
        declares(t, slots, y2, l2, s) && visited[y2] && processed(rank, p + 1, 0, y2, l2) implies processed(
        rank,
        p,
        l,
        y2,
        l2,
    ) by {}
}

// ---------------------------------------------------------------------------
// The table.

/// The parameters of every callable, each with its frame scope, in order.
pub open spec fn param_pairs(cs: Seq<(ScopeId, Seq<SymbolId>)>) -> Seq<(ScopeId, SymbolId)>
    decreases cs.len(),
{
    if cs.len() == 0 {
        Seq::empty()
    } else {
        param_pairs(cs.drop_last()) + cs.last().1.map_values(|p: SymbolId| (cs.last().0, p))
    }
}

/// The error for a parameter its frame does not hold.
pub open spec fn parameter_message(pr: (ScopeId, SymbolId)) -> Seq<char> {
    "callable parameter SymbolId("@ + decimal(pr.1.0 as nat) + ") is outside frame scope ScopeId("@
        + decimal(pr.0.0 as nat) + ")"@
}

/// Why frame planning fails, in the order the checks run.
pub open spec fn frames_error(project: CheckedProject, slots: Seq<SymbolId>, m: Seq<char>) -> bool {
    let cs = callables(project);
    let t = project.hir.scopes@;
    let n = t.len();
    let fs = frame_set(cs);
    let pp = param_pairs(cs);
    if exists|i: int| 0 <= i < cs.len() && #[trigger] declare_fails(cs, n, i) {
        exists|i: int|
            0 <= i < cs.len() && #[trigger] declare_fails(cs, n, i) && (forall|j: int|
                0 <= j < i ==> !#[trigger] declare_fails(cs, n, j)) && m == declare_message(cs, n, i)
    } else if !parents_in_range(t) {
        m == "missing frame scope parent"@
    } else if exists|sym: SymbolId| #[trigger] declared_twice(t, slots, sym) {
        exists|order: Seq<usize>|
            #[trigger] walks_rooted(t, order) && exists|q: int, l: int|
                #[trigger] first_repeat(t, slots, order, q, l) && m == duplicate_message(
                    walk_symbol(t, order, q, l),
                )
    } else if !is_forest(t) {
        m == "cyclic frame scope ancestry"@
    } else {
        exists|q: int|
            0 <= q < pp.len() && !#[trigger] frame_holds(t, slots, fs, pp[q].0.0 as int, pp[q].1)
                && (forall|r: int|
                0 <= r < q ==> #[trigger] frame_holds(t, slots, fs, pp[r].0.0 as int, pp[r].1))
                && m == parameter_message(pp[q])
    }
}

/// Slot layouts of callable frames, by frame scope.
pub struct FrameLayoutTable {
    layouts: Vec<Option<SlotLayoutTable>>,
}

impl FrameLayoutTable {
    /// The layouts, by scope.
    pub closed spec fn layouts(&self) -> Seq<Option<SlotLayoutTable>> {
        self.layouts@
    }

    /// The layout of the frame whose scope is `scope`.
    pub fn get(&self, scope: ScopeId) -> (r: Option<&SlotLayoutTable>)
        ensures
            scope.0 < self.layouts().len() && self.layouts()[scope.0 as int] is Some ==> r == Some(
                &self.layouts()[scope.0 as int]->0,
            ),
            !(scope.0 < self.layouts().len() && self.layouts()[scope.0 as int] is Some) ==> r is None,
    {
        let i = scope.0 as usize;
        if i < self.layouts.len() {
            match &self.layouts[i] {
                Some(l) => Some(l),
                None => None,
            }
        } else {
            None
        }
    }

    /// Plans the frame of every callable: each local symbol goes to the frame of
    /// the nearest enclosing callable, unless a lambda comes first. A frame lists its
    /// locals in the order of one depth-first walk of the scope forest, which visits the
    /// children of a scope from the last to the first.
    pub fn build(project: &CheckedProject, slots: &SlotLayoutTable) -> (r: Result<Self, String>)
        ensures
            match r {
                Ok(table) => {
                    let cs = callables(*project);
                    let t = project.hir.scopes@;
                    let fs = frame_set(cs);
                    let pp = param_pairs(cs);
                    &&& forall|i: int| 0 <= i < cs.len() ==> !#[trigger] declare_fails(cs, t.len(), i)
                    &&& is_forest(t)
                    &&& forall|sym: SymbolId| !#[trigger] declared_twice(t, slots@, sym)
                    &&& forall|q: int|
                        0 <= q < pp.len() ==> #[trigger] frame_holds(
                            t,
                            slots@,
                            fs,
                            pp[q].0.0 as int,
                            pp[q].1,
                        )
                    &&& table.layouts().len() == t.len()
                    &&& forall|x: int|
                        0 <= x < t.len() ==> (fs.contains(x) <==> (#[trigger] table.layouts()[x]) is Some)
                    &&& forall|x: int|
                        0 <= x < t.len() && (#[trigger] table.layouts()[x]) is Some ==> table.layouts()[x]->0@.no_duplicates()
                    &&& forall|x: int, sym: SymbolId|
                        0 <= x < t.len() && table.layouts()[x] is Some ==> (#[trigger] table.layouts()[x]->0@.contains(sym)
                            <==> frame_holds(t, slots@, fs, x, sym))
                    &&& forall|x1: int, x2: int, sym: SymbolId|
                        0 <= x1 < t.len() && 0 <= x2 < t.len() && table.layouts()[x1] is Some
                            && table.layouts()[x2] is Some && #[trigger] table.layouts()[x1]->0@.contains(sym)
                            && #[trigger] table.layouts()[x2]->0@.contains(sym) ==> x1 == x2
                    &&& exists|order: Seq<usize>|
                        #[trigger] walks_rooted(t, order) && forall|x: int|
                            0 <= x < t.len() && (#[trigger] table.layouts()[x]) is Some ==> table.layouts()[x]->0@
                                == frame_walk(t, slots@, fs, order, x, order.len() as int)
                },
                Err(m) => frames_error(*project, slots@, m@),
            },
    {
        let scopes = &project.hir.scopes;
        let n = scopes.len();
        let ghost t = scopes@;
        let cs = collect_callables(project);
        let ghost cv = callables(*project);
        proof {
            assert forall|k: int| 0 <= k < cv.len() implies (#[trigger] cs@[k]).0 == cv[k].0 && cs@[k].1@ == cv[k].1 by {
                assert(callables_view(cs@)[k] == cv[k]);
            }
        }
        let (is_frame, params) = match declare_frames(project, &cs, n) {
            Ok(d) => d,
            Err(m) => {
                proof {
                    assert(declare_error(cv, t.len(), m@));
                    let i = choose|i: int| #[trigger] first_declare_failure(cv, t.len(), i, m@);
                    lemma_declare_error(*project, slots@, i);
                }
                return Err(m);
            },
        };
        let count = cs.len();
        let ghost fs = frame_set(cv);
        proof {
            assert(forall|i: int| 0 <= i < cv.len() ==> !#[trigger] declare_fails(cv, t.len(), i));
        }
        let children = match child_lists(scopes) {
            Some(c) => c,
            None => {
                proof {
                    lemma_later_error(*project, slots@, "missing frame scope parent"@);
                }
                return Err("missing frame scope parent".to_owned());
            },
        };
        let (visited, owners, order) = frame_owners(scopes, &children, &is_frame, Ghost(fs));
        let mut lists = match assign_symbols(scopes, slots, &visited, &owners, &order) {
            Ok(l) => l,
            Err(m) => {
                proof {
                    let (y1, l1, y2, l2, sym) = choose|y1: int, l1: int, y2: int, l2: int, sym: SymbolId|
                        #![trigger declares(t, slots@, y1, l1, sym), declares(t, slots@, y2, l2, sym)]
                        (y1 != y2 || l1 != l2) && declares(t, slots@, y1, l1, sym) && declares(
                            t,
                            slots@,
                            y2,
                            l2,
                            sym,
                        ) && visited@[y1] && visited@[y2] && m@ == duplicate_message(sym);
                    assert(declared_twice(t, slots@, sym));
                    let ov = order@;
                    assert forall|x: usize| x < n && rooted(t, x as int) implies #[trigger] ov.contains(x) by {
                        assert(visited@[x as int]);
                    }
                    assert forall|q: int| 0 <= q < ov.len() implies #[trigger] ov[q] < t.len() && rooted(t, ov[q] as int) by {
                        assert(visited@[ov[q] as int]);
                    }
                    assert(walks_rooted(t, ov));
                    lemma_later_error(*project, slots@, m@);
                }
                return Err(m);
            },
        };
        proof {
            assert forall|sym: SymbolId| !#[trigger] declared_twice(t, slots@, sym) by {
                if declared_twice(t, slots@, sym) {
                    let (y1, l1, y2, l2) = choose|y1: int, l1: int, y2: int, l2: int|
                        #![trigger declares(t, slots@, y1, l1, sym), declares(t, slots@, y2, l2, sym)]
                        (y1 != y2 || l1 != l2) && declares(t, slots@, y1, l1, sym) && declares(t, slots@, y2, l2, sym)
                            && rooted(t, y1) && rooted(t, y2);
                    assert(visited@[y1] && visited@[y2]);
                }
            }
        }
        for x in 0..n
            invariant
                n == t.len(),
                t == project.hir.scopes@,
                cv == callables(*project),
                forall|i: int| 0 <= i < cv.len() ==> !#[trigger] declare_fails(cv, t.len(), i),
                parents_in_range(t),
                forall|sym: SymbolId| !#[trigger] declared_twice(t, slots@, sym),
                visited@.len() == n,
                forall|k: int| 0 <= k < x ==> #[trigger] visited@[k],
                forall|k: int| 0 <= k < n ==> (#[trigger] visited@[k] <==> rooted(t, k)),
        {
            if !visited[x] {
                proof {
                    assert(!rooted(t, x as int));
                    assert(!is_forest(t));
                    lemma_later_error(*project, slots@, "cyclic frame scope ancestry"@);
                }
                return Err("cyclic frame scope ancestry".to_owned());
            }
        }
        proof {
            assert forall|s: int| 0 <= s < t.len() implies #[trigger] rooted(t, s) by {
                assert(visited@[s]);
            }
            assert(is_forest(t));
        }
        // every layout is a set of distinct slot symbols, so it fits in the slot range
        let nslots = slots.slot_count();
        let ghost lists0 = lists@;
        proof {
            assert forall|x: int, sym: SymbolId|
                0 <= x < n && fs.contains(x) implies (lists0[x]@.contains(sym) <==> frame_holds(
                t,
                slots@,
                fs,
                x,
                sym,
            )) by {
                if lists0[x]@.contains(sym) {
                    let (y, l) = choose|y: int, l: int|
                        #[trigger] declares(t, slots@, y, l, sym) && visited@[y] && owners@[y] == Some(
                            x as usize,
                        );
                    assert(owner_rel(t, fs, y, opt_int(owners@[y])));
                    assert(owned_by(t, fs, y, x));
                }
                if frame_holds(t, slots@, fs, x, sym) {
                    let (y, l) = choose|y: int, l: int|
                        #[trigger] declares(t, slots@, y, l, sym) && owned_by(t, fs, y, x);
                    assert(visited@[y]);
                    assert(owner_rel(t, fs, y, opt_int(owners@[y])));
                    match owners@[y] {
                        Some(a) => {
                            lemma_owner_unique(t, fs, y, a as int, x);
                        },
                        None => {
                            assert(!owned_by(t, fs, y, x));
                        },
                    }
                    assert(lists0[x]@.contains(sym));
                }
            }
        }
        let mut layouts: Vec<Option<SlotLayoutTable>> = Vec::new();
        for x in 0..n
            invariant
                n == t.len(),
                nslots == slots@.len(),
                nslots <= u32::MAX,
                is_frame@.len() == n,
                lists@.len() == n,
                lists0.len() == n,
                layouts@.len() == x,
                forall|f: int| x <= f < n ==> #[trigger] lists@[f] == lists0[f],
                forall|f: int| 0 <= f < n ==> (#[trigger] lists0[f])@.no_duplicates(),
                forall|f: int, sym: SymbolId|
                    0 <= f < n && (#[trigger] lists0[f]@.contains(sym)) ==> slots@.contains(sym),
                forall|k: int| 0 <= k < x ==> ((#[trigger] layouts@[k]) is Some <==> is_frame@[k]),
                forall|k: int|
                    0 <= k < x && (#[trigger] layouts@[k]) is Some ==> layouts@[k]->0@ == lists0[k]@,
        {
            if is_frame[x] {
                let mut taken: Vec<SymbolId> = Vec::new();
                std::mem::swap(&mut taken, &mut lists[x]);
                proof {
                    assert(taken@ == lists0[x as int]@);
                    taken@.unique_seq_to_set();
                    slots@.lemma_cardinality_of_set();
                    assert(taken@.to_set().subset_of(slots@.to_set())) by {
                        assert forall|sym: SymbolId| taken@.to_set().contains(sym) implies slots@.to_set().contains(sym) by {
                            assert(lists0[x as int]@.contains(sym));
                        }
                    }
                    vstd::set_lib::lemma_len_subset(taken@.to_set(), slots@.to_set());
                }
                layouts.push(Some(SlotLayoutTable::from_symbols(taken)));
            } else {
                layouts.push(None);
            }
        }
        proof {
            lemma_param_scopes(cv);
            let pp = param_pairs(cv);
            assert forall|r: int| 0 <= r < pp.len() implies 0 <= (#[trigger] pp[r]).0.0 < n && fs.contains(
                pp[r].0.0 as int,
            ) by {
                let i = choose|i: int| 0 <= i < cv.len() && (#[trigger] cv[i]).0 == (#[trigger] pp[r]).0;
                assert(!declare_fails(cv, n as nat, i));
            }
        }
        let np = params.len();
        for q in 0..np
            invariant
                n == t.len(),
                t == project.hir.scopes@,
                cv == callables(*project),
                fs == frame_set(cv),
                forall|i: int| 0 <= i < cv.len() ==> !#[trigger] declare_fails(cv, t.len(), i),
                is_forest(t),
                forall|sym: SymbolId| !#[trigger] declared_twice(t, slots@, sym),
                np == params@.len(),
                params@ == param_pairs(cv),
                is_frame@.len() == n,
                layouts@.len() == n,
                forall|x: int| 0 <= x < n ==> (#[trigger] is_frame@[x] <==> fs.contains(x)),
                forall|k: int| 0 <= k < n ==> ((#[trigger] layouts@[k]) is Some <==> is_frame@[k]),
                forall|k: int|
                    0 <= k < n && (#[trigger] layouts@[k]) is Some ==> layouts@[k]->0@ == lists0[k]@,
                forall|x: int, sym: SymbolId|
                    0 <= x < n && fs.contains(x) ==> (#[trigger] lists0[x]@.contains(sym) <==> frame_holds(
                        t,
                        slots@,
                        fs,
                        x,
                        sym,
                    )),
                forall|r: int|
                    0 <= r < params@.len() ==> 0 <= (#[trigger] params@[r]).0.0 < n && fs.contains(
                        params@[r].0.0 as int,
                    ),
                forall|r: int|
                    0 <= r < q ==> #[trigger] frame_holds(
                        t,
                        slots@,
                        fs,
                        params@[r].0.0 as int,
                        params@[r].1,
                    ),
        {
            let (scope, sym) = params[q];
            let x = scope.0 as usize;
            match &layouts[x] {
                Some(layout) => {
                    proof {
                        crate::slots::lemma_slot_of_holds(layout@, sym);
                    }
                    let found = layout.resolve(sym);
                    proof {
                        if let Some(slot) = found {
                            assert(layout@[slot.0 as int] == sym);
                            assert(lists0[x as int]@.contains(sym));
                        }
                    }
                    if found.is_none() {
                        proof {
                            assert(!lists0[x as int]@.contains(sym));
                            assert(!frame_holds(t, slots@, fs, x as int, sym));
                            lemma_parameter_error(*project, slots@, q as int);
                        }
                        return Err(
                            with_two_numbers(
                                "callable parameter SymbolId(",
                                sym.0,
                                ") is outside frame scope ScopeId(",
                                scope.0,
                                ")",
                            ),
                        );
                    }
                },
                None => {
                    proof {
                        assert(false);
                    }
                },
            }
        }
        proof {
            let ov = order@;
            assert forall|k: int| 0 <= k < ov.len() implies owner_rel(t, fs, #[trigger] ov[k] as int, opt_int(owners@[ov[k] as int])) by {
                assert(visited@[ov[k] as int]);
            }
            assert forall|x: int| 0 <= x < n && (#[trigger] layouts@[x]) is Some implies layouts@[x]->0@
                == frame_walk(t, slots@, fs, ov, x, ov.len() as int) by {
                lemma_owners_walk(t, slots@, fs, owners@, ov, x, ov.len() as int);
            }
            assert forall|x: usize| x < n && rooted(t, x as int) implies #[trigger] ov.contains(x) by {
                assert(visited@[x as int]);
            }
            assert forall|q: int| 0 <= q < ov.len() implies #[trigger] ov[q] < t.len() && rooted(t, ov[q] as int) by {
                assert(visited@[ov[q] as int]);
            }
            assert(walks_rooted(t, ov));
            assert forall|x1: int, x2: int, sym: SymbolId|
                0 <= x1 < n && 0 <= x2 < n && layouts@[x1] is Some && layouts@[x2] is Some
                    && #[trigger] layouts@[x1]->0@.contains(sym) && #[trigger] layouts@[x2]->0@.contains(sym)
                    implies x1 == x2 by {
                assert(frame_holds(t, slots@, fs, x1, sym));
                assert(frame_holds(t, slots@, fs, x2, sym));
                crate::laws::law_frames_disjoint(t, slots@, fs, x1, x2, sym);
            }
        }
        Ok(FrameLayoutTable { layouts })
    }
}

/// Every parameter's scope is the scope of some callable.
proof fn lemma_param_scopes(cs: Seq<(ScopeId, Seq<SymbolId>)>)
    ensures
        forall|r: int|
            0 <= r < param_pairs(cs).len() ==> exists|i: int|
                0 <= i < cs.len() && (#[trigger] cs[i]).0 == (#[trigger] param_pairs(cs)[r]).0,
    decreases cs.len(),
{
    if cs.len() > 0 {
        let rest = cs.drop_last();
        lemma_param_scopes(rest);
        let pp = param_pairs(cs);
        let base = param_pairs(rest);
        assert forall|r: int| 0 <= r < pp.len() implies exists|i: int|
            0 <= i < cs.len() && (#[trigger] cs[i]).0 == (#[trigger] pp[r]).0 by {
            if r < base.len() {
                let i = choose|i: int| 0 <= i < rest.len() && (#[trigger] rest[i]).0 == (#[trigger] base[r]).0;
                assert(cs[i] == rest[i]);
                assert(pp[r] == base[r]);
            } else {
                assert(pp[r].0 == cs.last().0);
                assert(cs[cs.len() - 1] == cs.last());
            }
        }
    }
}

/// A copy of a list of symbols.
fn copy_symbols(v: &Vec<SymbolId>) -> (r: Vec<SymbolId>)
    ensures
        r@ == v@,
{
    let mut r: Vec<SymbolId> = Vec::new();
    for i in 0..v.len()
        invariant
            i <= v@.len(),
            r@ == v@.take(i as int),
    {
        r.push(v[i]);
        proof {
            assert(v@.take(i + 1) == v@.take(i as int).push(v@[i as int]));
        }
    }
    proof {
        assert(v@.take(v@.len() as int) == v@);
    }
    r
}

spec fn callables_view(cs: Seq<(ScopeId, Vec<SymbolId>)>) -> Seq<(ScopeId, Seq<SymbolId>)> {
    cs.map_values(|c: (ScopeId, Vec<SymbolId>)| (c.0, c.1@))
}

/// Every callable of the program, with a copy of its parameters.
fn collect_callables(project: &CheckedProject) -> (cs: Vec<(ScopeId, Vec<SymbolId>)>)
    ensures
        callables_view(cs@) == callables(*project),
{
    let mut cs: Vec<(ScopeId, Vec<SymbolId>)> = Vec::new();
    let items = &project.hir.items;
    for i in 0..items.len()
        invariant
            i <= items@.len(),
            callables_view(cs@) == items_callables(items@.take(i as int)),
    {
        proof {
            assert(items@.take(i + 1).drop_last() == items@.take(i as int));
            assert(items@.take(i + 1).last() == items@[i as int]);
        }
        let ghost before = callables_view(cs@);
        match &items[i] {
            HirItem::Flow(f) | HirItem::Tool(f) | HirItem::Agent(f) => {
                cs.push((f.scope, copy_symbols(&f.params)));
                proof {
                    assert(callables_view(cs@) == before + seq![callable(f.scope, f.params@)]);
                }
            },
            HirItem::Impl(members) => {
                for j in 0..members.len()
                    invariant
                        j <= members@.len(),
                        callables_view(cs@) == before + impl_callables(members@.take(j as int)),
                {
                    proof {
                        assert(members@.take(j + 1).drop_last() == members@.take(j as int));
                        assert(members@.take(j + 1).last() == members@[j as int]);
                    }
                    match &members[j] {
                        HirImplItem::Flow(f) => {
                            cs.push((f.scope, copy_symbols(&f.params)));
                            proof {
                                assert(callables_view(cs@) == before + impl_callables(
                                    members@.take(j as int),
                                ) + seq![callable(f.scope, f.params@)]);
                            }
                        },
                        HirImplItem::Other => {
                            proof {
                                assert(impl_callables(members@.take(j + 1)) == impl_callables(
                                    members@.take(j as int),
                                ) + Seq::<(ScopeId, Seq<SymbolId>)>::empty());
                            }
                        },
                    }
                }
                proof {
                    assert(members@.take(members@.len() as int) == members@);
                }
            },
            _ => {
                proof {
                    assert(item_callables(items@[i as int]) == Seq::<(ScopeId, Seq<SymbolId>)>::empty());
                }
            },
        }
    }
    proof {
        assert(items@.take(items@.len() as int) == items@);
    }
    let ghost upto_items = callables_view(cs@);
    let arms = &project.hir.handler_arms;
    for k in 0..arms.len()
        invariant
            k <= arms@.len(),
            upto_items == items_callables(project.hir.items@),
            callables_view(cs@) == upto_items + handler_callables(arms@.take(k as int)),
    {
        let ghost before = cs@;
        cs.push((arms[k].scope, Vec::new()));
        proof {
            assert(callables_view(cs@) =~= callables_view(before).push(
                callable(arms@[k as int].scope, Seq::<SymbolId>::empty()),
            ));
            assert(arms@.take(k + 1) == arms@.take(k as int).push(arms@[k as int]));
            assert(handler_callables(arms@.take(k + 1)) =~= handler_callables(arms@.take(k as int)).push(
                callable(arms@[k as int].scope, Seq::<SymbolId>::empty()),
            ));
            assert(upto_items + handler_callables(arms@.take(k + 1)) =~= (upto_items + handler_callables(
                arms@.take(k as int),
            )).push(callable(arms@[k as int].scope, Seq::<SymbolId>::empty())));
        }
    }
    proof {
        assert(arms@.take(arms@.len() as int) == arms@);
    }
    cs
}

proof fn lemma_declare_error(project: CheckedProject, slots: Seq<SymbolId>, i: int)
    requires
        0 <= i < callables(project).len(),
        declare_fails(callables(project), project.hir.scopes@.len(), i),
        forall|j: int| 0 <= j < i ==> !#[trigger] declare_fails(callables(project), project.hir.scopes@.len(), j),
    ensures
        frames_error(project, slots, declare_message(callables(project), project.hir.scopes@.len(), i)),
{
}

proof fn lemma_later_error(project: CheckedProject, slots: Seq<SymbolId>, m: Seq<char>)
    requires
        forall|i: int|
            0 <= i < callables(project).len() ==> !#[trigger] declare_fails(
                callables(project),
                project.hir.scopes@.len(),
                i,
            ),
        if !parents_in_range(project.hir.scopes@) {
            m == "missing frame scope parent"@
        } else if exists|sym: SymbolId| #[trigger] declared_twice(project.hir.scopes@, slots, sym) {
            exists|order: Seq<usize>|
                #[trigger] walks_rooted(project.hir.scopes@, order) && exists|q: int, l: int|
                    #[trigger] first_repeat(project.hir.scopes@, slots, order, q, l) && m
                        == duplicate_message(walk_symbol(project.hir.scopes@, order, q, l))
        } else {
            !is_forest(project.hir.scopes@) && m == "cyclic frame scope ancestry"@
        },
    ensures
        frames_error(project, slots, m),
{
}

proof fn lemma_parameter_error(project: CheckedProject, slots: Seq<SymbolId>, q: int)
    requires
        forall|i: int|
            0 <= i < callables(project).len() ==> !#[trigger] declare_fails(
                callables(project),
                project.hir.scopes@.len(),
                i,
            ),
        is_forest(project.hir.scopes@),
        forall|sym: SymbolId| !#[trigger] declared_twice(project.hir.scopes@, slots, sym),
        0 <= q < param_pairs(callables(project)).len(),
        !frame_holds(
            project.hir.scopes@,
            slots,
            frame_set(callables(project)),
            param_pairs(callables(project))[q].0.0 as int,
            param_pairs(callables(project))[q].1,
        ),
        forall|r: int|
            0 <= r < q ==> #[trigger] frame_holds(
                project.hir.scopes@,
                slots,
                frame_set(callables(project)),
                param_pairs(callables(project))[r].0.0 as int,
                param_pairs(callables(project))[r].1,
            ),
    ensures
        frames_error(project, slots, parameter_message(param_pairs(callables(project))[q])),
{
}

/// Marks every callable's scope as a frame and lists the parameters with their
/// frames, failing on a missing or shared frame scope.
fn declare_frames(project: &CheckedProject, cs: &Vec<(ScopeId, Vec<SymbolId>)>, n: usize) -> (r: Result<
    (Vec<bool>, Vec<(ScopeId, SymbolId)>),
    String,
>)
    requires
    n == project.hir.scopes@.len(),
    callables_view(cs@) == callables(*project),
    ensures
    match r {
        Ok((is_frame, params)) => {
            let cv = callables(*project);
            &&& forall|i: int| 0 <= i < cv.len() ==> !#[trigger] declare_fails(cv, project.hir.scopes@.len(), i)
            &&& is_frame@.len() == n
            &&& forall|x: int| 0 <= x < n ==> (#[trigger] is_frame@[x] <==> frame_set(cv).contains(x))
            &&& params@ == param_pairs(cv)
        },
        Err(m) => declare_error(callables(*project), project.hir.scopes@.len(), m@),
    },
{
    let ghost t = project.hir.scopes@;
    let ghost cv = callables(*project);
    proof {
    assert forall|k: int| 0 <= k < cv.len() implies (#[trigger] cs@[k]).0 == cv[k].0 && cs@[k].1@ == cv[k].1 by {
        assert(callables_view(cs@)[k] == cv[k]);
    }
    }
    let mut is_frame: Vec<bool> = Vec::new();
    for i in 0..n
        invariant
            is_frame@.len() == i,
            forall|k: int| 0 <= k < i ==> !(#[trigger] is_frame@[k]),
    {
        is_frame.push(false);
    }
    let mut params: Vec<(ScopeId, SymbolId)> = Vec::new();
    let count = cs.len();
    for i in 0..count
        invariant
            n == t.len(),
            t == project.hir.scopes@,
            cv == callables(*project),
            count == cv.len(),
            cs@.len() == cv.len(),
            forall|k: int| 0 <= k < cv.len() ==> (#[trigger] cs@[k]).0 == cv[k].0 && cs@[k].1@ == cv[k].1,
            is_frame@.len() == n,
            forall|x: int|
                0 <= x < n ==> (#[trigger] is_frame@[x] <==> exists|k: int|
                    0 <= k < i && (#[trigger] cv[k]).0.0 == x),
            forall|k: int| 0 <= k < i ==> !#[trigger] declare_fails(cv, n as nat, k),
            params@ == param_pairs(cv.take(i as int)),
    {
        let scope = cs[i].0;
        let x = scope.0 as usize;
        if x >= n {
            let m = with_number("callable is missing scope ScopeId(", scope.0, ")");
            proof {
                assert(declare_fails(cv, n as nat, i as int));
                assert(first_declare_failure(cv, t.len(), i as int, m@));
                assert(declare_error(cv, t.len(), m@));
            }
            return Err(m);
        }
        if is_frame[x] {
            proof {
                let k = choose|k: int| 0 <= k < i && (#[trigger] cv[k]).0.0 == x;
                assert(cv[k].0 == cv[i as int].0);
                assert(declare_fails(cv, n as nat, i as int));
            }
            let m = with_number("multiple callables share frame scope ScopeId(", scope.0, ")");
            proof {
                assert(first_declare_failure(cv, t.len(), i as int, m@));
                assert(declare_error(cv, t.len(), m@));
            }
            return Err(m);
        }
        proof {
            assert(!declare_fails(cv, n as nat, i as int)) by {
                if exists|j: int| 0 <= j < i && (#[trigger] cv[j]).0 == cv[i as int].0 {
                    let j = choose|j: int| 0 <= j < i && (#[trigger] cv[j]).0 == cv[i as int].0;
                    assert(is_frame@[x as int]);
                }
            }
        }
        is_frame.set(x, true);
        let ps = &cs[i].1;
        let ghost before = params@;
        for k in 0..ps.len()
            invariant
                params@ == before + ps@.take(k as int).map_values(|p: SymbolId| (scope, p)),
                k <= ps@.len(),
        {
            params.push((scope, ps[k]));
            proof {
                assert(ps@.take(k + 1) == ps@.take(k as int).push(ps@[k as int]));
                assert(ps@.take(k + 1).map_values(|p: SymbolId| (scope, p)) == ps@.take(k as int).map_values(
                    |p: SymbolId| (scope, p),
                ).push((scope, ps@[k as int])));
            }
        }
        proof {
            assert(ps@.take(ps@.len() as int) == ps@);
            assert(cv.take(i + 1).drop_last() == cv.take(i as int));
            assert(cv.take(i + 1).last() == cv[i as int]);
        }
    }
    proof {
    assert(cv.take(count as int) == cv);
    assert forall|x: int| 0 <= x < n implies (#[trigger] is_frame@[x] <==> frame_set(cv).contains(x)) by {}
    }
    Ok((is_frame, params))
}

} // verus!
