//! Closure ancestry of lexical scopes, answered from depth-first intervals so that
//! a containment query does not walk parent chains.
use vstd::prelude::*;
use vstd::set_lib::{lemma_int_range, lemma_len_subset, set_int_range};

use crate::ids::{HirExprId, ScopeId};
use crate::scope_tree::{
    acyclic, ancestor_at, is_ancestor, is_forest, lambda_of, lemma_ancestor_in_range,
    lemma_ancestor_of_parent, lemma_child_toward, numbered, parent_index, parents_in_range, rooted,
    Scope, ScopeOwner, ScopeTree,
};
use crate::text::{decimal, with_number};

verus! {

/// A scope owned by a lambda, with the lambda expression.
#[derive(Clone, Copy, Debug, PartialEq, Eq, Structural)]
pub struct ClosureScope {
    pub scope: ScopeId,
    pub expr: HirExprId,
}

#[derive(Clone, Copy)]
struct Entry {
    start: usize,
    end: usize,
    nearest: Option<ClosureScope>,
    outer: Option<ClosureScope>,
}

/// The lambda of the `j`-th scope on the parent chain of `s` is absent
/// (or the chain is shorter than `j`).
pub open spec fn no_lambda_at(scopes: Seq<Scope>, s: int, j: nat) -> bool {
    ancestor_at(scopes, s, j) matches Some(x) ==> lambda_of(scopes, x) is None
}

/// `r` is the closure scope nearest to `s` on its parent chain, `s` included.
pub open spec fn is_nearest_closure(scopes: Seq<Scope>, s: int, r: Option<ClosureScope>) -> bool {
    match r {
        Some(c) => exists|k: nat|
            {
                &&& #[trigger] ancestor_at(scopes, s, k) == Some(c.scope.0 as int)
                &&& lambda_of(scopes, c.scope.0 as int) == Some(c.expr)
                &&& forall|j: nat| j < k ==> #[trigger] no_lambda_at(scopes, s, j)
            },
        None => forall|k: nat| #[trigger] no_lambda_at(scopes, s, k),
    }
}

/// `r` is the closure scope nearest to the parent of `s`: the closure that
/// encloses the one at `s`.
pub open spec fn is_outer_closure(scopes: Seq<Scope>, s: int, r: Option<ClosureScope>) -> bool {
    match parent_index(scopes, s) {
        Some(p) => is_nearest_closure(scopes, p, r),
        None => r is None,
    }
}

/// Closure ancestry of every scope of one scope graph.
pub struct ClosureScopes {
    entries: Vec<Entry>,
    scopes: Ghost<Seq<Scope>>,
}

spec fn inside(entries: Seq<Entry>, a: int, s: int) -> bool {
    entries[a].start <= entries[s].start && entries[s].start < entries[a].end
}

spec fn entries_describe(scopes: Seq<Scope>, entries: Seq<Entry>) -> bool {
    &&& entries.len() == scopes.len()
    &&& forall|a: int, s: int|
        0 <= a < scopes.len() && 0 <= s < scopes.len() ==> (#[trigger] inside(entries, a, s)
            <==> #[trigger] is_ancestor(scopes, a, s))
    &&& forall|s: int|
        0 <= s < scopes.len() ==> is_nearest_closure(scopes, s, (#[trigger] entries[s]).nearest)
            && is_outer_closure(scopes, s, entries[s].outer)
}

impl ClosureScopes {
    #[verifier::type_invariant]
    spec fn inv(self) -> bool {
        &&& is_forest(self.scopes@)
        &&& numbered(self.scopes@)
        &&& entries_describe(self.scopes@, self.entries@)
    }

    /// The scope graph these answers are about.
    pub closed spec fn scopes(&self) -> Seq<Scope> {
        self.scopes@
    }
}

// ---------------------------------------------------------------------------
// Facts about nearest closures.

proof fn lemma_nearest_here(scopes: Seq<Scope>, s: int, e: HirExprId)
    requires
        0 <= s <= u32::MAX,
        lambda_of(scopes, s) == Some(e),
    ensures
        is_nearest_closure(scopes, s, Some(ClosureScope { scope: ScopeId(s as u32), expr: e })),
{
    assert(ancestor_at(scopes, s, 0) == Some(s));
}

proof fn lemma_nearest_from_parent(scopes: Seq<Scope>, s: int, p: int, r: Option<ClosureScope>)
    requires
        parent_index(scopes, s) == Some(p),
        lambda_of(scopes, s) is None,
        is_nearest_closure(scopes, p, r),
    ensures
        is_nearest_closure(scopes, s, r),
{
    assert(no_lambda_at(scopes, s, 0));
    match r {
        Some(c) => {
            let k = choose|k: nat|
                {
                    &&& #[trigger] ancestor_at(scopes, p, k) == Some(c.scope.0 as int)
                    &&& lambda_of(scopes, c.scope.0 as int) == Some(c.expr)
                    &&& forall|j: nat| j < k ==> #[trigger] no_lambda_at(scopes, p, j)
                };
            assert(ancestor_at(scopes, s, k + 1) == ancestor_at(scopes, p, k));
            assert forall|j: nat| j < k + 1 implies #[trigger] no_lambda_at(scopes, s, j) by {
                if j > 0 {
                    assert(ancestor_at(scopes, s, j) == ancestor_at(scopes, p, (j - 1) as nat));
                    assert(no_lambda_at(scopes, p, (j - 1) as nat));
                }
            }
        },
        None => {
            assert forall|k: nat| #[trigger] no_lambda_at(scopes, s, k) by {
                if k > 0 {
                    assert(ancestor_at(scopes, s, k) == ancestor_at(scopes, p, (k - 1) as nat));
                    assert(no_lambda_at(scopes, p, (k - 1) as nat));
                }
            }
        },
    }
}

proof fn lemma_nearest_at_root(scopes: Seq<Scope>, s: int)
    requires
        parent_index(scopes, s) is None,
        lambda_of(scopes, s) is None,
    ensures
        is_nearest_closure(scopes, s, None),
{
    assert forall|k: nat| #[trigger] no_lambda_at(scopes, s, k) by {
        if k > 0 {
            assert(ancestor_at(scopes, s, k) is None);
        }
    }
}

// ---------------------------------------------------------------------------
// The traversal state.

spec fn seen(e: Seq<Option<Entry>>, x: int) -> bool {
    e[x] is Some
}

spec fn st(e: Seq<Option<Entry>>, x: int) -> int {
    e[x]->0.start as int
}

spec fn en(e: Seq<Option<Entry>>, x: int) -> int {
    e[x]->0.end as int
}

/// Entered and not yet left: its end still equals its start.
spec fn open(e: Seq<Option<Entry>>, x: int) -> bool {
    seen(e, x) && en(e, x) == st(e, x)
}

/// Everything entered while `a` is open lies in its subtree.
spec fn upper(e: Seq<Option<Entry>>, a: int, clock: int) -> int {
    if open(e, a) {
        clock
    } else {
        en(e, a)
    }
}

#[verifier::opaque]
spec fn entries_sound(t: Seq<Scope>, e: Seq<Option<Entry>>, clock: int) -> bool {
    &&& e.len() == t.len()
    &&& forall|x: int|
        0 <= x < t.len() && #[trigger] seen(e, x) ==> st(e, x) < clock && st(e, x) <= en(e, x)
            <= clock
    &&& forall|x: int, y: int|
        0 <= x < t.len() && 0 <= y < t.len() && x != y && #[trigger] seen(e, x) && #[trigger] seen(
            e,
            y,
        ) ==> st(e, x) != st(e, y)
    &&& forall|x: int|
        0 <= x < t.len() && #[trigger] seen(e, x) && parent_index(t, x) is Some ==> {
            let p = parent_index(t, x)->0;
            &&& seen(e, p)
            &&& st(e, p) < st(e, x)
            &&& !open(e, p) ==> !open(e, x) && en(e, x) <= en(e, p)
        }
    &&& forall|a: int, s: int|
        0 <= a < t.len() && 0 <= s < t.len() && #[trigger] seen(e, a) && #[trigger] seen(e, s)
            && st(e, a) <= st(e, s) && st(e, s) < upper(e, a, clock) ==> is_ancestor(t, a, s)
    &&& forall|x: int|
        0 <= x < t.len() && #[trigger] seen(e, x) ==> is_nearest_closure(t, x, e[x]->0.nearest)
            && is_outer_closure(t, x, e[x]->0.outer)
}

spec fn seen_set(e: Seq<Option<Entry>>) -> Set<int> {
    Set::new(|x: int| 0 <= x < e.len() && seen(e, x))
}

spec fn children_of(t: Seq<Scope>, children: Seq<Vec<usize>>, upto: int) -> bool {
    &&& children.len() == t.len()
    &&& forall|p: int, m: int|
        0 <= p < t.len() && 0 <= m < children[p]@.len() ==> {
            &&& (#[trigger] children[p]@[m]) < upto
            &&& parent_index(t, children[p]@[m] as int) == Some(p)
        }
    &&& forall|p: int, m1: int, m2: int|
        0 <= p < t.len() && 0 <= m1 < m2 < children[p]@.len() ==> #[trigger] children[p]@[m1]
            < #[trigger] children[p]@[m2]
    &&& forall|j: int|
        0 <= j < upto && #[trigger] parent_index(t, j) is Some ==> children[parent_index(
            t,
            j,
        )->0]@.contains(j as usize)
}

#[verifier::opaque]
spec fn stack_shape(
    t: Seq<Scope>,
    children: Seq<Vec<usize>>,
    e: Seq<Option<Entry>>,
    stack: Seq<(usize, usize)>,
    root: int,
) -> bool {
    &&& stack.len() > 0 ==> stack[0].0 == root
    &&& forall|i: int|
        0 <= i < stack.len() ==> {
            &&& (#[trigger] stack[i]).0 < t.len()
            &&& open(e, stack[i].0 as int)
            &&& stack[i].1 <= children[stack[i].0 as int]@.len()
        }
    &&& forall|i: int|
        0 < i < stack.len() ==> {
            &&& parent_index(t, (#[trigger] stack[i]).0 as int) == Some(stack[i - 1].0 as int)
            &&& stack[i - 1].1 >= 1
            &&& children[stack[i - 1].0 as int]@[stack[i - 1].1 - 1] == stack[i].0
        }
    &&& forall|i: int, j: int|
        0 <= i < j < stack.len() ==> st(e, (#[trigger] stack[i]).0 as int) < st(
            e,
            (#[trigger] stack[j]).0 as int,
        )
    &&& forall|i: int, j: int|
        0 <= i <= j < stack.len() ==> is_ancestor(
            t,
            (#[trigger] stack[i]).0 as int,
            (#[trigger] stack[j]).0 as int,
        )
    &&& forall|i: int, m: int|
        0 <= i < stack.len() && stack[i].1 <= m < children[(#[trigger] stack[i]).0 as int]@.len()
            ==> !seen(e, #[trigger] children[stack[i].0 as int]@[m] as int)
    &&& forall|i: int, m: int|
        0 <= i < stack.len() && 0 <= m < (#[trigger] stack[i]).1 ==> seen(
            e,
            #[trigger] children[stack[i].0 as int]@[m] as int,
        )
    &&& forall|x: int|
        0 <= x < t.len() && #[trigger] open(e, x) ==> exists|i: int|
            0 <= i < stack.len() && (#[trigger] stack[i]).0 == x
    &&& forall|u: int, a: int|
        0 <= u < t.len() && 0 <= a < t.len() && !seen(e, u) && #[trigger] seen(e, a)
            && #[trigger] is_ancestor(t, a, u) ==> open(e, a)
}

/// A node is `inside` each of its ancestors.
proof fn lemma_ancestor_inside(t: Seq<Scope>, e: Seq<Entry>, a: int, s: int, k: nat)
    requires
        parents_in_range(t),
        e.len() == t.len(),
        0 <= s < t.len(),
        ancestor_at(t, s, k) == Some(a),
        forall|x: int|
            0 <= x < t.len() && parent_index(t, x) is Some ==> {
                let p = parent_index(t, x)->0;
                #[trigger] e[x].start > e[p].start && e[x].end <= e[p].end
            },
    ensures
        e[a].start <= e[s].start,
        e[s].end <= e[a].end,
    decreases k,
{
    if k > 0 {
        let p = parent_index(t, s)->0;
        assert(e[s].start > e[p].start);
        lemma_ancestor_inside(t, e, a, p, (k - 1) as nat);
    }
}

impl ClosureScopes {
    /// Indexes the closure ancestry of every scope. Fails when a parent link names
    /// a missing scope, or when parent links run in a cycle.
    pub fn build(scopes: &ScopeTree) -> (r: Result<Self, String>)
        ensures
            match r {
                Ok(index) => is_forest(scopes@) && index.scopes() == scopes@,
                Err(e) => !is_forest(scopes@) && e@ == if !parents_in_range(scopes@) {
                    "missing closure scope parent"@
                } else {
                    "cyclic closure scope ancestry"@
                },
            },
    {
        let count = scopes.len();
        let ghost t = scopes@;
        let mut children: Vec<Vec<usize>> = Vec::new();
        for i in 0..count
            invariant
                children@.len() == i,
                forall|j: int| 0 <= j < i ==> (#[trigger] children@[j])@.len() == 0,
        {
            children.push(Vec::new());
        }
        for i in 0..count
            invariant
                count == t.len(),
                t == scopes@,
                numbered(t),
                children_of(t, children@, i as int),
                forall|j: int|
                    0 <= j < i ==> match #[trigger] parent_index(t, j) {
                        Some(p) => 0 <= p < t.len(),
                        None => true,
                    },
        {
            match scopes.at(i).parent {
                Some(p) => {
                    let p = p.index();
                    if p >= count {
                        proof {
                            assert(parent_index(t, i as int) == Some(p as int));
                        }
                        return Err("missing closure scope parent".to_owned());
                    }
                    proof {
                        assert(parent_index(t, i as int) == Some(p as int));
                    }
                    let ghost before = children@;
                    children[p].push(i);
                    proof {
                        assert forall|j: int|
                            0 <= j < i + 1 && #[trigger] parent_index(t, j)
                                is Some implies children@[parent_index(
                            t,
                            j,
                        )->0]@.contains(j as usize) by {
                            if j < i {
                                let q = parent_index(t, j)->0;
                                let m = choose|m: int|
                                    0 <= m < before[q]@.len() && before[q]@[m] == j as usize;
                                assert(children@[q]@[m] == j as usize);
                            } else {
                                assert(children@[p as int]@[before[p as int]@.len() as int] == i);
                            }
                        }
                    }
                },
                None => {
                    proof {
                        assert(parent_index(t, i as int) is None);
                    }
                },
            }
        }
        assert(parents_in_range(t));
        let mut entries: Vec<Option<Entry>> = Vec::new();
        for i in 0..count
            invariant
                entries@.len() == i,
                forall|j: int| 0 <= j < i ==> (#[trigger] entries@[j]) is None,
        {
            entries.push(None);
        }
        proof {
            reveal(entries_sound);
            lemma_int_range(0, count as int);
            assert(seen_set(entries@) =~= Set::<int>::empty());
        }
        let mut clock: usize = 0;
        let mut stack: Vec<(usize, usize)> = Vec::new();
        for r in 0..count
            invariant
                count == t.len(),
                t == scopes@,
                numbered(t),
                parents_in_range(t),
                children_of(t, children@, count as int),
                entries_sound(t, entries@, clock as int),
                seen_set(entries@).finite(),
                seen_set(entries@).len() == clock,
                clock <= count,
                stack@.len() == 0,
                forall|x: int| 0 <= x < t.len() ==> !open(entries@, x),
                forall|x: int|
                    0 <= x < r && parent_index(t, x) is None ==> #[trigger] seen(entries@, x),
                forall|x: int|
                    0 <= x < t.len() && #[trigger] seen(entries@, x) && parent_index(t, x) is None
                        ==> x < r,
                forall|u: int, a: int|
                    0 <= u < t.len() && 0 <= a < t.len() && !seen(entries@, u) && #[trigger] seen(
                        entries@,
                        a,
                    ) ==> !#[trigger] is_ancestor(t, a, u),
        {
            let ghost e_before = entries@;
            if scopes.at(r).parent.is_none() {
                self::enter_root(scopes, &children, &mut entries, &mut clock, &mut stack, r);
                let ghost e_mid = entries@;
                assert(seen(e_mid, r as int));
                self::walk(scopes, &children, &mut entries, &mut clock, &mut stack, r);
                assert(seen(entries@, r as int));
                assert forall|x: int|
                    0 <= x < r + 1 && parent_index(t, x) is None implies #[trigger] seen(
                    entries@,
                    x,
                ) by {
                    if x < r {
                        assert(seen(e_before, x));
                        assert(seen(e_mid, x));
                    }
                }
            }
        }
        let mut result: Vec<Entry> = Vec::new();
        proof {
            reveal(entries_sound);
        }
        for i in 0..count
            invariant
                count == t.len(),
                t == scopes@,
                numbered(t),
                parents_in_range(t),
                entries_sound(t, entries@, clock as int),
                forall|x: int| 0 <= x < t.len() ==> !open(entries@, x),
                forall|x: int|
                    0 <= x < count && parent_index(t, x) is None ==> #[trigger] seen(entries@, x),
                forall|u: int, a: int|
                    0 <= u < t.len() && 0 <= a < t.len() && !seen(entries@, u) && #[trigger] seen(
                        entries@,
                        a,
                    ) ==> !#[trigger] is_ancestor(t, a, u),
                forall|j: int| 0 <= j < i ==> #[trigger] seen(entries@, j),
                entries@.len() == count,
                result@.len() == i,
                forall|j: int|
                    0 <= j < i ==> entries@[j] == Some(#[trigger] result@[j]),
        {
            match entries[i] {
                Some(entry) => result.push(entry),
                None => {
                    proof {
                        if acyclic(t) {
                            assert(rooted(t, i as int));
                            let k = choose|k: nat|
                                #[trigger] ancestor_at(t, i as int, k) matches Some(r)
                                    && parent_index(t, r) is None;
                            lemma_ancestor_in_range(t, i as int, k);
                            let root = ancestor_at(t, i as int, k)->0;
                            assert(seen(entries@, root));
                            assert(is_ancestor(t, root, i as int));
                            assert(false);
                        }
                    }
                    return Err("cyclic closure scope ancestry".to_owned());
                },
            }
        }
        proof {
            reveal(entries_sound);
            let e = entries@;
            let f = result@;
            assert forall|s: int| 0 <= s < t.len() implies #[trigger] rooted(t, s) by {
                if !rooted(t, s) {
                    // every seen node is rooted: walk up by start times
                    lemma_seen_rooted(t, e, clock as int, s);
                }
            }
            assert forall|x: int|
                0 <= x < t.len() && parent_index(t, x) is Some implies {
                let p = parent_index(t, x)->0;
                #[trigger] f[x].start > f[p].start && f[x].end <= f[p].end
            } by {
                assert(seen(e, x));
            }
            assert forall|a: int, s: int|
                0 <= a < t.len() && 0 <= s < t.len() implies (#[trigger] inside(f, a, s)
                <==> #[trigger] is_ancestor(t, a, s)) by {
                assert(seen(e, a) && seen(e, s));
                if is_ancestor(t, a, s) {
                    let k = choose|k: nat| #[trigger] ancestor_at(t, s, k) == Some(a);
                    lemma_ancestor_inside(t, f, a, s, k);
                }
            }
            assert forall|s: int| 0 <= s < t.len() implies is_nearest_closure(
                t,
                s,
                (#[trigger] f[s]).nearest,
            ) && is_outer_closure(t, s, f[s].outer) by {
                assert(seen(e, s));
            }
        }
        Ok(ClosureScopes { entries: result, scopes: Ghost(t) })
    }
}

/// Every entered scope is rooted: its parent was entered earlier.
proof fn lemma_seen_rooted(t: Seq<Scope>, e: Seq<Option<Entry>>, clock: int, s: int)
    requires
        entries_sound(t, e, clock),
        0 <= s < t.len(),
        seen(e, s),
        parents_in_range(t),
    ensures
        rooted(t, s),
    decreases st(e, s) + 1,
{
    reveal(entries_sound);
    match parent_index(t, s) {
        Some(p) => {
            assert(seen(e, s));
            assert(st(e, p) < st(e, s));
            if st(e, p) >= 0 {
                lemma_seen_rooted(t, e, clock, p);
            }
            let k = choose|k: nat|
                #[trigger] ancestor_at(t, p, k) matches Some(r) && parent_index(t, r) is None;
            assert(ancestor_at(t, s, k + 1) == ancestor_at(t, p, k));
        },
        None => {
            assert(ancestor_at(t, s, 0) == Some(s));
        },
    }
}

fn lambda_closure(scopes: &ScopeTree, i: usize) -> (c: Option<ClosureScope>)
    requires
        i < scopes@.len(),
        numbered(scopes@),
    ensures
        match lambda_of(scopes@, i as int) {
            Some(e) => c == Some(ClosureScope { scope: ScopeId(i as u32), expr: e }),
            None => c is None,
        },
{
    match scopes.at(i).owner {
        ScopeOwner::Lambda(expr) => Some(ClosureScope { scope: ScopeId(i as u32), expr }),
        _ => None,
    }
}

fn enter_root(
    scopes: &ScopeTree,
    children: &Vec<Vec<usize>>,
    entries: &mut Vec<Option<Entry>>,
    clock: &mut usize,
    stack: &mut Vec<(usize, usize)>,
    r: usize,
)
    requires
        r < scopes@.len(),
        numbered(scopes@),
        parents_in_range(scopes@),
        parent_index(scopes@, r as int) is None,
        children_of(scopes@, children@, scopes@.len() as int),
        entries_sound(scopes@, old(entries)@, *old(clock) as int),
        seen_set(old(entries)@).finite(),
        seen_set(old(entries)@).len() == *old(clock),
        *old(clock) <= scopes@.len(),
        old(stack)@.len() == 0,
        forall|x: int| 0 <= x < scopes@.len() ==> !open(old(entries)@, x),
        forall|x: int|
            0 <= x < scopes@.len() && #[trigger] seen(old(entries)@, x) && parent_index(scopes@, x)
                is None ==> x < r,
        forall|u: int, a: int|
            0 <= u < scopes@.len() && 0 <= a < scopes@.len() && !seen(old(entries)@, u)
                && #[trigger] seen(old(entries)@, a) ==> !#[trigger] is_ancestor(scopes@, a, u),
    ensures
        entries_sound(scopes@, final(entries)@, *final(clock) as int),
        seen_set(final(entries)@).finite(),
        seen_set(final(entries)@).len() == *final(clock),
        *final(clock) <= scopes@.len(),
        stack_shape(scopes@, children@, final(entries)@, final(stack)@, r as int),
        final(stack)@.len() == 1,
        forall|x: int|
            0 <= x < scopes@.len() ==> (#[trigger] seen(final(entries)@, x) <==> (seen(
                old(entries)@,
                x,
            ) || x == r)),
{
    let ghost t = scopes@;
    let ghost e0 = entries@;
    proof {
        reveal(entries_sound);
        reveal(stack_shape);
        assert(!seen(e0, r as int)) by {
            if seen(e0, r as int) {
                assert(r < r);
            }
        }
        assert(seen_set(e0).insert(r as int) =~= Set::new(
            |x: int| 0 <= x < e0.len() && (seen(e0, x) || x == r),
        ));
        assert(seen_set(e0).insert(r as int).subset_of(set_int_range(0, t.len() as int)));
        lemma_int_range(0, t.len() as int);
        lemma_len_subset(seen_set(e0).insert(r as int), set_int_range(0, t.len() as int));
    }
    let nearest = lambda_closure(scopes, r);
    let start = *clock;
    entries.set(r, Some(Entry { start, end: start, nearest, outer: None }));
    *clock = start + 1;
    stack.push((r, 0));
    proof {
        reveal(entries_sound);
        reveal(stack_shape);
        let e = entries@;
        assert(seen_set(e) =~= seen_set(e0).insert(r as int));
        match lambda_of(t, r as int) {
            Some(x) => lemma_nearest_here(t, r as int, x),
            None => lemma_nearest_at_root(t, r as int),
        }
        assert(ancestor_at(t, r as int, 0) == Some(r as int));
        assert(is_ancestor(t, r as int, r as int));
        assert forall|x: int|
            0 <= x < t.len() && #[trigger] seen(e, x) implies st(e, x) < *clock && st(e, x) <= en(
            e,
            x,
        ) <= *clock by {
            if x != r {
                assert(e[x] == e0[x]);
                assert(seen(e0, x));
            }
        }
        assert forall|x: int, y: int|
            0 <= x < t.len() && 0 <= y < t.len() && x != y && #[trigger] seen(e, x)
                && #[trigger] seen(e, y) implies st(e, x) != st(e, y) by {
            if x != r {
                assert(e[x] == e0[x]);
                assert(seen(e0, x));
            }
            if y != r {
                assert(e[y] == e0[y]);
                assert(seen(e0, y));
            }
        }
        assert forall|x: int| 0 <= x < t.len() && #[trigger] seen(e, x) implies is_nearest_closure(
            t,
            x,
            e[x]->0.nearest,
        ) && is_outer_closure(t, x, e[x]->0.outer) by {
            if x != r {
                assert(e[x] == e0[x]);
                assert(seen(e0, x));
            }
        }
        assert forall|a: int, s: int|
            0 <= a < t.len() && 0 <= s < t.len() && #[trigger] seen(e, a) && #[trigger] seen(e, s)
                && st(e, a) <= st(e, s) && st(e, s) < upper(e, a, *clock as int) implies is_ancestor(
            t,
            a,
            s,
        ) by {
            if a != r && s != r {
                assert(seen(e0, a) && seen(e0, s));
            } else if a == r && s != r {
                assert(seen(e0, s));
            } else if s == r && a != r {
                assert(seen(e0, a));
            }
        }
        assert forall|x: int|
            0 <= x < t.len() && #[trigger] seen(e, x) && parent_index(t, x) is Some implies {
            let p = parent_index(t, x)->0;
            &&& seen(e, p)
            &&& st(e, p) < st(e, x)
            &&& !open(e, p) ==> !open(e, x) && en(e, x) <= en(e, p)
        } by {
            assert(x != r);
            assert(seen(e0, x));
        }
        assert forall|m: int|
            0 <= m < children@[r as int]@.len() implies !seen(
            e,
            #[trigger] children@[r as int]@[m] as int,
        ) by {
            let c = children@[r as int]@[m] as int;
            assert(parent_index(t, c) == Some(r as int));
            if seen(e, c) {
                assert(seen(e0, c));
                assert(seen(e0, r as int));
            }
        }
        assert forall|u: int, a: int|
            0 <= u < t.len() && 0 <= a < t.len() && !seen(e, u) && #[trigger] seen(e, a)
                && #[trigger] is_ancestor(t, a, u) implies open(e, a) by {
            if a != r {
                assert(seen(e0, a));
            }
        }
        assert forall|x: int| 0 <= x < t.len() && #[trigger] open(e, x) implies exists|i: int|
            0 <= i < stack@.len() && (#[trigger] stack@[i]).0 == x by {
            if x != r {
                assert(e[x] == e0[x]);
                assert(open(e0, x));
                assert(false);
            }
            assert(stack@[0].0 == x);
        }
    }
}

spec fn walking(
    t: Seq<Scope>,
    children: Seq<Vec<usize>>,
    e: Seq<Option<Entry>>,
    clock: int,
    s: Seq<(usize, usize)>,
    r: int,
) -> bool {
    &&& 0 <= r < t.len()
    &&& numbered(t)
    &&& parents_in_range(t)
    &&& parent_index(t, r) is None
    &&& children_of(t, children, t.len() as int)
    &&& entries_sound(t, e, clock)
    &&& seen_set(e).finite()
    &&& seen_set(e).len() == clock
    &&& clock <= t.len()
    &&& stack_shape(t, children, e, s, r)
    &&& forall|x: int|
        0 <= x < t.len() && #[trigger] seen(e, x) && parent_index(t, x) is None ==> x <= r
}

/// The entry written for a newly entered child `c` of `node`.
spec fn entered(
    t: Seq<Scope>,
    e0: Seq<Option<Entry>>,
    e: Seq<Option<Entry>>,
    clock0: int,
    c: int,
) -> bool {
    &&& e.len() == e0.len()
    &&& 0 <= c < e.len()
    &&& e[c] is Some
    &&& e[c]->0.start == clock0
    &&& e[c]->0.end == clock0
    &&& is_nearest_closure(t, c, e[c]->0.nearest)
    &&& is_outer_closure(t, c, e[c]->0.outer)
    &&& forall|x: int| 0 <= x < e.len() && x != c ==> #[trigger] e[x] == e0[x]
}

#[verifier::spinoff_prover]
proof fn lemma_enter_entries(
    t: Seq<Scope>,
    children: Seq<Vec<usize>>,
    e0: Seq<Option<Entry>>,
    e: Seq<Option<Entry>>,
    clock0: int,
    s0: Seq<(usize, usize)>,
    c: int,
    node: int,
    r: int,
)
    requires
        walking(t, children, e0, clock0, s0, r),
        s0.len() > 0,
        s0.last().0 == node,
        !seen(e0, c),
        parent_index(t, c) == Some(node),
        entered(t, e0, e, clock0, c),
    ensures
        entries_sound(t, e, clock0 + 1),
        forall|x: int|
            0 <= x < t.len() && #[trigger] seen(e, x) && parent_index(t, x) is None ==> x <= r,
{
    reveal(entries_sound);
    reveal(stack_shape);
    let top = s0.len() - 1;
    assert(s0[top].0 == node);
    assert(open(e0, node));
    assert(ancestor_at(t, c, 0) == Some(c));
    assert(is_ancestor(t, c, c));
    assert forall|i: int| 0 <= i < s0.len() implies is_ancestor(
        t,
        (#[trigger] s0[i]).0 as int,
        c,
    ) by {
        assert(is_ancestor(t, s0[i].0 as int, s0[top].0 as int));
        lemma_ancestor_of_parent(t, s0[i].0 as int, c, node);
    }
    assert forall|x: int|
        0 <= x < t.len() && #[trigger] seen(e, x) implies st(e, x) < clock0 + 1 && st(e, x) <= en(
        e,
        x,
    ) <= clock0 + 1 by {
        if x != c {
            assert(e[x] == e0[x]);
            assert(seen(e0, x));
        }
    }
    assert forall|x: int, y: int|
        0 <= x < t.len() && 0 <= y < t.len() && x != y && #[trigger] seen(e, x) && #[trigger] seen(
            e,
            y,
        ) implies st(e, x) != st(e, y) by {
        if x != c {
            assert(e[x] == e0[x]);
            assert(seen(e0, x));
        }
        if y != c {
            assert(e[y] == e0[y]);
            assert(seen(e0, y));
        }
    }
    assert forall|x: int|
        0 <= x < t.len() && #[trigger] seen(e, x) && parent_index(t, x) is Some implies {
        let p = parent_index(t, x)->0;
        &&& seen(e, p)
        &&& st(e, p) < st(e, x)
        &&& !open(e, p) ==> !open(e, x) && en(e, x) <= en(e, p)
    } by {
        let p = parent_index(t, x)->0;
        if x != c {
            assert(e[x] == e0[x]);
            assert(seen(e0, x));
            assert(p != c);
            assert(e[p] == e0[p]);
        } else {
            assert(e[node] == e0[node]);
        }
    }
    assert forall|a: int, b: int|
        0 <= a < t.len() && 0 <= b < t.len() && #[trigger] seen(e, a) && #[trigger] seen(e, b)
            && st(e, a) <= st(e, b) && st(e, b) < upper(e, a, clock0 + 1) implies is_ancestor(
        t,
        a,
        b,
    ) by {
        if a == c {
            if b != c {
                assert(e[b] == e0[b]);
                assert(seen(e0, b));
            }
        } else {
            assert(e[a] == e0[a]);
            assert(seen(e0, a));
            if b == c {
                if open(e0, a) {
                    let i = choose|i: int| 0 <= i < s0.len() && (#[trigger] s0[i]).0 == a;
                    assert(is_ancestor(t, s0[i].0 as int, c));
                }
            } else {
                assert(e[b] == e0[b]);
                assert(seen(e0, b));
            }
        }
    }
    assert forall|x: int| 0 <= x < t.len() && #[trigger] seen(e, x) implies is_nearest_closure(
        t,
        x,
        e[x]->0.nearest,
    ) && is_outer_closure(t, x, e[x]->0.outer) by {
        if x != c {
            assert(e[x] == e0[x]);
            assert(seen(e0, x));
        }
    }
    assert forall|x: int|
        0 <= x < t.len() && #[trigger] seen(e, x) && parent_index(t, x) is None implies x <= r by {
        if x != c {
            assert(e[x] == e0[x]);
            assert(seen(e0, x));
        }
    }
}

#[verifier::rlimit(100)]
#[verifier::spinoff_prover]
proof fn lemma_enter_shape(
    t: Seq<Scope>,
    children: Seq<Vec<usize>>,
    e0: Seq<Option<Entry>>,
    e: Seq<Option<Entry>>,
    clock0: int,
    s0: Seq<(usize, usize)>,
    s: Seq<(usize, usize)>,
    cu: usize,
    nu: usize,
    xu: usize,
    r: int,
)
    requires
        walking(t, children, e0, clock0, s0, r),
        s0.len() > 0,
        s0.last() == (nu, xu),
        xu < children[nu as int]@.len(),
        children[nu as int]@[xu as int] == cu,
        !seen(e0, cu as int),
        entered(t, e0, e, clock0, cu as int),
        xu + 1 <= usize::MAX,
        s == s0.update(s0.len() - 1, (nu, (xu + 1) as usize)).push((cu, 0usize)),
    ensures
        stack_shape(t, children, e, s, r),
{
    reveal(entries_sound);
    reveal(stack_shape);
    let c = cu as int;
    let node = nu as int;
    let next = xu as int;
    let top = s0.len() - 1;
    assert(s0[top] == s0.last());
    assert(parent_index(t, c) == Some(node));
    assert(ancestor_at(t, c, 0) == Some(c));
    assert(is_ancestor(t, c, c));
    assert(forall|i: int| 0 <= i < s0.len() ==> open(e0, (#[trigger] s0[i]).0 as int));
    assert forall|i: int| 0 <= i < s0.len() implies (#[trigger] s0[i]).0 != c by {
        assert(open(e0, s0[i].0 as int));
    }
    assert forall|i: int| 0 <= i < s0.len() implies is_ancestor(
        t,
        (#[trigger] s0[i]).0 as int,
        c,
    ) by {
        assert(is_ancestor(t, s0[i].0 as int, s0[top].0 as int));
        lemma_ancestor_of_parent(t, s0[i].0 as int, c, node);
    }
    assert forall|i: int|
        0 <= i < s.len() implies {
        &&& (#[trigger] s[i]).0 < t.len()
        &&& open(e, s[i].0 as int)
        &&& s[i].1 <= children[s[i].0 as int]@.len()
    } by {
        if i < s0.len() {
            assert(s[i].0 == s0[i].0);
            assert(e[s0[i].0 as int] == e0[s0[i].0 as int]);
        }
    }
    assert forall|i: int|
        0 < i < s.len() implies {
        &&& parent_index(t, (#[trigger] s[i]).0 as int) == Some(s[i - 1].0 as int)
        &&& s[i - 1].1 >= 1
        &&& children[s[i - 1].0 as int]@[s[i - 1].1 - 1] == s[i].0
    } by {
        if i < top {
            assert(s0[i] == s[i]);
            assert(s0[i - 1] == s[i - 1]);
        } else if i == top {
            assert(s[i].0 == s0[i].0);
            assert(s0[i - 1] == s[i - 1]);
        } else {
            assert(s[i - 1] == (nu, (xu + 1) as usize));
        }
    }
    assert forall|i: int, j: int| 0 <= i < j < s.len() implies st(e, (#[trigger] s[i]).0 as int)
        < st(e, (#[trigger] s[j]).0 as int) by {
        assert(s[i].0 == s0[i].0);
        assert(e[s0[i].0 as int] == e0[s0[i].0 as int]);
        if j < s0.len() {
            assert(s[j].0 == s0[j].0);
            assert(e[s0[j].0 as int] == e0[s0[j].0 as int]);
            assert(st(e0, s0[i].0 as int) < st(e0, s0[j].0 as int));
        }
    }
    assert forall|i: int, j: int| 0 <= i <= j < s.len() implies is_ancestor(
        t,
        (#[trigger] s[i]).0 as int,
        (#[trigger] s[j]).0 as int,
    ) by {
        if j < s0.len() {
            assert(s[i].0 == s0[i].0 && s[j].0 == s0[j].0);
            assert(is_ancestor(t, s0[i].0 as int, s0[j].0 as int));
        } else if i < s0.len() {
            assert(s[i].0 == s0[i].0);
            assert(is_ancestor(t, s0[i].0 as int, c));
        }
    }
    assert forall|i: int, m: int|
        0 <= i < s.len() && s[i].1 <= m < children[(#[trigger] s[i]).0 as int]@.len() implies !seen(
        e,
        #[trigger] children[s[i].0 as int]@[m] as int,
    ) by {
        let x = children[s[i].0 as int]@[m] as int;
        if i == s0.len() {
            assert(parent_index(t, x) == Some(c));
            if seen(e, x) {
                assert(x != c);
                assert(e[x] == e0[x]);
                assert(seen(e0, x));
                assert(seen(e0, c));
            }
        } else if i == top {
            assert(children[node]@[next] < children[node]@[m]);
            assert(s0[top].1 <= m);
            assert(!seen(e0, x));
            assert(e[x] == e0[x]);
        } else {
            assert(s[i] == s0[i]);
            assert(!seen(e0, x));
            assert(parent_index(t, x) == Some(s0[i].0 as int));
            if x == c {
                assert(st(e0, s0[i].0 as int) < st(e0, s0[top].0 as int));
            }
            assert(e[x] == e0[x]);
        }
    }
    assert forall|i: int, m: int| 0 <= i < s.len() && 0 <= m < (#[trigger] s[i]).1 implies seen(
        e,
        #[trigger] children[s[i].0 as int]@[m] as int,
    ) by {
        if i < s0.len() {
            assert(s[i].0 == s0[i].0);
            if i == top && m == next {
            } else {
                if i != top {
                    assert(s[i] == s0[i]);
                }
                let x = children[s0[i].0 as int]@[m] as int;
                assert(seen(e0, x));
                if x != c {
                    assert(e[x] == e0[x]);
                }
            }
        }
    }
    assert forall|x: int| 0 <= x < t.len() && #[trigger] open(e, x) implies exists|i: int|
        0 <= i < s.len() && (#[trigger] s[i]).0 == x by {
        if x == c {
            assert(s[s0.len() as int].0 == x);
        } else {
            assert(e[x] == e0[x]);
            assert(open(e0, x));
            let i = choose|i: int| 0 <= i < s0.len() && (#[trigger] s0[i]).0 == x;
            assert(s[i].0 == x);
        }
    }
    assert forall|u: int, a: int|
        0 <= u < t.len() && 0 <= a < t.len() && !seen(e, u) && #[trigger] seen(e, a)
            && #[trigger] is_ancestor(t, a, u) implies open(e, a) by {
        if a != c {
            assert(e[a] == e0[a]);
            assert(seen(e0, a));
            assert(e[u] == e0[u]);
            assert(open(e0, a));
        }
    }
}

#[verifier::rlimit(100)]
#[verifier::spinoff_prover]
proof fn lemma_leave(
    t: Seq<Scope>,
    children: Seq<Vec<usize>>,
    e0: Seq<Option<Entry>>,
    e: Seq<Option<Entry>>,
    clock: int,
    s0: Seq<(usize, usize)>,
    s: Seq<(usize, usize)>,
    node: int,
    r: int,
)
    requires
        walking(t, children, e0, clock, s0, r),
        s0.len() > 0,
        s0.last().0 == node,
        s0.last().1 >= children[node]@.len(),
        e.len() == e0.len(),
        e[node] is Some,
        e[node]->0.start == e0[node]->0.start,
        e[node]->0.end == clock,
        e[node]->0.nearest == e0[node]->0.nearest,
        e[node]->0.outer == e0[node]->0.outer,
        forall|x: int| 0 <= x < e.len() && x != node ==> #[trigger] e[x] == e0[x],
        s == s0.drop_last(),
    ensures
        walking(t, children, e, clock, s, r),
        forall|x: int| 0 <= x < t.len() ==> (#[trigger] seen(e, x) <==> seen(e0, x)),
{
    reveal(entries_sound);
    reveal(stack_shape);
    let top = s0.len() - 1;
    assert(s0[top] == s0.last());
    assert(open(e0, node));
    assert forall|x: int| 0 <= x < t.len() implies (#[trigger] seen(e, x) <==> seen(e0, x)) by {
        if x != node {
            assert(e[x] == e0[x]);
        }
    }
    assert(seen_set(e) =~= seen_set(e0));
    assert forall|i: int| 0 <= i < s.len() implies (#[trigger] s[i]) == s0[i] && s0[i].0 != node by {
        assert(st(e0, s0[i].0 as int) < st(e0, s0[top].0 as int));
    }
    // no child of `node` is still open
    assert forall|x: int|
        0 <= x < t.len() && parent_index(t, x) == Some(node) && #[trigger] open(e0, x) implies false by {
        let i = choose|i: int| 0 <= i < s0.len() && (#[trigger] s0[i]).0 == x;
        if i == 0 {
            assert(parent_index(t, r) is None);
        } else {
            assert(parent_index(t, s0[i].0 as int) == Some(s0[i - 1].0 as int));
            if i - 1 < top {
                assert(st(e0, s0[i - 1].0 as int) < st(e0, s0[top].0 as int));
            }
        }
    }
    assert forall|x: int|
        0 <= x < t.len() && #[trigger] seen(e, x) implies st(e, x) < clock && st(e, x) <= en(e, x)
        <= clock by {
        if x != node {
            assert(e[x] == e0[x]);
        }
    }
    assert forall|x: int, y: int|
        0 <= x < t.len() && 0 <= y < t.len() && x != y && #[trigger] seen(e, x) && #[trigger] seen(
            e,
            y,
        ) implies st(e, x) != st(e, y) by {
        assert(seen(e0, x) && seen(e0, y));
        assert(st(e, x) == st(e0, x) && st(e, y) == st(e0, y));
    }
    assert forall|x: int|
        0 <= x < t.len() && #[trigger] seen(e, x) && parent_index(t, x) is Some implies {
        let p = parent_index(t, x)->0;
        &&& seen(e, p)
        &&& st(e, p) < st(e, x)
        &&& !open(e, p) ==> !open(e, x) && en(e, x) <= en(e, p)
    } by {
        assert(seen(e0, x));
        let p = parent_index(t, x)->0;
        assert(seen(e0, p));
        assert(st(e, p) == st(e0, p) && st(e, x) == st(e0, x));
        if x == node {
            if top > 0 {
                assert(parent_index(t, s0[top].0 as int) == Some(s0[top - 1].0 as int));
                assert(open(e0, s0[top - 1].0 as int));
                assert(s0[top - 1].0 != node);
                assert(e[p] == e0[p]);
            }
        } else if p == node {
            assert(e[x] == e0[x]);
            assert(!open(e0, x));
        } else {
            assert(e[x] == e0[x]);
            assert(e[p] == e0[p]);
        }
    }
    assert forall|a: int, b: int|
        0 <= a < t.len() && 0 <= b < t.len() && #[trigger] seen(e, a) && #[trigger] seen(e, b)
            && st(e, a) <= st(e, b) && st(e, b) < upper(e, a, clock) implies is_ancestor(t, a, b) by {
        assert(seen(e0, a) && seen(e0, b));
        assert(st(e, a) == st(e0, a) && st(e, b) == st(e0, b));
        if a != node {
            assert(e[a] == e0[a]);
        }
        assert(upper(e, a, clock) <= upper(e0, a, clock));
    }
    assert forall|x: int| 0 <= x < t.len() && #[trigger] seen(e, x) implies is_nearest_closure(
        t,
        x,
        e[x]->0.nearest,
    ) && is_outer_closure(t, x, e[x]->0.outer) by {
        assert(seen(e0, x));
        if x != node {
            assert(e[x] == e0[x]);
        }
    }
    assert(entries_sound(t, e, clock));
    assert forall|i: int|
        0 <= i < s.len() implies {
        &&& (#[trigger] s[i]).0 < t.len()
        &&& open(e, s[i].0 as int)
        &&& s[i].1 <= children[s[i].0 as int]@.len()
    } by {
        assert(e[s0[i].0 as int] == e0[s0[i].0 as int]);
    }
    assert forall|i: int|
        0 < i < s.len() implies {
        &&& parent_index(t, (#[trigger] s[i]).0 as int) == Some(s[i - 1].0 as int)
        &&& s[i - 1].1 >= 1
        &&& children[s[i - 1].0 as int]@[s[i - 1].1 - 1] == s[i].0
    } by {
        assert(s[i - 1] == s0[i - 1]);
    }
    assert forall|i: int, j: int| 0 <= i < j < s.len() implies st(e, (#[trigger] s[i]).0 as int)
        < st(e, (#[trigger] s[j]).0 as int) by {
        assert(s[j] == s0[j]);
        assert(e[s0[i].0 as int] == e0[s0[i].0 as int]);
        assert(e[s0[j].0 as int] == e0[s0[j].0 as int]);
        assert(st(e0, s0[i].0 as int) < st(e0, s0[j].0 as int));
    }
    assert forall|i: int, j: int| 0 <= i <= j < s.len() implies is_ancestor(
        t,
        (#[trigger] s[i]).0 as int,
        (#[trigger] s[j]).0 as int,
    ) by {
        assert(s[j] == s0[j]);
        assert(is_ancestor(t, s0[i].0 as int, s0[j].0 as int));
    }
    assert forall|i: int, m: int|
        0 <= i < s.len() && s[i].1 <= m < children[(#[trigger] s[i]).0 as int]@.len() implies !seen(
        e,
        #[trigger] children[s[i].0 as int]@[m] as int,
    ) by {
        assert(!seen(e0, children[s0[i].0 as int]@[m] as int));
    }
    assert forall|i: int, m: int| 0 <= i < s.len() && 0 <= m < (#[trigger] s[i]).1 implies seen(
        e,
        #[trigger] children[s[i].0 as int]@[m] as int,
    ) by {
        assert(seen(e0, children[s0[i].0 as int]@[m] as int));
    }
    assert forall|x: int| 0 <= x < t.len() && #[trigger] open(e, x) implies exists|i: int|
        0 <= i < s.len() && (#[trigger] s[i]).0 == x by {
        assert(x != node);
        assert(e[x] == e0[x]);
        assert(open(e0, x));
        let i = choose|i: int| 0 <= i < s0.len() && (#[trigger] s0[i]).0 == x;
        assert(i != top);
        assert(s[i].0 == x);
    }
    assert forall|u: int, a: int|
        0 <= u < t.len() && 0 <= a < t.len() && !seen(e, u) && #[trigger] seen(e, a)
            && #[trigger] is_ancestor(t, a, u) implies open(e, a) by {
        assert(seen(e0, a));
        assert(!seen(e0, u));
        if a == node {
            let k = choose|k: nat| #[trigger] ancestor_at(t, u, k) == Some(a);
            if k == 0 {
                assert(false);
            } else {
                lemma_child_toward(t, u, k);
                let c = ancestor_at(t, u, (k - 1) as nat)->0;
                lemma_ancestor_in_range(t, u, (k - 1) as nat);
                assert(children[node]@.contains(c as usize));
                let m = choose|m: int|
                    0 <= m < children[node]@.len() && children[node]@[m] == c as usize;
                assert(seen(e0, children[s0[top].0 as int]@[m] as int));
                assert(c != u);
                assert(is_ancestor(t, c, u));
                assert(open(e0, c));
                assert(false);
            }
        } else {
            assert(e[a] == e0[a]);
            assert(open(e0, a));
        }
    }
    assert(stack_shape(t, children, e, s, r));
    assert forall|x: int|
        0 <= x < t.len() && #[trigger] seen(e, x) && parent_index(t, x) is None implies x <= r by {
        assert(seen(e0, x));
    }
}

fn enter_child(
    scopes: &ScopeTree,
    children: &Vec<Vec<usize>>,
    entries: &mut Vec<Option<Entry>>,
    clock: &mut usize,
    stack: &mut Vec<(usize, usize)>,
    r: usize,
)
    requires
        walking(scopes@, children@, old(entries)@, *old(clock) as int, old(stack)@, r as int),
        old(stack)@.len() > 0,
        old(stack)@.last().1 < children@[old(stack)@.last().0 as int]@.len(),
    ensures
        walking(scopes@, children@, final(entries)@, *final(clock) as int, final(stack)@, r as int),
        *final(clock) == *old(clock) + 1,
        final(stack)@.len() == old(stack)@.len() + 1,
        forall|x: int|
            0 <= x < scopes@.len() && #[trigger] seen(old(entries)@, x) ==> seen(final(entries)@, x),
{
    let ghost t = scopes@;
    let top = stack.len() - 1;
    let (node, next) = stack[top];
    let ghost e0 = entries@;
    let ghost s0 = stack@;
    let ghost clock0 = *clock as int;
    proof {
        assert(s0.last() == s0[top as int]);
        lemma_top_facts(t, children@, e0, clock0, s0, r as int);
    }
    let n = children[node].len();
    assert(next < n);
    let c = children[node][next];
    proof {
        lemma_next_child(t, children@, e0, clock0, s0, r as int);
    }
    let outer = match entries[node] {
        Some(entry) => entry.nearest,
        None => None,
    };
    let nearest = match lambda_closure(scopes, c) {
        Some(here) => Some(here),
        None => outer,
    };
    let start = *clock;
    stack.set(top, (node, next + 1));
    entries.set(c, Some(Entry { start, end: start, nearest, outer }));
    *clock = start + 1;
    stack.push((c, 0));
    proof {
        let e = entries@;
        let ci = c as int;
        let ni = node as int;
        match lambda_of(t, ci) {
            Some(x) => lemma_nearest_here(t, ci, x),
            None => lemma_nearest_from_parent(t, ci, ni, outer),
        }
        assert(entered(t, e0, e, clock0, ci));
        lemma_enter_entries(t, children@, e0, e, clock0, s0, ci, ni, r as int);
        lemma_enter_shape(t, children@, e0, e, clock0, s0, stack@, c, node, next, r as int);
        assert(seen_set(e) =~= seen_set(e0).insert(ci));
        assert forall|x: int| 0 <= x < t.len() && #[trigger] seen(e0, x) implies seen(e, x) by {
            if x != ci {
                assert(e[x] == e0[x]);
            }
        }
    }
}

/// What the walk state says about the frame on top of the stack.
proof fn lemma_top_facts(
    t: Seq<Scope>,
    children: Seq<Vec<usize>>,
    e: Seq<Option<Entry>>,
    clock: int,
    s: Seq<(usize, usize)>,
    r: int,
)
    requires
        walking(t, children, e, clock, s, r),
        s.len() > 0,
    ensures
        e.len() == t.len(),
        (s.last().0 as int) < t.len(),
        s.last().1 <= children[s.last().0 as int]@.len(),
        open(e, s.last().0 as int),
        is_nearest_closure(t, s.last().0 as int, e[s.last().0 as int]->0.nearest),
{
    reveal(entries_sound);
    reveal(stack_shape);
    assert(s.last() == s[s.len() - 1]);
}

/// The next unexplored child of the top frame is a fresh scope.
proof fn lemma_next_child(
    t: Seq<Scope>,
    children: Seq<Vec<usize>>,
    e: Seq<Option<Entry>>,
    clock: int,
    s: Seq<(usize, usize)>,
    r: int,
)
    requires
        walking(t, children, e, clock, s, r),
        s.len() > 0,
        s.last().1 < children[s.last().0 as int]@.len(),
    ensures
        ({
            let c = children[s.last().0 as int]@[s.last().1 as int] as int;
            &&& 0 <= c < t.len()
            &&& !seen(e, c)
            &&& parent_index(t, c) == Some(s.last().0 as int)
            &&& clock < t.len()
            &&& e.len() == t.len()
        }),
{
    reveal(entries_sound);
    reveal(stack_shape);
    let top = s.len() - 1;
    assert(s.last() == s[top]);
    let node = s[top].0 as int;
    let c = children[node]@[s[top].1 as int] as int;
    assert(!seen(e, c));
    assert(parent_index(t, c) == Some(node));
    assert(seen_set(e).insert(c) =~= Set::new(|x: int| 0 <= x < e.len() && (seen(e, x) || x == c)));
    assert(seen_set(e).insert(c).subset_of(set_int_range(0, t.len() as int)));
    lemma_int_range(0, t.len() as int);
    lemma_len_subset(seen_set(e).insert(c), set_int_range(0, t.len() as int));
}

fn leave(
    scopes: &ScopeTree,
    children: &Vec<Vec<usize>>,
    entries: &mut Vec<Option<Entry>>,
    clock: &mut usize,
    stack: &mut Vec<(usize, usize)>,
    r: usize,
)
    requires
        walking(scopes@, children@, old(entries)@, *old(clock) as int, old(stack)@, r as int),
        old(stack)@.len() > 0,
        old(stack)@.last().1 >= children@[old(stack)@.last().0 as int]@.len(),
    ensures
        walking(scopes@, children@, final(entries)@, *final(clock) as int, final(stack)@, r as int),
        *final(clock) == *old(clock),
        final(stack)@.len() == old(stack)@.len() - 1,
        forall|x: int|
            0 <= x < scopes@.len() ==> (#[trigger] seen(final(entries)@, x) <==> seen(
                old(entries)@,
                x,
            )),
{
    let top = stack.len() - 1;
    let (node, next) = stack[top];
    let ghost e0 = entries@;
    let ghost s0 = stack@;
    proof {
        assert(s0.last() == s0[top as int]);
        lemma_top_facts(scopes@, children@, e0, *clock as int, s0, r as int);
    }
    let entry = match entries[node] {
        Some(entry) => entry,
        None => Entry { start: 0, end: 0, nearest: None, outer: None },
    };
    entries.set(
        node,
        Some(Entry { start: entry.start, end: *clock, nearest: entry.nearest, outer: entry.outer }),
    );
    stack.pop();
    proof {
        lemma_leave(scopes@, children@, e0, entries@, *clock as int, s0, stack@, node as int, r as int);
    }
}

fn walk(
    scopes: &ScopeTree,
    children: &Vec<Vec<usize>>,
    entries: &mut Vec<Option<Entry>>,
    clock: &mut usize,
    stack: &mut Vec<(usize, usize)>,
    r: usize,
)
    requires
        r < scopes@.len(),
        numbered(scopes@),
        parents_in_range(scopes@),
        parent_index(scopes@, r as int) is None,
        children_of(scopes@, children@, scopes@.len() as int),
        entries_sound(scopes@, old(entries)@, *old(clock) as int),
        seen_set(old(entries)@).finite(),
        seen_set(old(entries)@).len() == *old(clock),
        *old(clock) <= scopes@.len(),
        stack_shape(scopes@, children@, old(entries)@, old(stack)@, r as int),
        forall|x: int|
            0 <= x < scopes@.len() && #[trigger] seen(old(entries)@, x) && parent_index(scopes@, x)
                is None ==> x <= r,
    ensures
        entries_sound(scopes@, final(entries)@, *final(clock) as int),
        seen_set(final(entries)@).finite(),
        seen_set(final(entries)@).len() == *final(clock),
        *final(clock) <= scopes@.len(),
        final(stack)@.len() == 0,
        forall|x: int| 0 <= x < scopes@.len() ==> !open(final(entries)@, x),
        forall|x: int|
            0 <= x < scopes@.len() && #[trigger] seen(old(entries)@, x) ==> seen(
                final(entries)@,
                x,
            ),
        forall|x: int|
            0 <= x < scopes@.len() && #[trigger] seen(final(entries)@, x) && parent_index(
                scopes@,
                x,
            ) is None ==> x <= r,
        forall|u: int, a: int|
            0 <= u < scopes@.len() && 0 <= a < scopes@.len() && !seen(final(entries)@, u)
                && #[trigger] seen(final(entries)@, a) ==> !#[trigger] is_ancestor(scopes@, a, u),
{
    let ghost t = scopes@;
    let ghost e_start = entries@;
    while stack.len() > 0
        invariant
            t == scopes@,
            walking(t, children@, entries@, *clock as int, stack@, r as int),
            forall|x: int|
                0 <= x < t.len() && #[trigger] seen(e_start, x) ==> seen(entries@, x),
        decreases 2 * (t.len() - *clock) + stack@.len(),
    {
        let top = stack.len() - 1;
        let (node, next) = stack[top];
        let ghost e0 = entries@;
        proof {
            assert(stack@.last() == stack@[top as int]);
            lemma_top_facts(t, children@, entries@, *clock as int, stack@, r as int);
        }
        if next < children[node].len() {
            enter_child(scopes, children, entries, clock, stack, r);
        } else {
            leave(scopes, children, entries, clock, stack, r);
        }
        assert forall|x: int| 0 <= x < t.len() && #[trigger] seen(e_start, x) implies seen(entries@, x) by {
            assert(seen(e0, x));
        }
    }
    proof {
        reveal(stack_shape);
        let e = entries@;
        assert forall|x: int| 0 <= x < t.len() implies !open(e, x) by {
            if open(e, x) {
                let i = choose|i: int| 0 <= i < stack@.len() && (#[trigger] stack@[i]).0 == x;
            }
        }
    }
}

/// The error for a query about a scope that the index does not hold.
pub open spec fn missing_scope_message(scope: ScopeId) -> Seq<char> {
    "missing closure scope ScopeId("@ + decimal(scope.0 as nat) + ")"@
}

impl ClosureScopes {
    fn entry(&self, scope: ScopeId) -> (r: Result<Entry, String>)
        ensures
            match r {
                Ok(e) => scope.0 < self.scopes().len() && e == self.entries@[scope.0 as int],
                Err(m) => scope.0 >= self.scopes().len() && m@ == missing_scope_message(scope),
            },
    {
        proof {
            use_type_invariant(self);
        }
        let i = scope.index();
        if i < self.entries.len() {
            Ok(self.entries[i])
        } else {
            Err(with_number("missing closure scope ScopeId(", scope.0, ")"))
        }
    }

    /// Whether `ancestor` is `scope` or encloses it.
    pub fn contains(&self, ancestor: ScopeId, scope: ScopeId) -> (r: Result<bool, String>)
        ensures
            match r {
                Ok(b) => ancestor.0 < self.scopes().len() && scope.0 < self.scopes().len() && b
                    == is_ancestor(self.scopes(), ancestor.0 as int, scope.0 as int),
                Err(m) => if ancestor.0 >= self.scopes().len() {
                    m@ == missing_scope_message(ancestor)
                } else {
                    scope.0 >= self.scopes().len() && m@ == missing_scope_message(scope)
                },
            },
    {
        proof {
            use_type_invariant(self);
        }
        let a = match self.entry(ancestor) {
            Ok(e) => e,
            Err(m) => return Err(m),
        };
        let s = match self.entry(scope) {
            Ok(e) => e,
            Err(m) => return Err(m),
        };
        proof {
            assert(inside(self.entries@, ancestor.0 as int, scope.0 as int) == is_ancestor(
                self.scopes@,
                ancestor.0 as int,
                scope.0 as int,
            ));
        }
        Ok(a.start <= s.start && s.start < a.end)
    }

    /// The closure scope nearest to `scope` on its parent chain, `scope` included.
    pub fn nearest(&self, scope: ScopeId) -> (r: Result<Option<ClosureScope>, String>)
        ensures
            match r {
                Ok(n) => scope.0 < self.scopes().len() && is_nearest_closure(
                    self.scopes(),
                    scope.0 as int,
                    n,
                ),
                Err(m) => scope.0 >= self.scopes().len() && m@ == missing_scope_message(scope),
            },
    {
        proof {
            use_type_invariant(self);
        }
        match self.entry(scope) {
            Ok(e) => {
                proof {
                    assert(is_nearest_closure(
                        self.scopes@,
                        scope.0 as int,
                        self.entries@[scope.0 as int].nearest,
                    ));
                }
                Ok(e.nearest)
            },
            Err(m) => Err(m),
        }
    }

    /// The closure scope that encloses `closure`: the one nearest to its parent.
    pub fn outer(&self, closure: ClosureScope) -> (r: Result<Option<ClosureScope>, String>)
        ensures
            match r {
                Ok(n) => closure.scope.0 < self.scopes().len() && is_outer_closure(
                    self.scopes(),
                    closure.scope.0 as int,
                    n,
                ),
                Err(m) => closure.scope.0 >= self.scopes().len() && m@ == missing_scope_message(
                    closure.scope,
                ),
            },
    {
        proof {
            use_type_invariant(self);
        }
        match self.entry(closure.scope) {
            Ok(e) => {
                proof {
                    assert(is_outer_closure(
                        self.scopes@,
                        closure.scope.0 as int,
                        self.entries@[closure.scope.0 as int].outer,
                    ));
                }
                Ok(e.outer)
            },
            Err(m) => Err(m),
        }
    }
}

} // verus!
