//! Properties that hold across the planning tables: what one query gives back of another.
use vstd::prelude::*;

use crate::captures::{
    chain_ends_at, chain_ok, closure_captures, closure_locals, closures_fit, declares, expr_scope, expr_uses, increasing,
    lambda_above, lambdas_below, layout_holds, ClosureLayout,
};
use crate::frames::{declared_twice, frame_holds, lemma_owner_unique, siblings, walks_rooted};
use crate::ids::HirExprId;
use crate::program::CheckedProject;
use crate::ids::SymbolId;
use crate::names::names_increasing;
use crate::program::{symbols_numbered, SymbolData};
use crate::scope_tree::{
    acyclic, ancestor_at, is_ancestor, is_forest, lambda_of, lemma_ancestor_compose, lemma_ancestor_none_step,
    lemma_ancestor_in_range, lemma_ancestor_of_parent, lemma_ancestor_step, lemma_child_toward,
    numbered, parent_index, parents_in_range, rooted, Scope,
};
use crate::scopes::{is_nearest_closure, is_outer_closure, no_lambda_at, ClosureScope};
use crate::slots::{slot_of, slot_symbols, lemma_slot_of_distinct, lemma_slot_of_holds};

verus! {

/// Slots and symbols are inverse: in a list without repeats, the slot of the symbol held
/// in slot `i` is `i`, and the slot found for a symbol holds that symbol.
pub proof fn law_slot_round_trip(symbols: Seq<SymbolId>, i: int, x: SymbolId)
    requires
        symbols.no_duplicates(),
        0 <= i < symbols.len(),
    ensures
        slot_of(symbols, symbols[i]) == Some(i),
        slot_of(symbols, x) matches Some(j) ==> symbols[j] == x,
        slot_of(symbols, x) is None <==> !symbols.contains(x),
{
    lemma_slot_of_distinct(symbols, i);
    lemma_slot_of_holds(symbols, x);
    if symbols.contains(x) {
        let j = choose|j: int| 0 <= j < symbols.len() && symbols[j] == x;
        lemma_slot_of_distinct(symbols, j);
    }
}

/// The slot symbols of a program come in increasing order, so no symbol has two slots.
pub proof fn law_program_slots_distinct(symbols: Seq<SymbolData>)
    requires
        symbols_numbered(symbols),
    ensures
        slot_symbols(symbols).no_duplicates(),
        forall|i: int, j: int|
            0 <= i < j < slot_symbols(symbols).len() ==> (#[trigger] slot_symbols(symbols)[i]).0
                < (#[trigger] slot_symbols(symbols)[j]).0,
    decreases symbols.len(),
{
    if symbols.len() > 0 {
        let rest = symbols.drop_last();
        assert(symbols_numbered(rest)) by {
            assert forall|i: int| 0 <= i < rest.len() implies (#[trigger] rest[i]).id.0 == i by {
                assert(rest[i] == symbols[i]);
            }
        }
        law_program_slots_distinct(rest);
        lemma_slot_symbols_below(rest);
        let s = slot_symbols(symbols);
        assert forall|i: int, j: int| 0 <= i < j < s.len() implies (#[trigger] s[i]).0 < (
        #[trigger] s[j]).0 by {
            if j == s.len() - 1 && s.len() > slot_symbols(rest).len() {
                assert(s[j] == symbols.last().id);
                assert(symbols.last().id.0 == symbols.len() - 1);
                assert(s[i] == slot_symbols(rest)[i]);
            } else {
                assert(s[i] == slot_symbols(rest)[i] && s[j] == slot_symbols(rest)[j]);
            }
        }
        assert forall|i: int, j: int| 0 <= i < s.len() && 0 <= j < s.len() && i != j implies s[i] != s[j] by {
            if i < j {
                assert(s[i].0 < s[j].0);
            } else {
                assert(s[j].0 < s[i].0);
            }
        }
    }
}

/// The slot symbols of a program are identifiers of its symbols.
proof fn lemma_slot_symbols_below(symbols: Seq<SymbolData>)
    requires
        symbols_numbered(symbols),
    ensures
        forall|i: int| 0 <= i < slot_symbols(symbols).len() ==> (#[trigger] slot_symbols(symbols)[i]).0 < symbols.len(),
    decreases symbols.len(),
{
    if symbols.len() > 0 {
        let rest = symbols.drop_last();
        assert(symbols_numbered(rest)) by {
            assert forall|i: int| 0 <= i < rest.len() implies (#[trigger] rest[i]).id.0 == i by {
                assert(rest[i] == symbols[i]);
            }
        }
        lemma_slot_symbols_below(rest);
        let s = slot_symbols(symbols);
        assert forall|i: int| 0 <= i < s.len() implies (#[trigger] s[i]).0 < symbols.len() by {
            if i < slot_symbols(rest).len() {
                assert(s[i] == slot_symbols(rest)[i]);
            } else {
                assert(s[i] == symbols.last().id);
            }
        }
    }
}

/// A chain that returns to its start never ends.
proof fn lemma_cycle_never_ends(t: Seq<Scope>, b: int, m: nat, n: nat)
    requires
        parents_in_range(t),
        0 <= b < t.len(),
        m > 0,
        ancestor_at(t, b, m) == Some(b),
    ensures
        ancestor_at(t, b, n) matches Some(x) && 0 <= x < t.len() && parent_index(t, x) is Some,
    decreases n,
{
    if n >= m {
        lemma_cycle_never_ends(t, b, m, (n - m) as nat);
        lemma_ancestor_compose(t, b, m, (n - m) as nat);
        assert(ancestor_at(t, b, n) == ancestor_at(t, b, (n - m) as nat));
    } else {
        lemma_some_before(t, b, m, n + 1);
        lemma_some_before(t, b, m, n);
        crate::scope_tree::lemma_ancestor_in_range(t, b, n);
        crate::scope_tree::lemma_ancestor_step(t, b, n);
    }
}

/// A chain that reaches step `m` reaches every earlier step.
proof fn lemma_some_before(t: Seq<Scope>, s: int, m: nat, j: nat)
    requires
        ancestor_at(t, s, m) is Some,
        j <= m,
    ensures
        ancestor_at(t, s, j) is Some,
    decreases m - j,
{
    if j < m {
        lemma_some_before(t, s, m, j + 1);
        if ancestor_at(t, s, j) is None {
            lemma_ancestor_none_step(t, s, j);
        }
    }
}

/// In a scope forest, two scopes that contain each other are the same scope.
pub proof fn law_containment_antisymmetric(t: Seq<Scope>, a: int, b: int)
    requires
        parents_in_range(t),
        acyclic(t),
        0 <= a < t.len(),
        0 <= b < t.len(),
        is_ancestor(t, a, b),
        is_ancestor(t, b, a),
    ensures
        a == b,
{
    let j = choose|j: nat| ancestor_at(t, b, j) == Some(a);
    let k = choose|k: nat| ancestor_at(t, a, k) == Some(b);
    lemma_ancestor_compose(t, b, j, k);
    if a != b {
        assert(j + k > 0);
        assert(crate::scope_tree::rooted(t, b));
        let r = choose|r: nat|
            #[trigger] ancestor_at(t, b, r) matches Some(x) && parent_index(t, x) is None;
        lemma_cycle_never_ends(t, b, j + k, r);
    }
}

/// Every symbol a closure captures has a slot in the closure's frame.
pub proof fn law_captures_have_slots(
    l: ClosureLayout,
    locals: Set<SymbolId>,
    captures: Set<SymbolId>,
    x: SymbolId,
)
    requires
        layout_holds(l, locals, captures),
        captures.contains(x),
    ensures
        l.slots@.contains(x),
        l.captures@.contains(x),
{
    let k = l.slots@.len() - l.captures@.len();
    assert(l.captures@.to_set().contains(x));
    let i = choose|i: int| 0 <= i < l.captures@.len() && l.captures@[i] == x;
    assert(l.slots@.subrange(k, l.slots@.len() as int)[i] == l.slots@[k + i]);
}

/// A closure's own locals come first in its frame, each at a slot below the captures.
pub proof fn law_locals_before_captures(
    l: ClosureLayout,
    locals: Set<SymbolId>,
    captures: Set<SymbolId>,
    x: SymbolId,
)
    requires
        layout_holds(l, locals, captures),
        locals.contains(x),
    ensures
        exists|i: int| 0 <= i < l.slots@.len() - l.captures@.len() && l.slots@[i] == x,
{
    let k = l.slots@.len() - l.captures@.len();
    assert(l.slots@.take(k).to_set().contains(x));
    let i = choose|i: int| 0 <= i < l.slots@.take(k).len() && l.slots@.take(k)[i] == x;
    assert(l.slots@[i] == x);
}

/// No scope is owned by the same lambda as one of its proper ancestors.
pub open spec fn nested_lambdas_distinct(t: Seq<Scope>) -> bool {
    forall|a: int, k: nat|
        0 <= a < t.len() && k > 0 && #[trigger] ancestor_at(t, a, k) is Some && lambda_of(t, a)
            is Some ==> lambda_of(t, ancestor_at(t, a, k)->0) != lambda_of(t, a)
}

/// A closure crossed on the way up from `s` to `d` owns a scope met before `d`.
proof fn lemma_crossed_closure(t: Seq<Scope>, s: int, d: int, k: nat, e: HirExprId)
    requires
        lambdas_below(t, s, d, k).contains(e),
    ensures
        exists|m: nat|
            m <= k && (#[trigger] ancestor_at(t, s, m) matches Some(y) && lambda_of(t, y) == Some(e))
                && forall|m2: nat| m2 <= m ==> ancestor_at(t, s, m2) != Some(d),
    decreases k,
{
    if lambda_of(t, s) == Some(e) {
        assert(ancestor_at(t, s, 0) == Some(s));
        assert forall|m2: nat| m2 <= 0 implies ancestor_at(t, s, m2) != Some(d) by {}
    } else {
        let p = parent_index(t, s)->0;
        lemma_crossed_closure(t, p, d, (k - 1) as nat, e);
        let m = choose|m: nat|
            m <= (k - 1) as nat && (#[trigger] ancestor_at(t, p, m) matches Some(y) && lambda_of(t, y)
                == Some(e)) && forall|m2: nat| m2 <= m ==> ancestor_at(t, p, m2) != Some(d);
        assert(ancestor_at(t, s, m + 1) == ancestor_at(t, p, m));
        assert forall|m2: nat| m2 <= m + 1 implies ancestor_at(t, s, m2) != Some(d) by {
            if m2 > 0 {
                assert(ancestor_at(t, s, m2) == ancestor_at(t, p, (m2 - 1) as nat));
            }
        }
    }
}

/// The closure nearest above `d` owns a scope on the chain from `d`.
proof fn lemma_nearest_closure(t: Seq<Scope>, d: int, k: nat, e: HirExprId)
    requires
        lambda_above(t, d, k) == Some(e),
    ensures
        exists|j: nat| #[trigger] ancestor_at(t, d, j) matches Some(z) && lambda_of(t, z) == Some(e),
    decreases k,
{
    if lambda_of(t, d) == Some(e) {
        assert(ancestor_at(t, d, 0) == Some(d));
    } else {
        let p = parent_index(t, d)->0;
        lemma_nearest_closure(t, p, (k - 1) as nat, e);
        let j = choose|j: nat| #[trigger] ancestor_at(t, p, j) matches Some(z) && lambda_of(t, z) == Some(e);
        assert(ancestor_at(t, d, j + 1) == ancestor_at(t, p, j));
    }
}

/// No local a closure owns is also one it captures: in a program whose declarations and
/// uses are in order, a symbol declared inside a closure and used inside it is met before
/// the closure on the way up, so the closure does not capture it. This holds when no
/// lambda owns both a scope and one of that scope's ancestors.
pub proof fn law_closure_locals_not_captured(
    p: CheckedProject,
    sl: Seq<SymbolId>,
    e: HirExprId,
    x: SymbolId,
)
    requires
        closures_fit(p, sl),
        nested_lambdas_distinct(p.hir.scopes@),
    ensures
        !(closure_locals(p.hir.scopes@, sl, e).contains(x) && closure_captures(p, sl, e).contains(x)),
{
    let t = p.hir.scopes@;
    let ex = p.hir.exprs@;
    let n = t.len() as nat;
    if closure_locals(t, sl, e).contains(x) && closure_captures(p, sl, e).contains(x) {
        let d0 = choose|d: int| #[trigger] declares(t, d, x) && lambda_above(t, d, n) == Some(e);
        let (i, d) = choose|i: int, d: int|
            0 <= i < ex.len() && #[trigger] expr_uses(ex[i]).contains(x) && #[trigger] declares(t, d, x)
                && (expr_scope(p, i) matches Some(s) && lambdas_below(t, s.0 as int, d, n).contains(e));
        assert(crate::captures::declaration_ok(t, ex, d, x));
        assert(d0 == d);
        assert(crate::captures::use_ok(p, i, x));
        let sid = expr_scope(p, i)->0;
        let s = sid.0 as int;
        assert(is_ancestor(t, d, s));
        let big_k = choose|k: nat| #[trigger] ancestor_at(t, s, k) == Some(d);
        lemma_crossed_closure(t, s, d, n, e);
        let m = choose|m: nat|
            m <= n && (#[trigger] ancestor_at(t, s, m) matches Some(y) && lambda_of(t, y) == Some(e))
                && forall|m2: nat| m2 <= m ==> ancestor_at(t, s, m2) != Some(d);
        let y = ancestor_at(t, s, m)->0;
        if big_k <= m {
            assert(ancestor_at(t, s, big_k) != Some(d));
        }
        lemma_nearest_closure(t, d, n, e);
        let j = choose|j: nat| #[trigger] ancestor_at(t, d, j) matches Some(z) && lambda_of(t, z) == Some(e);
        let z = ancestor_at(t, d, j)->0;
        lemma_ancestor_compose(t, s, big_k, j);
        lemma_ancestor_compose(t, s, m, (big_k + j - m) as nat);
        assert(ancestor_at(t, y, (big_k + j - m) as nat) == Some(z));
        // y lies on a chain that ends, so it is an existing scope
        let k0 = choose|k0: nat| #[trigger] crate::captures::chain_ends_at(t, s, k0);
        if m > k0 {
            lemma_some_before(t, s, m, k0 + 1);
            lemma_ancestor_step(t, s, k0);
        }
        assert(ancestor_at(t, s, m) matches Some(q) && 0 <= q < t.len());
        assert(lambda_of(t, z) != lambda_of(t, y));
    }
}

/// A closure's frame holds each symbol once, when no lambda owns both a scope and one of
/// that scope's ancestors.
pub proof fn law_closure_slots_distinct(
    p: CheckedProject,
    sl: Seq<SymbolId>,
    e: HirExprId,
    l: ClosureLayout,
)
    requires
        closures_fit(p, sl),
        nested_lambdas_distinct(p.hir.scopes@),
        layout_holds(l, closure_locals(p.hir.scopes@, sl, e), closure_captures(p, sl, e)),
    ensures
        l.slots@.no_duplicates(),
{
    let s = l.slots@;
    let k = s.len() - l.captures@.len();
    let front = s.take(k);
    let back = s.subrange(k, s.len() as int);
    assert forall|a: int, b: int| 0 <= a < s.len() && 0 <= b < s.len() && a != b implies s[a] != s[b] by {
        let (i, j) = if a < b { (a, b) } else { (b, a) };
        if j < k {
            assert(increasing(front));
            assert(front[i] == s[i] && front[j] == s[j]);
        } else if i >= k {
            assert(increasing(back));
            assert(back[i - k] == s[i] && back[j - k] == s[j]);
        } else {
            assert(front[i] == s[i]);
            assert(front.to_set().contains(s[i]));
            assert(back[j - k] == s[j]);
            assert(back.to_set().contains(s[j]));
            law_closure_locals_not_captured(p, sl, e, s[i]);
        }
    }
}

/// Two rooted scopes are related: one contains the other, or they lie below two
/// distinct sibling scopes.
proof fn lemma_scopes_related(t: Seq<Scope>, a: int, b: int, ka: nat, kb: nat)
    requires
        parents_in_range(t),
        0 <= a < t.len(),
        0 <= b < t.len(),
        ancestor_at(t, a, ka) matches Some(ra) && parent_index(t, ra) is None,
        ancestor_at(t, b, kb) matches Some(rb) && parent_index(t, rb) is None,
    ensures
        is_ancestor(t, a, b) || is_ancestor(t, b, a) || exists|u: int, v: int|
            #[trigger] siblings(t, u, v) && is_ancestor(t, u, a) && is_ancestor(t, v, b),
    decreases ka + kb,
{
    assert(ancestor_at(t, a, 0) == Some(a));
    assert(ancestor_at(t, b, 0) == Some(b));
    if a == b {
    } else if ka == 0 && kb == 0 {
        assert(siblings(t, a, b));
    } else if ka >= kb {
        assert(parent_index(t, a) is Some);
        let pa = parent_index(t, a)->0;
        assert(ancestor_at(t, a, ka) == ancestor_at(t, pa, (ka - 1) as nat));
        reveal_with_fuel(ancestor_at, 2);
        assert(ancestor_at(t, a, 1) == Some(pa));
        lemma_scopes_related(t, pa, b, (ka - 1) as nat, kb);
        if is_ancestor(t, pa, b) {
            let k = choose|k: nat| #[trigger] ancestor_at(t, b, k) == Some(pa);
            if k > 0 {
                lemma_child_toward(t, b, k);
                lemma_ancestor_in_range(t, b, (k - 1) as nat);
                let c = ancestor_at(t, b, (k - 1) as nat)->0;
                if c != a {
                    assert(siblings(t, a, c));
                    assert(is_ancestor(t, c, b));
                }
            }
        } else if is_ancestor(t, b, pa) {
            lemma_ancestor_of_parent(t, b, a, pa);
        } else {
            let (u, v) = choose|u: int, v: int|
                #[trigger] siblings(t, u, v) && is_ancestor(t, u, pa) && is_ancestor(t, v, b);
            lemma_ancestor_of_parent(t, u, a, pa);
            assert(siblings(t, u, v));
        }
    } else {
        assert(parent_index(t, b) is Some);
        let pb = parent_index(t, b)->0;
        assert(ancestor_at(t, b, kb) == ancestor_at(t, pb, (kb - 1) as nat));
        reveal_with_fuel(ancestor_at, 2);
        assert(ancestor_at(t, b, 1) == Some(pb));
        lemma_scopes_related(t, a, pb, ka, (kb - 1) as nat);
        if is_ancestor(t, a, pb) {
            lemma_ancestor_of_parent(t, a, b, pb);
        } else if is_ancestor(t, pb, a) {
            let k = choose|k: nat| #[trigger] ancestor_at(t, a, k) == Some(pb);
            if k > 0 {
                lemma_child_toward(t, a, k);
                lemma_ancestor_in_range(t, a, (k - 1) as nat);
                let c = ancestor_at(t, a, (k - 1) as nat)->0;
                if c != b {
                    assert(siblings(t, c, b));
                    assert(is_ancestor(t, c, a));
                }
            }
        } else {
            let (u, v) = choose|u: int, v: int|
                #[trigger] siblings(t, u, v) && is_ancestor(t, u, a) && is_ancestor(t, v, pb);
            lemma_ancestor_of_parent(t, v, b, pb);
            assert(siblings(t, u, v));
        }
    }
}

/// Two depth-first walks put any two scopes in the same order.
proof fn lemma_walks_agree(t: Seq<Scope>, o1: Seq<usize>, o2: Seq<usize>, i1: int, j1: int, i2: int, j2: int)
    requires
        parents_in_range(t),
        walks_rooted(t, o1),
        walks_rooted(t, o2),
        0 <= i1 < j1 < o1.len(),
        0 <= i2 < o2.len(),
        0 <= j2 < o2.len(),
        o2[i2] == o1[i1],
        o2[j2] == o1[j1],
    ensures
        i2 < j2,
{
    let a = o1[i1] as int;
    let b = o1[j1] as int;
    assert(o1[i1] != o1[j1]);
    if j2 <= i2 {
        assert(j2 != i2);
        assert(o1[i1] < t.len() && rooted(t, a));
        assert(o1[j1] < t.len() && rooted(t, b));
        let ka = choose|k: nat| #[trigger] ancestor_at(t, a, k) matches Some(r) && parent_index(t, r) is None;
        let kb = choose|k: nat| #[trigger] ancestor_at(t, b, k) matches Some(r) && parent_index(t, r) is None;
        lemma_scopes_related(t, a, b, ka, kb);
        if is_ancestor(t, a, b) {
            assert(!is_ancestor(t, o2[i2] as int, o2[j2] as int));
        } else if is_ancestor(t, b, a) {
            assert(!is_ancestor(t, o1[j1] as int, o1[i1] as int));
        } else {
            let (u, v) = choose|u: int, v: int|
                #[trigger] siblings(t, u, v) && is_ancestor(t, u, a) && is_ancestor(t, v, b);
            assert(siblings(t, v, u));
            if u < v {
                assert(is_ancestor(t, u, o1[i1] as int));
                assert(!is_ancestor(t, v, o1[j1] as int));
            } else {
                assert(is_ancestor(t, v, o2[j2] as int));
                assert(!is_ancestor(t, u, o2[i2] as int));
            }
        }
    }
}

/// A depth-first walk of the rooted scopes is unique: any two are the same sequence.
pub proof fn law_walk_unique(t: Seq<Scope>, o1: Seq<usize>, o2: Seq<usize>)
    requires
        parents_in_range(t),
        walks_rooted(t, o1),
        walks_rooted(t, o2),
    ensures
        o1 == o2,
{
    assert forall|i: int| #![trigger o1[i]] 0 <= i < o1.len() implies exists|j: int| 0 <= j < o2.len() && #[trigger] o2[j] == o1[i] by {
        assert(o1[i] < t.len() && rooted(t, o1[i] as int));
        assert(o2.contains(o1[i]));
    }
    assert forall|j: int| #![trigger o2[j]] 0 <= j < o2.len() implies exists|i: int| 0 <= i < o1.len() && #[trigger] o1[i] == o2[j] by {
        assert(o2[j] < t.len() && rooted(t, o2[j] as int));
        assert(o1.contains(o2[j]));
    }
    assert(o1.to_set() =~= o2.to_set()) by {
        assert forall|x: usize| o1.to_set().contains(x) implies o2.to_set().contains(x) by {
            let i = choose|i: int| 0 <= i < o1.len() && o1[i] == x;
            let j = choose|j: int| 0 <= j < o2.len() && #[trigger] o2[j] == o1[i];
        }
        assert forall|x: usize| o2.to_set().contains(x) implies o1.to_set().contains(x) by {
            let j = choose|j: int| 0 <= j < o2.len() && o2[j] == x;
            let i = choose|i: int| 0 <= i < o1.len() && #[trigger] o1[i] == o2[j];
        }
    }
    o1.unique_seq_to_set();
    o2.unique_seq_to_set();
    assert forall|i: int| 0 <= i < o1.len() implies o1[i] == o2[i] by {
        let j = choose|j: int| 0 <= j < o2.len() && #[trigger] o2[j] == o1[i];
        let p1 = o1.take(i);
        let p2 = o2.take(j);
        assert(p1.to_set() =~= p2.to_set()) by {
            assert forall|y: usize| p1.to_set().contains(y) implies p2.to_set().contains(y) by {
                let k = choose|k: int| 0 <= k < p1.len() && p1[k] == y;
                assert(o1[k] == y);
                let m = choose|m: int| 0 <= m < o2.len() && #[trigger] o2[m] == o1[k];
                lemma_walks_agree(t, o1, o2, k, i, m, j);
                assert(p2[m] == y);
            }
            assert forall|y: usize| p2.to_set().contains(y) implies p1.to_set().contains(y) by {
                let m = choose|m: int| 0 <= m < p2.len() && p2[m] == y;
                assert(o2[m] == y);
                let k = choose|k: int| 0 <= k < o1.len() && #[trigger] o1[k] == o2[m];
                assert(o2[m] != o2[j]);
                if k > i {
                    lemma_walks_agree(t, o1, o2, i, k, j, m);
                }
                assert(k != i);
                assert(p1[k] == y);
            }
        }
        assert(p1.no_duplicates());
        assert(p2.no_duplicates());
        p1.unique_seq_to_set();
        p2.unique_seq_to_set();
        assert(i == j);
    }
    assert(o1 =~= o2);
}

/// No local is in two frames: in a forest where no local is declared twice, a local has
/// one declaring scope, and a scope executes in at most one frame.
pub proof fn law_frames_disjoint(
    t: Seq<Scope>,
    slots: Seq<SymbolId>,
    fs: Set<int>,
    x1: int,
    x2: int,
    sym: SymbolId,
)
    requires
        is_forest(t),
        forall|s: SymbolId| !#[trigger] declared_twice(t, slots, s),
        frame_holds(t, slots, fs, x1, sym),
        frame_holds(t, slots, fs, x2, sym),
    ensures
        x1 == x2,
{
    let (y1, l1) = choose|y: int, l: int|
        #[trigger] crate::frames::declares(t, slots, y, l, sym) && crate::frames::owned_by(t, fs, y, x1);
    let (y2, l2) = choose|y: int, l: int|
        #[trigger] crate::frames::declares(t, slots, y, l, sym) && crate::frames::owned_by(t, fs, y, x2);
    assert(rooted(t, y1) && rooted(t, y2));
    if y1 != y2 || l1 != l2 {
        assert(declared_twice(t, slots, sym));
    }
    lemma_owner_unique(t, fs, y1, x1, x2);
}

/// A chain that returns to a scope runs on forever.
proof fn lemma_cycle_stays(t: Seq<Scope>, y: int, period: nat, r: nat)
    requires
        period > 0,
        ancestor_at(t, y, period) == Some(y),
    ensures
        ancestor_at(t, y, r) is Some,
    decreases r,
{
    if r < period {
        lemma_some_before(t, y, period, r);
    } else {
        lemma_cycle_stays(t, y, period, (r - period) as nat);
        lemma_ancestor_compose(t, y, period, (r - period) as nat);
    }
}

/// A chain that reaches a root passes no scope twice.
proof fn lemma_chain_no_repeat(t: Seq<Scope>, s: int, a: nat, b: nat)
    requires
        chain_ok(t, s),
        a < b,
        ancestor_at(t, s, a) is Some,
    ensures
        ancestor_at(t, s, a) != ancestor_at(t, s, b),
{
    if ancestor_at(t, s, a) == ancestor_at(t, s, b) {
        let k0 = choose|k: nat| #[trigger] chain_ends_at(t, s, k);
        let y = ancestor_at(t, s, a)->0;
        lemma_ancestor_compose(t, s, a, (b - a) as nat);
        assert(ancestor_at(t, y, (b - a) as nat) == Some(y));
        lemma_ancestor_step(t, s, k0);
        if k0 + 1 >= a {
            lemma_cycle_stays(t, y, (b - a) as nat, (k0 + 1 - a) as nat);
            lemma_ancestor_compose(t, s, a, (k0 + 1 - a) as nat);
        } else {
            lemma_some_before(t, s, a, k0 + 1);
        }
    }
}

/// A chain that reaches a root reaches it within as many steps as there are scopes.
proof fn lemma_chain_short(t: Seq<Scope>, s: int, k0: nat)
    requires
        chain_ends_at(t, s, k0),
    ensures
        k0 < t.len(),
{
    let q = Seq::new(k0 + 1, |j: int| ancestor_at(t, s, j as nat)->0);
    assert(chain_ok(t, s));
    assert forall|a: int, b: int| 0 <= a < b < q.len() implies q[a] != q[b] by {
        assert(ancestor_at(t, s, a as nat) matches Some(x) && 0 <= x < t.len());
        assert(ancestor_at(t, s, b as nat) matches Some(x) && 0 <= x < t.len());
        lemma_chain_no_repeat(t, s, a as nat, b as nat);
    }
    q.unique_seq_to_set();
    assert(q.to_set().subset_of(vstd::set_lib::set_int_range(0, t.len() as int))) by {
        assert forall|x: int| q.to_set().contains(x) implies 0 <= x < t.len() by {
            let j = choose|j: int| 0 <= j < q.len() && q[j] == x;
            assert(ancestor_at(t, s, j as nat) matches Some(z) && 0 <= z < t.len());
        }
    }
    vstd::set_lib::lemma_int_range(0, t.len() as int);
    vstd::set_lib::lemma_len_subset(q.to_set(), vstd::set_lib::set_int_range(0, t.len() as int));
}

/// A step that reaches a scope lies within the chain of a scope that reaches a root.
proof fn lemma_step_in_chain(t: Seq<Scope>, s: int, m: nat)
    requires
        chain_ok(t, s),
        ancestor_at(t, s, m) is Some,
    ensures
        m < t.len(),
        ancestor_at(t, s, m) matches Some(y) && 0 <= y < t.len(),
{
    let k0 = choose|k: nat| #[trigger] chain_ends_at(t, s, k);
    lemma_chain_short(t, s, k0);
    if m > k0 {
        lemma_some_before(t, s, m, k0 + 1);
        lemma_ancestor_step(t, s, k0);
    }
}

/// Lambda `e` owns scope `l` and no other scope.
pub open spec fn sole_scope_of(t: Seq<Scope>, e: HirExprId, l: int) -> bool {
    &&& 0 <= l < t.len()
    &&& lambda_of(t, l) == Some(e)
    &&& forall|y: int| 0 <= y < t.len() && #[trigger] lambda_of(t, y) == Some(e) ==> y == l
}

/// The locals used in scope `l` or below it whose declaring scope lies strictly above `l`.
pub open spec fn used_below_declared_above(p: CheckedProject, sl: Seq<SymbolId>, l: int) -> Set<SymbolId> {
    let t = p.hir.scopes@;
    let ex = p.hir.exprs@;
    Set::new(
        |x: SymbolId|
            sl.contains(x) && exists|i: int, d: int|
                0 <= i < ex.len() && #[trigger] expr_uses(ex[i]).contains(x) && (expr_scope(p, i) matches Some(
                    s,
                ) && is_ancestor(t, l, s.0 as int)) && #[trigger] declares(t, d, x) && d != l
                    && is_ancestor(t, d, l),
    )
}

/// The locals whose nearest lambda-owned scope, at or above their declaring scope, is `l`.
pub open spec fn nearest_lambda_scope_is(t: Seq<Scope>, sl: Seq<SymbolId>, l: int) -> Set<SymbolId> {
    Set::new(
        |x: SymbolId|
            sl.contains(x) && exists|d: int, k: nat|
                #[trigger] declares(t, d, x) && #[trigger] ancestor_at(t, d, k) == Some(l) && forall|j: nat|
                    j < k ==> (#[trigger] ancestor_at(t, d, j) matches Some(w) && lambda_of(t, w) is None),
    )
}

/// Reaching a lambda's scope before the declaration means crossing that lambda.
proof fn lemma_crossed_in(t: Seq<Scope>, s: int, d: int, k: nat, m: nat, e: HirExprId)
    requires
        ancestor_at(t, s, m) matches Some(y) && lambda_of(t, y) == Some(e),
        forall|m2: nat| m2 <= m ==> #[trigger] ancestor_at(t, s, m2) != Some(d),
        m <= k,
    ensures
        lambdas_below(t, s, d, k).contains(e),
    decreases m,
{
    assert(ancestor_at(t, s, 0) == Some(s));
    if m > 0 {
        let p = parent_index(t, s)->0;
        assert forall|m2: nat| m2 <= (m - 1) as nat implies #[trigger] ancestor_at(t, p, m2) != Some(d) by {
            assert(ancestor_at(t, s, m2 + 1) == ancestor_at(t, p, m2));
        }
        lemma_crossed_in(t, p, d, (k - 1) as nat, (m - 1) as nat, e);
    }
}

/// The nearest closure above `d` owns the first lambda-owned scope on the chain from `d`.
proof fn lemma_nearest_first(t: Seq<Scope>, d: int, k: nat, e: HirExprId)
    requires
        lambda_above(t, d, k) == Some(e),
    ensures
        exists|j: nat|
            #[trigger] ancestor_at(t, d, j) matches Some(z) && lambda_of(t, z) == Some(e) && forall|i: nat|
                i < j ==> (#[trigger] ancestor_at(t, d, i) matches Some(w) && lambda_of(t, w) is None),
    decreases k,
{
    assert(ancestor_at(t, d, 0) == Some(d));
    if lambda_of(t, d) != Some(e) {
        let p = parent_index(t, d)->0;
        lemma_nearest_first(t, p, (k - 1) as nat, e);
        let j = choose|j: nat|
            #[trigger] ancestor_at(t, p, j) matches Some(z) && lambda_of(t, z) == Some(e) && forall|i: nat|
                i < j ==> (#[trigger] ancestor_at(t, p, i) matches Some(w) && lambda_of(t, w) is None);
        assert(ancestor_at(t, d, j + 1) == ancestor_at(t, p, j));
        assert forall|i: nat| i < j + 1 implies (#[trigger] ancestor_at(t, d, i) matches Some(w) && lambda_of(t, w) is None) by {
            if i > 0 {
                assert(ancestor_at(t, d, i) == ancestor_at(t, p, (i - 1) as nat));
            }
        }
    }
}

/// The first lambda-owned scope on the chain from `d` belongs to the nearest closure.
proof fn lemma_nearest_reached(t: Seq<Scope>, d: int, fuel: nat, k: nat, l: int)
    requires
        ancestor_at(t, d, k) == Some(l),
        lambda_of(t, l) is Some,
        forall|j: nat| j < k ==> (#[trigger] ancestor_at(t, d, j) matches Some(w) && lambda_of(t, w) is None),
        k <= fuel,
    ensures
        lambda_above(t, d, fuel) == lambda_of(t, l),
    decreases k,
{
    assert(ancestor_at(t, d, 0) == Some(d));
    if k > 0 {
        let p = parent_index(t, d)->0;
        assert forall|j: nat| j < (k - 1) as nat implies (#[trigger] ancestor_at(t, p, j) matches Some(w) && lambda_of(t, w) is None) by {
            assert(ancestor_at(t, d, j + 1) == ancestor_at(t, p, j));
        }
        lemma_nearest_reached(t, p, (fuel - 1) as nat, (k - 1) as nat, l);
    }
}

/// In a program whose declarations and uses are in order, a lambda that owns a single
/// scope `l` captures exactly the locals used in or below `l` and declared strictly above
/// it, owns exactly the locals whose nearest lambda-owned scope is `l`, and no local is
/// both.
pub proof fn law_closure_sets(p: CheckedProject, sl: Seq<SymbolId>, e: HirExprId, l: int)
    requires
        closures_fit(p, sl),
        sole_scope_of(p.hir.scopes@, e, l),
    ensures
        closure_captures(p, sl, e) == used_below_declared_above(p, sl, l),
        closure_locals(p.hir.scopes@, sl, e) == nearest_lambda_scope_is(p.hir.scopes@, sl, l),
        closure_locals(p.hir.scopes@, sl, e).disjoint(closure_captures(p, sl, e)),
{
    let t = p.hir.scopes@;
    let ex = p.hir.exprs@;
    let n = t.len() as nat;
    let caps = closure_captures(p, sl, e);
    let wording = used_below_declared_above(p, sl, l);
    assert forall|x: SymbolId| caps.contains(x) implies wording.contains(x) by {
        let (i, d) = choose|i: int, d: int|
            0 <= i < ex.len() && #[trigger] expr_uses(ex[i]).contains(x) && #[trigger] declares(t, d, x)
                && (expr_scope(p, i) matches Some(s) && lambdas_below(t, s.0 as int, d, n).contains(e));
        assert(crate::captures::use_ok(p, i, x));
        let sid = expr_scope(p, i)->0;
        let s = sid.0 as int;
        assert(is_ancestor(t, d, s));
        let big_k = choose|k: nat| #[trigger] ancestor_at(t, s, k) == Some(d);
        lemma_crossed_closure(t, s, d, n, e);
        let m = choose|m: nat|
            m <= n && (#[trigger] ancestor_at(t, s, m) matches Some(y) && lambda_of(t, y) == Some(e))
                && forall|m2: nat| m2 <= m ==> ancestor_at(t, s, m2) != Some(d);
        lemma_step_in_chain(t, s, m);
        let y = ancestor_at(t, s, m)->0;
        assert(y == l);
        assert(is_ancestor(t, l, s));
        if big_k <= m {
            assert(ancestor_at(t, s, big_k) != Some(d));
        }
        lemma_ancestor_compose(t, s, m, (big_k - m) as nat);
        assert(ancestor_at(t, l, (big_k - m) as nat) == Some(d));
        assert(is_ancestor(t, d, l));
    }
    assert forall|x: SymbolId| wording.contains(x) implies caps.contains(x) by {
        let (i, d) = choose|i: int, d: int|
            0 <= i < ex.len() && #[trigger] expr_uses(ex[i]).contains(x) && (expr_scope(p, i) matches Some(
                s,
            ) && is_ancestor(t, l, s.0 as int)) && #[trigger] declares(t, d, x) && d != l
                && is_ancestor(t, d, l);
        assert(crate::captures::use_ok(p, i, x));
        let sid = expr_scope(p, i)->0;
        let s = sid.0 as int;
        let m = choose|m: nat| #[trigger] ancestor_at(t, s, m) == Some(l);
        let k = choose|k: nat| #[trigger] ancestor_at(t, l, k) == Some(d);
        assert(k > 0) by {
            if k == 0 {
                assert(ancestor_at(t, l, 0) == Some(l));
            }
        }
        lemma_ancestor_compose(t, s, m, k);
        assert(ancestor_at(t, s, m + k) == Some(d));
        assert forall|m2: nat| m2 <= m implies #[trigger] ancestor_at(t, s, m2) != Some(d) by {
            if ancestor_at(t, s, m2) == Some(d) {
                lemma_chain_no_repeat(t, s, m2, m + k);
            }
        }
        lemma_step_in_chain(t, s, m);
        lemma_crossed_in(t, s, d, n, m, e);
    }
    assert(caps =~= wording);
    let locs = closure_locals(t, sl, e);
    let near = nearest_lambda_scope_is(t, sl, l);
    assert forall|x: SymbolId| locs.contains(x) implies near.contains(x) by {
        let d = choose|d: int| #[trigger] declares(t, d, x) && lambda_above(t, d, n) == Some(e);
        assert(crate::captures::declaration_ok(t, ex, d, x));
        lemma_nearest_first(t, d, n, e);
        let j = choose|j: nat|
            #[trigger] ancestor_at(t, d, j) matches Some(z) && lambda_of(t, z) == Some(e) && forall|i: nat|
                i < j ==> (#[trigger] ancestor_at(t, d, i) matches Some(w) && lambda_of(t, w) is None);
        lemma_step_in_chain(t, d, j);
        assert(ancestor_at(t, d, j) == Some(l));
    }
    assert forall|x: SymbolId| near.contains(x) implies locs.contains(x) by {
        let (d, k) = choose|d: int, k: nat|
            #[trigger] declares(t, d, x) && #[trigger] ancestor_at(t, d, k) == Some(l) && forall|j: nat|
                j < k ==> (#[trigger] ancestor_at(t, d, j) matches Some(w) && lambda_of(t, w) is None);
        assert(crate::captures::declaration_ok(t, ex, d, x));
        lemma_step_in_chain(t, d, k);
        lemma_nearest_reached(t, d, n, k, l);
    }
    assert(locs =~= near);
    assert forall|x: SymbolId| !(locs.contains(x) && caps.contains(x)) by {
        if locs.contains(x) && caps.contains(x) {
            let (d, k) = choose|d: int, k: nat|
                #[trigger] declares(t, d, x) && #[trigger] ancestor_at(t, d, k) == Some(l) && forall|j: nat|
                    j < k ==> (#[trigger] ancestor_at(t, d, j) matches Some(w) && lambda_of(t, w) is None);
            let (i, d2) = choose|i: int, d2: int|
                0 <= i < ex.len() && #[trigger] expr_uses(ex[i]).contains(x) && (expr_scope(p, i) matches Some(
                    s,
                ) && is_ancestor(t, l, s.0 as int)) && #[trigger] declares(t, d2, x) && d2 != l
                    && is_ancestor(t, d2, l);
            assert(crate::captures::declaration_ok(t, ex, d, x));
            assert(d2 == d);
            let k2 = choose|k2: nat| #[trigger] ancestor_at(t, l, k2) == Some(d);
            assert(k2 > 0) by {
                if k2 == 0 {
                    assert(ancestor_at(t, l, 0) == Some(l));
                }
            }
            lemma_ancestor_compose(t, d, k, k2);
            assert(ancestor_at(t, d, 0) == Some(d));
            lemma_chain_no_repeat(t, d, 0, k + k2);
        }
    }
}

/// The closure scopes on the parent chain of `s`, nearest first, following at most
/// `fuel` parent links.
pub open spec fn closure_chain(t: Seq<Scope>, s: int, fuel: nat) -> Seq<ClosureScope>
    decreases fuel,
{
    let here = match lambda_of(t, s) {
        Some(e) => seq![ClosureScope { scope: t[s].id, expr: e }],
        None => Seq::empty(),
    };
    if fuel == 0 {
        here
    } else {
        match parent_index(t, s) {
            Some(p) => here + closure_chain(t, p, (fuel - 1) as nat),
            None => here,
        }
    }
}

/// The first element of a list of closure scopes, if any.
pub open spec fn first_closure(cs: Seq<ClosureScope>) -> Option<ClosureScope> {
    if cs.len() > 0 {
        Some(cs[0])
    } else {
        None
    }
}

/// The element after position `i` of a list of closure scopes, if any.
pub open spec fn next_closure(cs: Seq<ClosureScope>, i: int) -> Option<ClosureScope> {
    if i + 1 < cs.len() {
        Some(cs[i + 1])
    } else {
        None
    }
}

/// At most one closure scope is nearest to a scope.
pub proof fn law_nearest_closure_unique(t: Seq<Scope>, s: int, r1: Option<ClosureScope>, r2: Option<ClosureScope>)
    requires
        is_nearest_closure(t, s, r1),
        is_nearest_closure(t, s, r2),
    ensures
        r1 == r2,
{
    match (r1, r2) {
        (Some(c1), Some(c2)) => {
            let k1 = choose|k: nat|
                {
                    &&& #[trigger] ancestor_at(t, s, k) == Some(c1.scope.0 as int)
                    &&& lambda_of(t, c1.scope.0 as int) == Some(c1.expr)
                    &&& forall|j: nat| j < k ==> #[trigger] no_lambda_at(t, s, j)
                };
            let k2 = choose|k: nat|
                {
                    &&& #[trigger] ancestor_at(t, s, k) == Some(c2.scope.0 as int)
                    &&& lambda_of(t, c2.scope.0 as int) == Some(c2.expr)
                    &&& forall|j: nat| j < k ==> #[trigger] no_lambda_at(t, s, j)
                };
            if k1 < k2 {
                assert(no_lambda_at(t, s, k1));
            } else if k2 < k1 {
                assert(no_lambda_at(t, s, k2));
            }
            assert(c1.scope == c2.scope);
        },
        (Some(c1), None) => {
            let k1 = choose|k: nat|
                {
                    &&& #[trigger] ancestor_at(t, s, k) == Some(c1.scope.0 as int)
                    &&& lambda_of(t, c1.scope.0 as int) == Some(c1.expr)
                    &&& forall|j: nat| j < k ==> #[trigger] no_lambda_at(t, s, j)
                };
            assert(no_lambda_at(t, s, k1));
        },
        (None, Some(c2)) => {
            let k2 = choose|k: nat|
                {
                    &&& #[trigger] ancestor_at(t, s, k) == Some(c2.scope.0 as int)
                    &&& lambda_of(t, c2.scope.0 as int) == Some(c2.expr)
                    &&& forall|j: nat| j < k ==> #[trigger] no_lambda_at(t, s, j)
                };
            assert(no_lambda_at(t, s, k2));
        },
        (None, None) => {},
    }
}

/// Along a chain that ends within `fuel` links, the first closure scope is the nearest
/// one, and each closure scope's outer closure is the next one.
proof fn lemma_closure_chain(t: Seq<Scope>, s: int, fuel: nat)
    requires
        numbered(t),
        parents_in_range(t),
        0 <= s < t.len(),
        ancestor_at(t, s, fuel + 1) is None,
    ensures
        is_nearest_closure(t, s, first_closure(closure_chain(t, s, fuel))),
        forall|i: int|
            0 <= i < closure_chain(t, s, fuel).len() ==> is_outer_closure(
                t,
                (#[trigger] closure_chain(t, s, fuel)[i]).scope.0 as int,
                next_closure(closure_chain(t, s, fuel), i),
            ),
    decreases fuel,
{
    let cs = closure_chain(t, s, fuel);
    assert(ancestor_at(t, s, 0) == Some(s));
    assert(t[s].id.0 == s);
    if fuel == 0 || parent_index(t, s) is None {
        if fuel == 0 {
            assert(parent_index(t, s) is None) by {
                reveal_with_fuel(ancestor_at, 2);
            }
        }
        match lambda_of(t, s) {
            Some(e) => {
                assert(cs =~= seq![ClosureScope { scope: t[s].id, expr: e }]);
                assert forall|j: nat| j < 0 implies #[trigger] no_lambda_at(t, s, j) by {}
            },
            None => {
                assert(cs =~= Seq::<ClosureScope>::empty());
                assert forall|k: nat| #[trigger] no_lambda_at(t, s, k) by {
                    if k > 0 {
                        assert(ancestor_at(t, s, k) is None);
                    }
                }
            },
        }
    } else {
        let p = parent_index(t, s)->0;
        assert(ancestor_at(t, s, fuel + 1) == ancestor_at(t, p, fuel));
        lemma_closure_chain(t, p, (fuel - 1) as nat);
        let rest = closure_chain(t, p, (fuel - 1) as nat);
        assert forall|k: nat| ancestor_at(t, s, k + 1) == ancestor_at(t, p, k) by {}
        match lambda_of(t, s) {
            Some(e) => {
                let c = ClosureScope { scope: t[s].id, expr: e };
                assert(cs == seq![c] + rest);
                assert(first_closure(cs) == Some(c));
                assert forall|j: nat| j < 0 implies #[trigger] no_lambda_at(t, s, j) by {}
                assert forall|i: int| 0 <= i < cs.len() implies is_outer_closure(
                    t,
                    (#[trigger] cs[i]).scope.0 as int,
                    next_closure(cs, i),
                ) by {
                    if i == 0 {
                        assert(next_closure(cs, 0) == first_closure(rest));
                    } else {
                        assert(cs[i] == rest[i - 1]);
                        assert(next_closure(cs, i) == next_closure(rest, i - 1));
                    }
                }
            },
            None => {
                assert(cs =~= rest);
                match first_closure(rest) {
                    Some(c) => {
                        let k = choose|k: nat|
                            {
                                &&& #[trigger] ancestor_at(t, p, k) == Some(c.scope.0 as int)
                                &&& lambda_of(t, c.scope.0 as int) == Some(c.expr)
                                &&& forall|j: nat| j < k ==> #[trigger] no_lambda_at(t, p, j)
                            };
                        assert(ancestor_at(t, s, k + 1) == Some(c.scope.0 as int));
                        assert forall|j: nat| j < k + 1 implies #[trigger] no_lambda_at(t, s, j) by {
                            if j > 0 {
                                assert(ancestor_at(t, s, j) == ancestor_at(t, p, (j - 1) as nat));
                                assert(no_lambda_at(t, p, (j - 1) as nat));
                            }
                        }
                    },
                    None => {
                        assert forall|k: nat| #[trigger] no_lambda_at(t, s, k) by {
                            if k > 0 {
                                assert(ancestor_at(t, s, k) == ancestor_at(t, p, (k - 1) as nat));
                                assert(no_lambda_at(t, p, (k - 1) as nat));
                            }
                        }
                    },
                }
            },
        }
    }
}

/// In a scope forest, the closure scopes around `s`, nearest first, are what the
/// closure queries walk: the first is the nearest closure of `s`, and the outer closure of
/// each is the next.
pub proof fn law_closure_chain(t: Seq<Scope>, s: int)
    requires
        numbered(t),
        is_forest(t),
        0 <= s < t.len(),
    ensures
        is_nearest_closure(t, s, first_closure(closure_chain(t, s, t.len() as nat))),
        forall|i: int|
            0 <= i < closure_chain(t, s, t.len() as nat).len() ==> is_outer_closure(
                t,
                (#[trigger] closure_chain(t, s, t.len() as nat)[i]).scope.0 as int,
                next_closure(closure_chain(t, s, t.len() as nat), i),
            ),
{
    assert(rooted(t, s));
    let k = choose|k: nat| #[trigger] ancestor_at(t, s, k) matches Some(r) && parent_index(t, r) is None;
    assert forall|j: nat| j <= k implies (#[trigger] ancestor_at(t, s, j) matches Some(x) && 0 <= x < t.len()) by {
        lemma_some_before(t, s, k, j);
        lemma_ancestor_in_range(t, s, j);
    }
    assert(chain_ends_at(t, s, k));
    lemma_chain_short(t, s, k);
    lemma_ancestor_step(t, s, k);
    if ancestor_at(t, s, t.len() as nat + 1) is Some {
        lemma_some_before(t, s, t.len() as nat + 1, k + 1);
    }
    lemma_closure_chain(t, s, t.len() as nat);
}

/// The sorted field names of a record type are unique: two increasing lists of the same
/// names are the same list.
pub proof fn law_sorted_names_unique(a: Seq<Seq<char>>, b: Seq<Seq<char>>)
    requires
        names_increasing(a),
        names_increasing(b),
        a.to_set() == b.to_set(),
    ensures
        a == b,
{
    crate::records::lemma_sorted_unique(a, b);
}

} // verus!
