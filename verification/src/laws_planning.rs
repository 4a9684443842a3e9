//! What the planning tables hold, stated over the checked program itself: which locals a
//! closure captures, which scopes are frames, which intrinsics the entry reaches, which
//! actions the host mediates, and which top-level lets are constants or resources.
use vstd::prelude::*;

use crate::actions::{mediated_defaults, mediated_requested, row_actions, summary_of};
use crate::captures::{closure_captures, closures_fit, declares, expr_scope, expr_uses, shorthand_uses};
use crate::dispatch::{ident_at, IntrinsicDispatchTable, StdIntrinsicIdentity};
use crate::frames::{callables, frame_set, handler_callables, impl_callables, item_callables, items_callables};
use crate::ids::{HirExprId, ScopeId, SymbolId};
use crate::laws::{law_closure_sets, sole_scope_of, used_below_declared_above};
use crate::plan::{const_symbols, resource_symbols};
use crate::program::{
    CheckedProject, HirExpr, HirFieldInit, HirImplItem, HirItem, ResolveResult, SymbolData, SymbolDef,
    TopLevelLetClassification,
};
use crate::scope_tree::is_ancestor;

verus! {

// ---------------------------------------------------------------------------
// Closures.

/// `ex` reads `x` directly: a path resolved to `x`, a path whose resolved prefix is `x`
/// (a member access such as `x.field`), or a record shorthand field resolved either way.
pub open spec fn reads_local(ex: HirExpr, x: SymbolId) -> bool {
    ||| ex matches HirExpr::Path(path) && resolves_to(path.resolution, x)
    ||| ex matches HirExpr::Record(r) && exists|f: int|
        0 <= f < r.fields@.len() && (#[trigger] r.fields@[f] matches HirFieldInit::Shorthand { resolution, .. }
            && resolves_to(resolution, x))
}

/// A resolution reaches `x` in full or through its resolved prefix.
pub open spec fn resolves_to(r: ResolveResult, x: SymbolId) -> bool {
    ||| r == ResolveResult::Resolved(x)
    ||| r matches ResolveResult::PartiallyResolved(pr) && pr.resolved_prefix == Some(x)
}

/// The shorthand fields read every local they resolve to, in full or by prefix.
proof fn lemma_shorthand_reads(fields: Seq<HirFieldInit>, f: int, x: SymbolId)
    requires
        0 <= f < fields.len(),
        fields[f] matches HirFieldInit::Shorthand { resolution, .. } && resolves_to(resolution, x),
    ensures
        shorthand_uses(fields).contains(x),
    decreases fields.len(),
{
    let rest = shorthand_uses(fields.drop_last());
    if f < fields.len() - 1 {
        lemma_shorthand_reads(fields.drop_last(), f, x);
        let k = choose|k: int| 0 <= k < rest.len() && rest[k] == x;
        match fields.last() {
            HirFieldInit::Shorthand { resolution, .. } => match crate::captures::use_symbol(resolution) {
                Some(y) => {
                    assert(shorthand_uses(fields) == rest.push(y));
                    assert(shorthand_uses(fields)[k] == x);
                },
                None => {},
            },
            _ => {},
        }
    } else {
        assert(fields.last() == fields[f]);
        assert(shorthand_uses(fields) == rest.push(x));
        assert(shorthand_uses(fields)[rest.len() as int] == x);
    }
}

/// An expression that reads `x` counts `x` among its uses.
pub proof fn law_reads_are_uses(ex: HirExpr, x: SymbolId)
    requires
        reads_local(ex, x),
    ensures
        expr_uses(ex).contains(x),
{
    match ex {
        HirExpr::Path(path) => {
            assert(expr_uses(ex) == seq![x]);
            assert(expr_uses(ex)[0] == x);
        },
        HirExpr::Record(r) => {
            let f = choose|f: int|
                0 <= f < r.fields@.len() && (#[trigger] r.fields@[f] matches HirFieldInit::Shorthand {
                    resolution,
                    ..
                } && resolves_to(resolution, x));
            lemma_shorthand_reads(r.fields@, f, x);
        },
        _ => {},
    }
}

/// A lambda captures every local that an expression inside its scope reads, by a path in
/// full, by the resolved prefix of a member path, or by a record shorthand field, when that
/// local is declared strictly above the lambda's scope.
pub proof fn law_read_locals_are_captured(
    p: CheckedProject,
    sl: Seq<SymbolId>,
    e: HirExprId,
    l: int,
    i: int,
    x: SymbolId,
    d: int,
)
    requires
        closures_fit(p, sl),
        sole_scope_of(p.hir.scopes@, e, l),
        0 <= i < p.hir.exprs@.len(),
        reads_local(p.hir.exprs@[i], x),
        expr_scope(p, i) matches Some(s) && is_ancestor(p.hir.scopes@, l, s.0 as int),
        sl.contains(x),
        declares(p.hir.scopes@, d, x),
        d != l,
        is_ancestor(p.hir.scopes@, d, l),
    ensures
        closure_captures(p, sl, e).contains(x),
{
    law_reads_are_uses(p.hir.exprs@[i], x);
    law_closure_sets(p, sl, e, l);
    assert(used_below_declared_above(p, sl, l).contains(x));
}

// ---------------------------------------------------------------------------
// Frames.

/// `item` declares a callable whose frame scope is `x`: a flow, tool or agent, or a flow
/// member of an `impl` block.
pub open spec fn item_frame_scope(item: HirItem, x: int) -> bool {
    match item {
        HirItem::Flow(f) => f.scope.0 == x,
        HirItem::Tool(f) => f.scope.0 == x,
        HirItem::Agent(f) => f.scope.0 == x,
        HirItem::Impl(members) => exists|m: int|
            0 <= m < members@.len() && (#[trigger] members@[m] matches HirImplItem::Flow(f) && f.scope.0 == x),
        _ => false,
    }
}

proof fn lemma_impl_scopes(members: Seq<HirImplItem>, x: int)
    ensures
        (exists|i: int| 0 <= i < impl_callables(members).len() && (#[trigger] impl_callables(members)[i]).0.0 == x)
            <==> exists|m: int| 0 <= m < members.len() && (#[trigger] members[m] matches HirImplItem::Flow(f) && f.scope.0 == x),
    decreases members.len(),
{
    if members.len() > 0 {
        let init = members.drop_last();
        lemma_impl_scopes(init, x);
        let a = impl_callables(init);
        let cs = impl_callables(members);
        let tail = match members.last() {
            HirImplItem::Flow(f) => seq![crate::frames::callable(f.scope, f.params@)],
            HirImplItem::Other => Seq::empty(),
        };
        assert(cs == a + tail);
        if exists|i: int| 0 <= i < cs.len() && (#[trigger] cs[i]).0.0 == x {
            let i = choose|i: int| 0 <= i < cs.len() && (#[trigger] cs[i]).0.0 == x;
            if i < a.len() {
                assert(cs[i] == a[i]);
                let m = choose|m: int| 0 <= m < init.len() && (#[trigger] init[m] matches HirImplItem::Flow(f) && f.scope.0 == x);
                assert(members[m] == init[m]);
            } else {
                assert(members[members.len() - 1] == members.last());
            }
        }
        if exists|m: int| 0 <= m < members.len() && (#[trigger] members[m] matches HirImplItem::Flow(f) && f.scope.0 == x) {
            let m = choose|m: int| 0 <= m < members.len() && (#[trigger] members[m] matches HirImplItem::Flow(f) && f.scope.0 == x);
            if m < members.len() - 1 {
                assert(init[m] == members[m]);
                let i = choose|i: int| 0 <= i < a.len() && (#[trigger] a[i]).0.0 == x;
                assert(cs[i] == a[i]);
            } else {
                assert(members.last() == members[m]);
                assert(cs[a.len() as int] == tail[0]);
            }
        }
    }
}

proof fn lemma_item_scopes(item: HirItem, x: int)
    ensures
        (exists|i: int| 0 <= i < item_callables(item).len() && (#[trigger] item_callables(item)[i]).0.0 == x)
            <==> item_frame_scope(item, x),
{
    match item {
        HirItem::Flow(f) => {
            assert(item_callables(item)[0].0 == f.scope);
        },
        HirItem::Tool(f) => {
            assert(item_callables(item)[0].0 == f.scope);
        },
        HirItem::Agent(f) => {
            assert(item_callables(item)[0].0 == f.scope);
        },
        HirItem::Impl(members) => {
            lemma_impl_scopes(members@, x);
        },
        _ => {},
    }
}

proof fn lemma_items_scopes(items: Seq<HirItem>, x: int)
    ensures
        (exists|i: int| 0 <= i < items_callables(items).len() && (#[trigger] items_callables(items)[i]).0.0 == x)
            <==> exists|k: int| 0 <= k < items.len() && #[trigger] item_frame_scope(items[k], x),
    decreases items.len(),
{
    if items.len() > 0 {
        let init = items.drop_last();
        lemma_items_scopes(init, x);
        lemma_item_scopes(items.last(), x);
        let a = items_callables(init);
        let b = item_callables(items.last());
        let cs = items_callables(items);
        assert(cs == a + b);
        if exists|i: int| 0 <= i < cs.len() && (#[trigger] cs[i]).0.0 == x {
            let i = choose|i: int| 0 <= i < cs.len() && (#[trigger] cs[i]).0.0 == x;
            if i < a.len() {
                assert(cs[i] == a[i]);
                let k = choose|k: int| 0 <= k < init.len() && #[trigger] item_frame_scope(init[k], x);
                assert(items[k] == init[k]);
            } else {
                assert(cs[i] == b[i - a.len()]);
                assert(items[items.len() - 1] == items.last());
            }
        }
        if exists|k: int| 0 <= k < items.len() && #[trigger] item_frame_scope(items[k], x) {
            let k = choose|k: int| 0 <= k < items.len() && #[trigger] item_frame_scope(items[k], x);
            if k < items.len() - 1 {
                assert(init[k] == items[k]);
                let i = choose|i: int| 0 <= i < a.len() && (#[trigger] a[i]).0.0 == x;
                assert(cs[i] == a[i]);
            } else {
                assert(items.last() == items[k]);
                let i = choose|i: int| 0 <= i < b.len() && (#[trigger] b[i]).0.0 == x;
                assert(cs[a.len() + i] == b[i]);
            }
        }
    }
}

/// The frame scopes are exactly the scopes of the flows, tools and agents, of the flow
/// members of `impl` blocks, and of the effect handler arms.
pub proof fn law_frame_scopes(p: CheckedProject, x: int)
    ensures
        frame_set(callables(p)).contains(x) <==> (
        (exists|k: int| 0 <= k < p.hir.items@.len() && #[trigger] item_frame_scope(p.hir.items@[k], x))
            || exists|k: int| 0 <= k < p.hir.handler_arms@.len() && (#[trigger] p.hir.handler_arms@[k]).scope.0 == x),
{
    let items = p.hir.items@;
    let arms = p.hir.handler_arms@;
    let a = items_callables(items);
    let h = handler_callables(arms);
    let cs = callables(p);
    assert(cs == a + h);
    lemma_items_scopes(items, x);
    if frame_set(cs).contains(x) {
        let i = choose|i: int| 0 <= i < cs.len() && (#[trigger] cs[i]).0.0 == x;
        if i < a.len() {
            assert(cs[i] == a[i]);
        } else {
            assert(cs[i] == h[i - a.len()]);
            assert(arms[i - a.len()].scope.0 == x);
        }
    }
    if exists|k: int| 0 <= k < items.len() && #[trigger] item_frame_scope(items[k], x) {
        let i = choose|i: int| 0 <= i < a.len() && (#[trigger] a[i]).0.0 == x;
        assert(cs[i] == a[i]);
    }
    if exists|k: int| 0 <= k < arms.len() && (#[trigger] arms[k]).scope.0 == x {
        let k = choose|k: int| 0 <= k < arms.len() && (#[trigger] arms[k]).scope.0 == x;
        assert(cs[a.len() + k] == h[k]);
    }
}

// ---------------------------------------------------------------------------
// Intrinsics the entry reaches.

/// Expression `j` of the `r`-th reachable item is a path resolved to import symbol `x`,
/// which stands for intrinsic `id`.
pub open spec fn reads_intrinsic(
    p: CheckedProject,
    ids: Seq<Option<StdIntrinsicIdentity>>,
    r: int,
    j: int,
    x: SymbolId,
    id: u32,
) -> bool {
    let items = p.reachability.reachable_items@;
    &&& 0 <= r < items.len()
    &&& items[r].0 < p.hir.item_exprs@.len()
    &&& 0 <= j < p.hir.item_exprs@[items[r].0 as int]@.len()
    &&& p.hir.item_exprs@[items[r].0 as int]@[j].0 < p.hir.exprs@.len()
    &&& p.hir.exprs@[p.hir.item_exprs@[items[r].0 as int]@[j].0 as int] == HirExpr::Path(
        crate::program::HirPath { resolution: ResolveResult::Resolved(x) },
    )
    &&& ident_at(ids, x) matches Some(i) && i.intrinsic.0 == id
}

/// Every intrinsic that an expression of any reachable item names through an import
/// symbol is in the table's reachable set, and nothing else is.
pub proof fn law_reachable_intrinsics(
    t: IntrinsicDispatchTable,
    p: CheckedProject,
    handlers: Seq<StdIntrinsicIdentity>,
    id: u32,
)
    requires
        t.describes(p, handlers),
    ensures
        t.reachable().contains(id) <==> exists|r: int, j: int, x: SymbolId|
            #[trigger] reads_intrinsic(p, t.identities(), r, j, x, id),
{
    let items = p.reachability.reachable_items@;
    if t.reachable().contains(id) {
        let (r, j) = choose|r: int, j: int|
            0 <= r < items.len() && 0 <= j < crate::dispatch::item_exprs_of(p, items[r]).len()
                && #[trigger] crate::dispatch::expr_intrinsic(
                p,
                t.identities(),
                crate::dispatch::item_exprs_of(p, items[r])[j],
            ) == Some(id);
        let e = crate::dispatch::item_exprs_of(p, items[r])[j];
        match p.hir.exprs@[e.0 as int] {
            HirExpr::Path(path) => match path.resolution {
                ResolveResult::Resolved(x) => {
                    assert(p.hir.exprs@[e.0 as int] == HirExpr::Path(
                        crate::program::HirPath { resolution: ResolveResult::Resolved(x) },
                    ));
                    assert(reads_intrinsic(p, t.identities(), r, j, x, id));
                },
                _ => {},
            },
            _ => {},
        }
    }
    if exists|r: int, j: int, x: SymbolId| #[trigger] reads_intrinsic(p, t.identities(), r, j, x, id) {
        let (r, j, x) = choose|r: int, j: int, x: SymbolId| #[trigger] reads_intrinsic(p, t.identities(), r, j, x, id);
        assert(crate::dispatch::expr_intrinsic(
            p,
            t.identities(),
            crate::dispatch::item_exprs_of(p, items[r])[j],
        ) == Some(id));
    }
}

// ---------------------------------------------------------------------------
// Action mediation.

/// The host mediates exactly the actions that the entry's summary requests, or that the
/// summary of a top-level `let` item requests; no other item contributes.
pub proof fn law_mediated_requests(p: CheckedProject, entry: crate::ids::ItemId, a: crate::program::ActionRef)
    ensures
        mediated_requested(p, entry).contains(a) <==> (row_actions(
            summary_of(p, entry.0 as int)->0.requested_actions.effects@,
        ).contains(a) || exists|i: int|
            0 <= i < p.hir.items@.len() && p.hir.items@[i] is TopLevelLet && summary_of(p, i) is Some
                && #[trigger] row_actions(summary_of(p, i)->0.requested_actions.effects@).contains(a)),
        mediated_defaults(p, entry).contains(a) <==> (row_actions(
            summary_of(p, entry.0 as int)->0.default_actions.effects@,
        ).contains(a) || exists|i: int|
            0 <= i < p.hir.items@.len() && p.hir.items@[i] is TopLevelLet && summary_of(p, i) is Some
                && #[trigger] row_actions(summary_of(p, i)->0.default_actions.effects@).contains(a)),
{
    if mediated_requested(p, entry).contains(a) && !row_actions(
        summary_of(p, entry.0 as int)->0.requested_actions.effects@,
    ).contains(a) {
        let i = choose|i: int|
            #[trigger] crate::actions::let_summary(p, i) && row_actions(
                summary_of(p, i)->0.requested_actions.effects@,
            ).contains(a);
        assert(row_actions(summary_of(p, i)->0.requested_actions.effects@).contains(a));
    }
    if exists|i: int|
        0 <= i < p.hir.items@.len() && p.hir.items@[i] is TopLevelLet && summary_of(p, i) is Some
            && #[trigger] row_actions(summary_of(p, i)->0.requested_actions.effects@).contains(a) {
        let i = choose|i: int|
            0 <= i < p.hir.items@.len() && p.hir.items@[i] is TopLevelLet && summary_of(p, i) is Some
                && #[trigger] row_actions(summary_of(p, i)->0.requested_actions.effects@).contains(a);
        assert(crate::actions::let_summary(p, i));
    }
    if mediated_defaults(p, entry).contains(a) && !row_actions(
        summary_of(p, entry.0 as int)->0.default_actions.effects@,
    ).contains(a) {
        let i = choose|i: int|
            #[trigger] crate::actions::let_summary(p, i) && row_actions(
                summary_of(p, i)->0.default_actions.effects@,
            ).contains(a);
        assert(row_actions(summary_of(p, i)->0.default_actions.effects@).contains(a));
    }
    if exists|i: int|
        0 <= i < p.hir.items@.len() && p.hir.items@[i] is TopLevelLet && summary_of(p, i) is Some
            && #[trigger] row_actions(summary_of(p, i)->0.default_actions.effects@).contains(a) {
        let i = choose|i: int|
            0 <= i < p.hir.items@.len() && p.hir.items@[i] is TopLevelLet && summary_of(p, i) is Some
                && #[trigger] row_actions(summary_of(p, i)->0.default_actions.effects@).contains(a);
        assert(crate::actions::let_summary(p, i));
    }
}

// ---------------------------------------------------------------------------
// Globals and resources.

/// The top-level `let` is classified as a constant.
pub open spec fn is_const_let(s: SymbolData) -> bool {
    s.def matches SymbolDef::TopLevelLet { classification: TopLevelLetClassification::Const, .. }
}

/// The top-level `let` is classified as a resource handle.
pub open spec fn is_resource_let(s: SymbolData) -> bool {
    s.def matches SymbolDef::TopLevelLet { classification: TopLevelLetClassification::ResourceHandle(_), .. }
}

/// The global table lists the top-level `let`s classified as constants and nothing else.
#[verifier::spinoff_prover]
pub proof fn law_global_constants(symbols: Seq<SymbolData>)
    ensures
        forall|x: SymbolId|
            #[trigger] const_symbols(symbols).contains(x) ==> exists|i: int|
                0 <= i < symbols.len() && symbols[i].id == x && #[trigger] is_const_let(symbols[i]),
        forall|i: int|
            0 <= i < symbols.len() && #[trigger] is_const_let(symbols[i]) ==> const_symbols(symbols).contains(symbols[i].id),
    decreases symbols.len(),
{
    if symbols.len() > 0 {
        let init = symbols.drop_last();
        law_global_constants(init);
        let n = symbols.len() - 1;
        assert(symbols[n] == symbols.last());
        let c0 = const_symbols(init);
        let c = const_symbols(symbols);
        assert forall|x: SymbolId|
            #[trigger] const_symbols(symbols).contains(x) implies exists|i: int|
                0 <= i < symbols.len() && symbols[i].id == x && #[trigger] is_const_let(symbols[i]) by {
            let q = choose|q: int| 0 <= q < c.len() && c[q] == x;
            if q < c0.len() {
                assert(c0.contains(x));
                assert(c[q] == c0[q]);
                let i = choose|i: int| 0 <= i < init.len() && init[i].id == x && #[trigger] is_const_let(init[i]);
                assert(symbols[i] == init[i]);
            } else {
                assert(is_const_let(symbols.last()));
                assert(c == c0.push(symbols.last().id));
                assert(symbols[n].id == x && is_const_let(symbols[n]));
            }
        }
        assert forall|i: int| 0 <= i < symbols.len() && #[trigger] is_const_let(symbols[i]) implies c.contains(symbols[i].id) by {
            if i < n {
                assert(init[i] == symbols[i]);
                assert(c0.contains(symbols[i].id));
                let q = choose|q: int| 0 <= q < c0.len() && c0[q] == symbols[i].id;
                if is_const_let(symbols.last()) {
                    assert(c[q] == c0[q]);
                } else {
                    assert(c == c0);
                }
            } else {
                assert(c == c0.push(symbols.last().id));
                assert(c[c0.len() as int] == symbols[i].id);
            }
        }
    } else {
        assert(const_symbols(symbols).len() == 0);
    }
}

/// The resource table lists the top-level `let`s classified as resource handles and nothing else.
#[verifier::spinoff_prover]
pub proof fn law_resource_handles(symbols: Seq<SymbolData>)
    ensures
        forall|x: SymbolId|
            #[trigger] resource_symbols(symbols).contains(x) ==> exists|i: int|
                0 <= i < symbols.len() && symbols[i].id == x && #[trigger] is_resource_let(symbols[i]),
        forall|i: int|
            0 <= i < symbols.len() && #[trigger] is_resource_let(symbols[i]) ==> resource_symbols(symbols).contains(symbols[i].id),
    decreases symbols.len(),
{
    if symbols.len() > 0 {
        let init = symbols.drop_last();
        law_resource_handles(init);
        let n = symbols.len() - 1;
        assert(symbols[n] == symbols.last());
        let c0 = resource_symbols(init);
        let c = resource_symbols(symbols);
        assert forall|x: SymbolId|
            #[trigger] resource_symbols(symbols).contains(x) implies exists|i: int|
                0 <= i < symbols.len() && symbols[i].id == x && #[trigger] is_resource_let(symbols[i]) by {
            let q = choose|q: int| 0 <= q < c.len() && c[q] == x;
            if q < c0.len() {
                assert(c0.contains(x));
                assert(c[q] == c0[q]);
                let i = choose|i: int| 0 <= i < init.len() && init[i].id == x && #[trigger] is_resource_let(init[i]);
                assert(symbols[i] == init[i]);
            } else {
                assert(is_resource_let(symbols.last()));
                assert(c == c0.push(symbols.last().id));
                assert(symbols[n].id == x && is_resource_let(symbols[n]));
            }
        }
        assert forall|i: int| 0 <= i < symbols.len() && #[trigger] is_resource_let(symbols[i]) implies c.contains(symbols[i].id) by {
            if i < n {
                assert(init[i] == symbols[i]);
                assert(c0.contains(symbols[i].id));
                let q = choose|q: int| 0 <= q < c0.len() && c0[q] == symbols[i].id;
                if is_resource_let(symbols.last()) {
                    assert(c[q] == c0[q]);
                } else {
                    assert(c == c0);
                }
            } else {
                assert(c == c0.push(symbols.last().id));
                assert(c[c0.len() as int] == symbols[i].id);
            }
        }
    } else {
        assert(resource_symbols(symbols).len() == 0);
    }
}

} // verus!
