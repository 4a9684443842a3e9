//! Closure layouts: the slots of a lambda body hold its own locals and the
//! locals it captures from enclosing scopes.
use std::collections::{BTreeSet, HashMap};
use vstd::prelude::*;

use crate::ids::{HirExprId, ScopeId, SymbolId};
use crate::program::{CheckedProject, HirExpr, HirFieldInit, ResolveResult};
use crate::scope_tree::{
    ancestor_at, lambda_of, lemma_ancestor_compose, parent_index, Scope, ScopeOwner, ScopeTree,
};
use crate::slots::SlotLayoutTable;
use crate::text::{decimal, with_number, with_two_numbers};

verus! {

broadcast use vstd::std_specs::hash::group_hash_axioms;

/// The first `k + 1` scopes of the chain from `s` exist.
pub open spec fn chain_in_range(t: Seq<Scope>, s: int, k: nat) -> bool {
    forall|j: nat| j <= k ==> (#[trigger] ancestor_at(t, s, j) matches Some(x) && 0 <= x < t.len())
}

/// The chain from `s` ends at step `k` in a scope without a parent.
pub open spec fn chain_ends_at(t: Seq<Scope>, s: int, k: nat) -> bool {
    &&& chain_in_range(t, s, k)
    &&& parent_index(t, ancestor_at(t, s, k)->0) is None
}

/// The chain from `s` reaches a root through existing scopes.
pub open spec fn chain_ok(t: Seq<Scope>, s: int) -> bool {
    exists|k: nat| #[trigger] chain_ends_at(t, s, k)
}

/// The chain from `s` reaches a scope that does not exist.
pub open spec fn chain_missing(t: Seq<Scope>, s: int) -> bool {
    exists|k: nat|
        (#[trigger] ancestor_at(t, s, k) matches Some(x) && !(0 <= x < t.len())) && (k == 0
            || chain_in_range(t, s, (k - 1) as nat))
}

/// What walking the chain from `s` reports when it fails.
pub open spec fn chain_error(t: Seq<Scope>, s: int, m: Seq<char>) -> bool {
    if chain_missing(t, s) {
        !chain_ok(t, s) && m == "missing closure scope"@
    } else {
        !chain_ok(t, s) && m == "cyclic closure scope ancestry"@
    }
}

/// A chain that revisits a scope runs forever through existing scopes.
proof fn lemma_chain_cycle(t: Seq<Scope>, s: int, j: nat, k: nat, m: nat)
    requires
        j < k,
        chain_in_range(t, s, k),
        ancestor_at(t, s, j) == ancestor_at(t, s, k),
    ensures
        (ancestor_at(t, s, m) matches Some(x) && 0 <= x < t.len()),
    decreases m,
{
    if m <= k {
        assert(ancestor_at(t, s, m) matches Some(x) && 0 <= x < t.len());
    } else {
        let d = (m - k) as nat;
        lemma_ancestor_compose(t, s, k, d);
        lemma_ancestor_compose(t, s, j, d);
        lemma_chain_cycle(t, s, j, k, (j + d) as nat);
    }
}

proof fn lemma_cycle_not_ok(t: Seq<Scope>, s: int, j: nat, k: nat)
    requires
        j < k,
        chain_in_range(t, s, k),
        ancestor_at(t, s, j) == ancestor_at(t, s, k),
    ensures
        !chain_ok(t, s),
        !chain_missing(t, s),
{
    if chain_ok(t, s) {
        let e = choose|e: nat| #[trigger] chain_ends_at(t, s, e);
        lemma_chain_cycle(t, s, j, k, e + 1);
        crate::scope_tree::lemma_ancestor_step(t, s, e);
    }
    if chain_missing(t, s) {
        let e = choose|e: nat|
            (#[trigger] ancestor_at(t, s, e) matches Some(x) && !(0 <= x < t.len())) && (e == 0
                || chain_in_range(t, s, (e - 1) as nat));
        lemma_chain_cycle(t, s, j, k, e);
    }
}

/// A chain that reaches a missing scope never reaches a root.
proof fn lemma_missing_not_ok(t: Seq<Scope>, s: int)
    requires
        chain_missing(t, s),
    ensures
        !chain_ok(t, s),
{
    if chain_ok(t, s) {
        let e = choose|e: nat| #[trigger] chain_ends_at(t, s, e);
        let k = choose|k: nat|
            (#[trigger] ancestor_at(t, s, k) matches Some(x) && !(0 <= x < t.len())) && (k == 0
                || chain_in_range(t, s, (k - 1) as nat));
        if k <= e {
            assert(ancestor_at(t, s, k) matches Some(x) && 0 <= x < t.len());
        } else {
            crate::scope_tree::lemma_ancestor_step(t, s, e);
            lemma_ancestor_none_after(t, s, e + 1, k);
        }
    }
}

/// The scopes from `start` up to its root, in order.
pub fn scope_chain(scopes: &ScopeTree, start: ScopeId) -> (r: Result<Vec<usize>, String>)
    ensures
        match r {
            Ok(chain) => {
                &&& 0 < chain@.len() <= scopes@.len()
                &&& chain_ends_at(scopes@, start.0 as int, (chain@.len() - 1) as nat)
                &&& forall|j: int|
                    0 <= j < chain@.len() ==> ancestor_at(scopes@, start.0 as int, j as nat) == Some(
                        #[trigger] chain@[j] as int,
                    )
            },
            Err(m) => chain_error(scopes@, start.0 as int, m@),
        },
{
    let n = scopes.len();
    let ghost t = scopes@;
    let ghost s = start.0 as int;
    let mut seen: Vec<bool> = Vec::new();
    for i in 0..n
        invariant
            seen@.len() == i,
            forall|k: int| 0 <= k < i ==> !(#[trigger] seen@[k]),
    {
        seen.push(false);
    }
    let mut result: Vec<usize> = Vec::new();
    let mut current: Option<usize> = Some(start.0 as usize);
    proof {
        assert(ancestor_at(t, s, 0) == Some(s));
    }
    loop
        invariant
            n == t.len(),
            t == scopes@,
            s == start.0 as int,
            seen@.len() == n,
            result@.len() <= n,
            current is Some <==> ancestor_at(t, s, result@.len() as nat) is Some,
            current matches Some(c) ==> ancestor_at(t, s, result@.len() as nat) == Some(c as int),
            result@.len() == 0 ==> current is Some,
            result@.len() > 0 ==> chain_in_range(t, s, (result@.len() - 1) as nat),
            forall|j: int|
                0 <= j < result@.len() ==> ancestor_at(t, s, j as nat) == Some(
                    #[trigger] result@[j] as int,
                ) && result@[j] < n,
            forall|x: int| 0 <= x < n ==> (#[trigger] seen@[x] <==> result@.contains(x as usize)),
            forall|a: int, b: int| 0 <= a < b < result@.len() ==> result@[a] != result@[b],
        decreases n - result@.len(),
    {
        let k = result.len();
        match current {
            None => {
                proof {
                    let last = (k - 1) as nat;
                    crate::scope_tree::lemma_ancestor_step(t, s, last);
                    assert(chain_ends_at(t, s, last));
                }
                return Ok(result);
            },
            Some(id) => {
                if id < n && seen[id] {
                    proof {
                        let j = choose|j: int| 0 <= j < result@.len() && result@[j] == id;
                        assert(ancestor_at(t, s, k as nat) == Some(id as int));
                        assert forall|i: nat| i <= k implies (#[trigger] ancestor_at(t, s, i) matches Some(x)
                            && 0 <= x < t.len()) by {
                            if i < k {
                                assert(ancestor_at(t, s, i) == Some(result@[i as int] as int));
                            }
                        }
                        lemma_cycle_not_ok(t, s, j as nat, k as nat);
                    }
                    return Err("cyclic closure scope ancestry".to_owned());
                }
                if id >= n {
                    proof {
                        assert(chain_missing(t, s));
                        lemma_missing_not_ok(t, s);
                    }
                    return Err("missing closure scope".to_owned());
                }
                let ghost r0 = result@;
                seen.set(id, true);
                result.push(id);
                current = match scopes.at(id).parent {
                    Some(p) => Some(p.0 as usize),
                    None => None,
                };
                proof {
                    crate::scope_tree::lemma_ancestor_step(t, s, k as nat);
                    assert forall|j: nat| j <= k implies (#[trigger] ancestor_at(t, s, j) matches Some(x)
                        && 0 <= x < t.len()) by {
                        if j < k {
                            assert(ancestor_at(t, s, j) == Some(r0[j as int] as int));
                        } else {
                            assert(ancestor_at(t, s, k as nat) == Some(id as int));
                        }
                    }
                    assert(chain_in_range(t, s, k as nat));
                    assert forall|x: int| 0 <= x < n implies (#[trigger] seen@[x] <==> result@.contains(
                        x as usize,
                    )) by {
                        if x == id {
                            assert(result@[k as int] == id);
                        } else if r0.contains(x as usize) {
                            let a = choose|a: int| 0 <= a < r0.len() && r0[a] == x as usize;
                            assert(result@[a] == x as usize);
                        } else if result@.contains(x as usize) {
                            let a = choose|a: int| 0 <= a < result@.len() && result@[a] == x as usize;
                            assert(a != k);
                            assert(r0[a] == x as usize);
                        }
                    }
                    // the chain visits distinct existing scopes, so it is no longer than n
                    lemma_seen_count(seen@, result@);
                }
            },
        }
    }
}

/// Distinct chain entries, all marked in `seen`, are no more than `seen` is long.
pub proof fn lemma_seen_count(seen: Seq<bool>, result: Seq<usize>)
    requires
        forall|x: int| 0 <= x < seen.len() ==> (#[trigger] seen[x] <==> result.contains(x as usize)),
        forall|j: int| 0 <= j < result.len() ==> (#[trigger] result[j]) < seen.len(),
        forall|a: int, b: int| 0 <= a < b < result.len() ==> result[a] != result[b],
    ensures
        result.len() <= seen.len(),
{
    let r = result.map_values(|v: usize| v as int);
    assert(r.no_duplicates()) by {
        assert forall|a: int, b: int| 0 <= a < r.len() && 0 <= b < r.len() && a != b implies r[a] != r[b] by {
            if a < b {
                assert(result[a] != result[b]);
            } else {
                assert(result[b] != result[a]);
            }
        }
    }
    r.unique_seq_to_set();
    vstd::set_lib::lemma_int_range(0, seen.len() as int);
    assert(r.to_set().subset_of(vstd::set_lib::set_int_range(0, seen.len() as int))) by {
        assert forall|v: int| r.to_set().contains(v) implies vstd::set_lib::set_int_range(0, seen.len() as int).contains(v) by {
            let a = choose|a: int| 0 <= a < r.len() && r[a] == v;
            assert(result[a] < seen.len());
        }
    }
    vstd::set_lib::lemma_len_subset(r.to_set(), vstd::set_lib::set_int_range(0, seen.len() as int));
}


/// The symbol that a resolution lets a use read: the whole path, or its resolved prefix.
pub open spec fn use_symbol(r: ResolveResult) -> Option<SymbolId> {
    match r {
        ResolveResult::Resolved(x) => Some(x),
        ResolveResult::PartiallyResolved(p) => p.resolved_prefix,
        ResolveResult::Unresolved => None,
    }
}

/// The symbols read by the shorthand fields of a record literal, in order.
pub open spec fn shorthand_uses(fields: Seq<HirFieldInit>) -> Seq<SymbolId>
    decreases fields.len(),
{
    if fields.len() == 0 {
        Seq::empty()
    } else {
        let rest = shorthand_uses(fields.drop_last());
        match fields.last() {
            HirFieldInit::Shorthand { resolution, .. } => match use_symbol(resolution) {
                Some(x) => rest.push(x),
                None => rest,
            },
            _ => rest,
        }
    }
}

/// The symbols an expression reads directly, in order.
pub open spec fn expr_uses(ex: HirExpr) -> Seq<SymbolId> {
    match ex {
        HirExpr::Path(p) => match use_symbol(p.resolution) {
            Some(x) => seq![x],
            None => Seq::empty(),
        },
        HirExpr::Record(r) => shorthand_uses(r.fields@),
        _ => Seq::empty(),
    }
}

fn use_symbol_of(r: &ResolveResult) -> (x: Option<SymbolId>)
    ensures
        x == use_symbol(*r),
{
    match r {
        ResolveResult::Resolved(x) => Some(*x),
        ResolveResult::PartiallyResolved(p) => p.resolved_prefix,
        ResolveResult::Unresolved => None,
    }
}

/// The symbols an expression reads directly, in order.
pub fn uses_of(ex: &HirExpr) -> (v: Vec<SymbolId>)
    ensures
        v@ == expr_uses(*ex),
{
    match ex {
        HirExpr::Path(p) => match use_symbol_of(&p.resolution) {
            Some(x) => vec![x],
            None => Vec::new(),
        },
        HirExpr::Record(r) => {
            let mut v: Vec<SymbolId> = Vec::new();
            for i in 0..r.fields.len()
                invariant
                    v@ == shorthand_uses(r.fields@.take(i as int)),
            {
                proof {
                    assert(r.fields@.take(i + 1).drop_last() =~= r.fields@.take(i as int));
                }
                if let HirFieldInit::Shorthand { resolution, .. } = &r.fields[i] {
                    if let Some(x) = use_symbol_of(resolution) {
                        v.push(x);
                    }
                }
            }
            proof {
                assert(r.fields@.take(r.fields@.len() as int) =~= r.fields@);
            }
            v
        },
        _ => Vec::new(),
    }
}

/// Identifiers in strictly increasing order.
pub open spec fn increasing(s: Seq<SymbolId>) -> bool {
    forall|i: int, j: int| 0 <= i < j < s.len() ==> (#[trigger] s[i]).0 < (#[trigger] s[j]).0
}

/// The symbols whose numbers are in `keys`.
pub open spec fn symbols_in(keys: Set<u32>) -> Set<SymbolId> {
    Set::new(|x: SymbolId| keys.contains(x.0))
}

/// Adds `x` to the set at position `e`.
fn add_to(lists: &mut Vec<BTreeSet<u32>>, e: usize, x: SymbolId)
    requires
        e < old(lists)@.len(),
    ensures
        final(lists)@.len() == old(lists)@.len(),
        forall|i: int| 0 <= i < old(lists)@.len() && i != e ==> final(lists)@[i] == old(lists)@[i],
        symbols_in(final(lists)@[e as int]@) == symbols_in(old(lists)@[e as int]@).insert(x),
{
    let mut inner: BTreeSet<u32> = BTreeSet::new();
    std::mem::swap(&mut inner, &mut lists[e]);
    let ghost before = inner@;
    proof {
        crate::keys::lemma_u32_keys_ordered();
    }
    inner.insert(x.0);
    proof {
        assert(symbols_in(inner@) =~= symbols_in(before).insert(x));
    }
    lists.set(e, inner);
}


/// The closure that owns `s` or its nearest owning ancestor, looking at most `k` links up.
pub open spec fn lambda_above(t: Seq<Scope>, s: int, k: nat) -> Option<HirExprId>
    decreases k,
{
    match lambda_of(t, s) {
        Some(e) => Some(e),
        None => if k == 0 {
            None
        } else {
            match parent_index(t, s) {
                Some(p) => lambda_above(t, p, (k - 1) as nat),
                None => None,
            }
        },
    }
}

/// The closures crossed on the way up from `s` before reaching `d`, looking at most `k`
/// links up.
pub open spec fn lambdas_below(t: Seq<Scope>, s: int, d: int, k: nat) -> Set<HirExprId>
    decreases k,
{
    if s == d {
        Set::empty()
    } else {
        let here = match lambda_of(t, s) {
            Some(e) => set![e],
            None => Set::empty(),
        };
        if k == 0 {
            here
        } else {
            match parent_index(t, s) {
                Some(p) => here.union(lambdas_below(t, p, d, (k - 1) as nat)),
                None => here,
            }
        }
    }
}

/// Once a chain has ended, it stays ended.
proof fn lemma_ancestor_none_after(t: Seq<Scope>, s: int, k: nat, m: nat)
    requires
        ancestor_at(t, s, k) is None,
        k <= m,
    ensures
        ancestor_at(t, s, m) is None,
    decreases m - k,
{
    if k < m {
        lemma_ancestor_none_after(t, s, k, (m - 1) as nat);
        crate::scope_tree::lemma_ancestor_none_step(t, s, (m - 1) as nat);
    }
}

/// A chain as `scope_chain` returns it.
pub open spec fn is_chain(t: Seq<Scope>, s: int, chain: Seq<usize>) -> bool {
    &&& 0 < chain.len() <= t.len()
    &&& chain_ends_at(t, s, (chain.len() - 1) as nat)
    &&& forall|j: int|
        0 <= j < chain.len() ==> ancestor_at(t, s, j as nat) == Some(#[trigger] chain[j] as int)
}

/// The closure nearest to the start of a chain.
fn chain_closure(scopes: &ScopeTree, chain: &Vec<usize>, Ghost(s): Ghost<int>) -> (r: Option<
    HirExprId,
>)
    requires
        is_chain(scopes@, s, chain@),
    ensures
        r == lambda_above(scopes@, s, scopes@.len() as nat),
{
    let ghost t = scopes@;
    let ghost big = t.len() as nat;
    let n = chain.len();
    let mut j: usize = 0;
    proof {
        assert(ancestor_at(t, s, 0) == Some(s));
    }
    while j < n
        invariant
            t == scopes@,
            big == t.len(),
            is_chain(t, s, chain@),
            n == chain@.len(),
            j <= n,
            j < n ==> lambda_above(t, s, big) == lambda_above(t, chain@[j as int] as int, (big
                - j) as nat),
            j == n ==> lambda_above(t, s, big) is None,
        decreases n - j,
    {
        let c = chain[j];
        proof {
            assert(ancestor_at(t, s, j as nat) == Some(c as int));
            assert(chain_in_range(t, s, (n - 1) as nat));
            assert(ancestor_at(t, s, j as nat) matches Some(x) && 0 <= x < t.len());
        }
        match scopes.at(c).owner {
            ScopeOwner::Lambda(e) => {
                return Some(e);
            },
            _ => {},
        }
        proof {
            crate::scope_tree::lemma_ancestor_step(t, s, j as nat);
            if j + 1 < n {
                assert(ancestor_at(t, s, (j + 1) as nat) == Some(chain@[j + 1] as int));
                assert(parent_index(t, c as int) == Some(chain@[j + 1] as int));
            } else {
                assert(parent_index(t, c as int) is None);
            }
        }
        j = j + 1;
    }
    None
}


/// `e` names a lambda expression of the program.
pub open spec fn is_lambda_expr(exprs: Seq<HirExpr>, e: HirExprId) -> bool {
    e.0 < exprs.len() && exprs[e.0 as int] is Lambda
}

/// The report for a use of `x` in `e` that its declaration does not enclose.
pub open spec fn outside_message(x: SymbolId, e: HirExprId) -> Seq<char> {
    "local symbol SymbolId("@ + decimal(x.0 as nat) + ") is outside the lexical scope of HirExprId("@
        + decimal(e.0 as nat) + ")"@
}


/// Records a use of `x` from the scopes of `chain` with declaration `d`: every closure
/// crossed on the way up to `d` captures `x`.
fn record_use(
    scopes: &ScopeTree,
    exprs: &Vec<HirExpr>,
    chain: &Vec<usize>,
    Ghost(s): Ghost<int>,
    d: usize,
    x: SymbolId,
    expr: HirExprId,
    captures: &mut Vec<BTreeSet<u32>>,
) -> (r: Result<(), String>)
    requires
        is_chain(scopes@, s, chain@),
        old(captures)@.len() == exprs@.len(),
    ensures
        final(captures)@.len() == exprs@.len(),
        match r {
            Ok(()) => {
                &&& crate::scope_tree::is_ancestor(scopes@, d as int, s)
                &&& forall|e: HirExprId|
                    #[trigger] lambdas_below(scopes@, s, d as int, scopes@.len() as nat).contains(e)
                        ==> is_lambda_expr(exprs@, e)
                &&& forall|e: HirExprId|
                    e.0 < exprs@.len() ==> symbols_in((#[trigger] final(captures)@[e.0 as int])@) == if lambdas_below(
                        scopes@,
                        s,
                        d as int,
                        scopes@.len() as nat,
                    ).contains(e) {
                        symbols_in(old(captures)@[e.0 as int]@).insert(x)
                    } else {
                        symbols_in(old(captures)@[e.0 as int]@)
                    }
            },
            Err(m) => if exists|e: HirExprId|
                #[trigger] lambdas_below(scopes@, s, d as int, scopes@.len() as nat).contains(e)
                    && !is_lambda_expr(exprs@, e) {
                m@ == no_expression_message()
            } else {
                !crate::scope_tree::is_ancestor(scopes@, d as int, s) && m@ == outside_message(x, expr)
            },
        },
{
    let ghost t = scopes@;
    let ghost big = t.len() as nat;
    let ghost below = lambdas_below(t, s, d as int, big);
    let ghost start = captures@;
    let n = chain.len();
    let mut j: usize = 0;
    let ghost mut seen: Set<HirExprId> = Set::empty();
    while j < n
        invariant
            t == scopes@,
            big == t.len(),
            below == lambdas_below(t, s, d as int, big),
            is_chain(t, s, chain@),
            n == chain@.len(),
            j <= n,
            captures@.len() == exprs@.len(),
            start == old(captures)@,
            start.len() == exprs@.len(),
            forall|i: int| 0 <= i < j ==> chain@[i] != d,
            forall|e: HirExprId| #[trigger] seen.contains(e) ==> is_lambda_expr(exprs@, e),
            j < n ==> below == seen.union(
                lambdas_below(t, chain@[j as int] as int, d as int, (big - j) as nat),
            ),
            j == n ==> below == seen,
            forall|e: HirExprId|
                e.0 < exprs@.len() ==> symbols_in((#[trigger] captures@[e.0 as int])@) == if seen.contains(
                    e,
                ) {
                    symbols_in(start[e.0 as int]@).insert(x)
                } else {
                    symbols_in(start[e.0 as int]@)
                },
        decreases n - j,
    {
        let c = chain[j];
        proof {
            assert(ancestor_at(t, s, j as nat) == Some(c as int));
            assert(chain_in_range(t, s, (n - 1) as nat));
            assert(ancestor_at(t, s, j as nat) matches Some(y) && 0 <= y < t.len());
        }
        if c == d {
            proof {
                assert(crate::scope_tree::is_ancestor(t, d as int, s));
                assert(lambdas_below(t, c as int, d as int, (big - j) as nat) =~= Set::empty());
                assert(below =~= seen);
            }
            return Ok(());
        }
        let ghost rest = if j + 1 < n {
            lambdas_below(t, chain@[j + 1] as int, d as int, (big - j - 1) as nat)
        } else {
            Set::empty()
        };
        proof {
            crate::scope_tree::lemma_ancestor_step(t, s, j as nat);
            if j + 1 < n {
                assert(ancestor_at(t, s, (j + 1) as nat) == Some(chain@[j + 1] as int));
                assert(parent_index(t, c as int) == Some(chain@[j + 1] as int));
            } else {
                assert(parent_index(t, c as int) is None);
            }
        }
        match scopes.at(c).owner {
            ScopeOwner::Lambda(e) => {
                let k = e.0 as usize;
                if k >= exprs.len() {
                    proof {
                        assert(below.contains(e));
                    }
                    return Err("lambda scope has no expression".to_owned());
                }
                match &exprs[k] {
                    HirExpr::Lambda => {},
                    _ => {
                        proof {
                            assert(below.contains(e));
                        }
                        return Err("lambda scope has no expression".to_owned());
                    },
                }
                let ghost before = captures@;
                add_to(captures, k, x);
                proof {
                    assert(lambdas_below(t, c as int, d as int, (big - j) as nat) =~= set![e].union(
                        rest,
                    ));
                    seen = seen.insert(e);
                    assert forall|f: HirExprId| f.0 < exprs@.len() implies symbols_in(
                    (#[trigger] captures@[f.0 as int])@) == if seen.contains(f) {
                        symbols_in(start[f.0 as int]@).insert(x)
                    } else {
                        symbols_in(start[f.0 as int]@)
                    } by {
                        if f.0 != k {
                            assert(captures@[f.0 as int] == before[f.0 as int]);
                            assert(f != e);
                        } else {
                            assert(f == e);
                            assert(symbols_in(start[f.0 as int]@).insert(x).insert(x) =~= symbols_in(start[f.0 as int]@).insert(x));
                        }
                    }
                }
            },
            _ => {
                proof {
                    assert(lambdas_below(t, c as int, d as int, (big - j) as nat) =~= rest);
                }
            },
        }
        proof {
            if j + 1 < n {
                assert(below =~= seen.union(rest));
            } else {
                assert(below =~= seen);
            }
        }
        j = j + 1;
    }
    proof {
        let last = (n - 1) as nat;
        crate::scope_tree::lemma_ancestor_step(t, s, last);
        if crate::scope_tree::is_ancestor(t, d as int, s) {
            let k = choose|k: nat| ancestor_at(t, s, k) == Some(d as int);
            if k < n {
                assert(chain@[k as int] == d);
            } else {
                lemma_ancestor_none_after(t, s, n as nat, k);
            }
        }
    }
    Err(with_two_numbers(
        "local symbol SymbolId(",
        x.0,
        ") is outside the lexical scope of HirExprId(",
        expr.0,
        ")",
    ))
}


/// Scope `d` declares `x`.
pub open spec fn declares(t: Seq<Scope>, d: int, x: SymbolId) -> bool {
    0 <= d < t.len() && t[d].symbols@.contains(x)
}

/// The report for a local symbol declared by two scopes.
pub open spec fn multiple_message(x: SymbolId) -> Seq<char> {
    "local symbol SymbolId("@ + decimal(x.0 as nat) + ") has multiple declaring scopes"@
}

/// A local `x` declared by scope `d` has a single declaring scope, a chain to a root,
/// and an owning closure, if any, that is a lambda expression.
pub open spec fn declaration_ok(t: Seq<Scope>, exprs: Seq<HirExpr>, d: int, x: SymbolId) -> bool {
    &&& forall|d2: int| #[trigger] declares(t, d2, x) ==> d2 == d
    &&& chain_ok(t, d)
    &&& lambda_above(t, d, t.len() as nat) matches Some(e) ==> is_lambda_expr(exprs, e)
}

/// Position `j` of scope `d` holds a local: a symbol with a slot.
pub open spec fn local_at(t: Seq<Scope>, sl: Seq<SymbolId>, d: int, j: int) -> bool {
    0 <= d < t.len() && 0 <= j < t[d].symbols@.len() && sl.contains(t[d].symbols@[j])
}

/// The declaration at position `j` of scope `d` passes its checks: no earlier scope
/// declares the same local, its chain reaches a root, and its owning closure, if any,
/// is a lambda expression.
pub open spec fn declaration_sound(t: Seq<Scope>, exprs: Seq<HirExpr>, sl: Seq<SymbolId>, d: int, j: int) -> bool {
    local_at(t, sl, d, j) ==> {
        let x = t[d].symbols@[j];
        &&& forall|d2: int| 0 <= d2 < d ==> !#[trigger] declares(t, d2, x)
        &&& chain_ok(t, d)
        &&& lambda_above(t, d, t.len() as nat) matches Some(e) ==> is_lambda_expr(exprs, e)
    }
}

/// What checking the declaration at position `j` of scope `d` reports, checks in order.
pub open spec fn declaration_fault(
    t: Seq<Scope>,
    exprs: Seq<HirExpr>,
    sl: Seq<SymbolId>,
    d: int,
    j: int,
    m: Seq<char>,
) -> bool {
    let x = t[d].symbols@[j];
    &&& local_at(t, sl, d, j)
    &&& if exists|d2: int| 0 <= d2 < d && #[trigger] declares(t, d2, x) {
        m == multiple_message(x)
    } else if !chain_ok(t, d) {
        chain_error(t, d, m)
    } else {
        (lambda_above(t, d, t.len() as nat) matches Some(e) && !is_lambda_expr(exprs, e)) && m
            == "lambda scope has no expression"@
    }
}

/// The declaration at position `j` of scope `d` is the first at fault, walking scopes
/// and their symbols in order, and reports `m`.
pub open spec fn first_declaration_fault(
    t: Seq<Scope>,
    exprs: Seq<HirExpr>,
    sl: Seq<SymbolId>,
    d: int,
    j: int,
    m: Seq<char>,
) -> bool {
    &&& declaration_fault(t, exprs, sl, d, j, m)
    &&& forall|d2: int, j2: int|
        visited(t, d, j, d2, j2) ==> #[trigger] declaration_sound(t, exprs, sl, d2, j2)
}

/// Some declaration is the first at fault, and reports `m`.
pub open spec fn declaration_failure(t: Seq<Scope>, exprs: Seq<HirExpr>, sl: Seq<SymbolId>, m: Seq<char>) -> bool {
    exists|d: int, j: int| #[trigger] first_declaration_fault(t, exprs, sl, d, j, m)
}

/// Position `j2` of scope `d2` comes before position `j` of scope `d`.
pub open spec fn visited(t: Seq<Scope>, d: int, j: int, d2: int, j2: int) -> bool {
    &&& 0 <= d2 < t.len()
    &&& 0 <= j2 < t[d2].symbols@.len()
    &&& (d2 < d || (d2 == d && j2 < j))
}

/// The facts gathered from the declarations before position `j` of scope `d`.
spec fn declarations_upto(
    t: Seq<Scope>,
    exprs: Seq<HirExpr>,
    slots: Seq<SymbolId>,
    d: int,
    j: int,
    declared: Map<u32, u32>,
    locals: Seq<BTreeSet<u32>>,
) -> bool {
    &&& locals.len() == exprs.len()
    &&& forall|d2: int, j2: int|
        #![trigger t[d2].symbols@[j2]]
        visited(t, d, j, d2, j2) && slots.contains(t[d2].symbols@[j2]) ==> {
            let x = t[d2].symbols@[j2];
            &&& declared.contains_key(x.0)
            &&& declared[x.0] == d2
            &&& chain_ok(t, d2)
            &&& lambda_above(t, d2, t.len() as nat) matches Some(e) ==> is_lambda_expr(exprs, e)
                && symbols_in(locals[e.0 as int]@).contains(x)
        }
    &&& forall|k: u32|
        #[trigger] declared.contains_key(k) ==> exists|j2: int|
            visited(t, d, j, declared[k] as int, j2) && (#[trigger] t[declared[k] as int].symbols@[j2]).0
                == k && slots.contains(t[declared[k] as int].symbols@[j2])
    &&& forall|e: int, x: SymbolId|
        0 <= e < locals.len() && #[trigger] symbols_in(locals[e]@).contains(x) ==> slots.contains(x) && exists|
            d2: int,
            j2: int,
        |
            visited(t, d, j, d2, j2) && #[trigger] t[d2].symbols@[j2] == x && lambda_above(
                t,
                d2,
                t.len() as nat,
            ) == Some(HirExprId(e as u32))
}

/// Every declaration before position `j` of scope `d` passed its checks.
proof fn lemma_earlier_sound(
    t: Seq<Scope>,
    ex: Seq<HirExpr>,
    sl: Seq<SymbolId>,
    d: int,
    j: int,
    declared: Map<u32, u32>,
    locals: Seq<BTreeSet<u32>>,
)
    requires
        declarations_upto(t, ex, sl, d, j, declared, locals),
    ensures
        forall|d2: int, j2: int| visited(t, d, j, d2, j2) ==> #[trigger] declaration_sound(t, ex, sl, d2, j2),
{
    assert forall|d2: int, j2: int| visited(t, d, j, d2, j2) implies #[trigger] declaration_sound(
        t,
        ex,
        sl,
        d2,
        j2,
    ) by {
        if local_at(t, sl, d2, j2) {
            let x = t[d2].symbols@[j2];
            assert forall|d3: int| 0 <= d3 < d2 implies !#[trigger] declares(t, d3, x) by {
                if declares(t, d3, x) {
                    let j3 = choose|j3: int| 0 <= j3 < t[d3].symbols@.len() && t[d3].symbols@[j3] == x;
                    assert(visited(t, d, j, d3, j3));
                    assert(t[d3].symbols@[j3] == x);
                }
            }
        }
    }
}

/// The declaration at position `j` of scope `d` is at fault and everything before passed.
proof fn lemma_first_declaration_fault(
    t: Seq<Scope>,
    ex: Seq<HirExpr>,
    sl: Seq<SymbolId>,
    d: int,
    j: int,
    declared: Map<u32, u32>,
    locals: Seq<BTreeSet<u32>>,
    m: Seq<char>,
)
    requires
        declarations_upto(t, ex, sl, d, j, declared, locals),
        declaration_fault(t, ex, sl, d, j, m),
    ensures
        declaration_failure(t, ex, sl, m),
{
    lemma_earlier_sound(t, ex, sl, d, j, declared, locals);
    assert(first_declaration_fault(t, ex, sl, d, j, m));
}

/// Finds the declaring scope of every local symbol and the locals each closure owns.
#[verifier::rlimit(50)]
fn declare_locals(scopes: &ScopeTree, exprs: &Vec<HirExpr>, slots: &SlotLayoutTable) -> (r: Result<
    (HashMap<u32, u32>, Vec<BTreeSet<u32>>),
    String,
>)
    requires
        exprs@.len() <= u32::MAX,
    ensures
        match r {
            Ok((declared, locals)) => declarations_upto(
                scopes@,
                exprs@,
                slots@,
                scopes@.len() as int,
                0,
                declared@,
                locals@,
            ),
            Err(m) => declaration_failure(scopes@, exprs@, slots@, m@),
        },
{
    let ghost t = scopes@;
    let ghost ex = exprs@;
    let ghost sl = slots@;
    let mut declared: HashMap<u32, u32> = HashMap::new();
    let mut locals: Vec<BTreeSet<u32>> = Vec::new();
    for e in 0..exprs.len()
        invariant
            locals@.len() == e,
            forall|k: int| 0 <= k < e ==> (#[trigger] locals@[k])@ == Set::<u32>::empty(),
    {
        locals.push(BTreeSet::new());
    }
    let n = scopes.len();
    let mut d: usize = 0;
    while d < n
        invariant
            t == scopes@,
            ex == exprs@,
            sl == slots@,
            n == t.len(),
            n <= u32::MAX,
            ex.len() <= u32::MAX,
            d <= n,
            declarations_upto(t, ex, sl, d as int, 0, declared@, locals@),
        decreases n - d,
    {
        let scope = scopes.at(d);
        let count = scope.symbols.len();
        let mut j: usize = 0;
        while j < count
            invariant
                t == scopes@,
                ex == exprs@,
                sl == slots@,
                n == t.len(),
                n <= u32::MAX,
                ex.len() <= u32::MAX,
                d < n,
                *scope == t[d as int],
                count == t[d as int].symbols@.len(),
                j <= count,
                declarations_upto(t, ex, sl, d as int, j as int, declared@, locals@),
            decreases count - j,
        {
            let x = scope.symbols[j];
            let ghost before = declared@;
            let ghost locals_before = locals@;
            proof {
                assert(t[d as int].symbols@[j as int] == x);
                assert(declares(t, d as int, x));
            }
            if slots.resolve(x).is_some() {
                proof {
                    assert(sl.contains(x));
                    assert(local_at(t, sl, d as int, j as int));
                }
                match declared.get(&x.0) {
                    Some(prev) => {
                        if *prev as usize != d {
                            proof {
                                let k = x.0;
                                assert(before.contains_key(k));
                                let j2 = choose|j2: int|
                                    visited(t, d as int, j as int, before[k] as int, j2) && (
                                    #[trigger] t[before[k] as int].symbols@[j2]).0 == k
                                        && sl.contains(t[before[k] as int].symbols@[j2]);
                                assert(t[before[k] as int].symbols@[j2] == x);
                                assert(declares(t, before[k] as int, x));
                                assert(declaration_fault(t, ex, sl, d as int, j as int, multiple_message(x)));
                                lemma_first_declaration_fault(t, ex, sl, d as int, j as int, before, locals_before, multiple_message(x));
                            }
                            return Err(with_number(
                                "local symbol SymbolId(",
                                x.0,
                                ") has multiple declaring scopes",
                            ));
                        }
                    },
                    None => {},
                }
                proof {
                    assert(before.contains_key(x.0) ==> before[x.0] == d);
                    assert forall|d2: int| 0 <= d2 < d implies !#[trigger] declares(t, d2, x) by {
                        if declares(t, d2, x) {
                            let j2 = choose|j2: int| 0 <= j2 < t[d2].symbols@.len() && t[d2].symbols@[j2] == x;
                            assert(visited(t, d as int, j as int, d2, j2));
                            assert(t[d2].symbols@[j2] == x);
                            assert(SymbolId(x.0) == x);
                        }
                    }
                }
                declared.insert(x.0, d as u32);
                let chain = match scope_chain(scopes, ScopeId(d as u32)) {
                    Ok(chain) => chain,
                    Err(m) => {
                        proof {
                            assert(declaration_fault(t, ex, sl, d as int, j as int, m@));
                            lemma_first_declaration_fault(t, ex, sl, d as int, j as int, before, locals_before, m@);
                        }
                        return Err(m);
                    },
                };
                proof {
                    assert(is_chain(t, d as int, chain@));
                    assert(chain_ends_at(t, d as int, (chain@.len() - 1) as nat));
                }
                proof {
                    assert(chain_ok(t, d as int));
                }
                match chain_closure(scopes, &chain, Ghost(d as int)) {
                    Some(e) => {
                        let k = e.0 as usize;
                        if k >= exprs.len() {
                            proof {
                                let msg = "lambda scope has no expression"@;
                                assert(declaration_fault(t, ex, sl, d as int, j as int, msg));
                                lemma_first_declaration_fault(t, ex, sl, d as int, j as int, before, locals_before, msg);
                            }
                            return Err("lambda scope has no expression".to_owned());
                        }
                        match &exprs[k] {
                            HirExpr::Lambda => {},
                            _ => {
                                proof {
                                    let msg = "lambda scope has no expression"@;
                                    assert(declaration_fault(t, ex, sl, d as int, j as int, msg));
                                    lemma_first_declaration_fault(t, ex, sl, d as int, j as int, before, locals_before, msg);
                                }
                                return Err("lambda scope has no expression".to_owned());
                            },
                        }
                        add_to(&mut locals, k, x);
                    },
                    None => {},
                }
                proof {
                    lemma_declare_step(t, ex, sl, d as int, j as int, before, declared@, locals_before, locals@);
                }
            } else {
                proof {
                    assert forall|k: u32| #[trigger] declared@.contains_key(k) implies exists|j2: int|
                        visited(t, d as int, j + 1, declared@[k] as int, j2) && (
                        #[trigger] t[declared@[k] as int].symbols@[j2]).0 == k
                            && sl.contains(t[declared@[k] as int].symbols@[j2]) by {
                        let j2 = choose|j2: int|
                            visited(t, d as int, j as int, declared@[k] as int, j2) && (
                            #[trigger] t[declared@[k] as int].symbols@[j2]).0 == k
                                && sl.contains(t[declared@[k] as int].symbols@[j2]);
                        assert(visited(t, d as int, j + 1, declared@[k] as int, j2));
                    }
                    assert forall|e: int, y: SymbolId|
                        0 <= e < locals@.len() && #[trigger] symbols_in(locals@[e]@).contains(y) implies sl.contains(y)
                            && exists|d2: int, j2: int|
                            visited(t, d as int, j + 1, d2, j2) && #[trigger] t[d2].symbols@[j2] == y
                                && lambda_above(t, d2, t.len() as nat) == Some(HirExprId(e as u32)) by {
                        let (d2, j2) = choose|d2: int, j2: int|
                            visited(t, d as int, j as int, d2, j2) && #[trigger] t[d2].symbols@[j2] == y
                                && lambda_above(t, d2, t.len() as nat) == Some(HirExprId(e as u32));
                        assert(visited(t, d as int, j + 1, d2, j2));
                    }
                }
            }
            j = j + 1;
        }
        proof {
            lemma_next_scope(t, ex, sl, d as int, declared@, locals@);
        }
        d = d + 1;
    }
    Ok((declared, locals))
}


/// Processing the local at position `j` of scope `d` extends what is known by that position.
#[verifier::spinoff_prover]
#[verifier::rlimit(50)]
proof fn lemma_declare_step(
    t: Seq<Scope>,
    ex: Seq<HirExpr>,
    sl: Seq<SymbolId>,
    d: int,
    j: int,
    before: Map<u32, u32>,
    after: Map<u32, u32>,
    lb: Seq<BTreeSet<u32>>,
    la: Seq<BTreeSet<u32>>,
)
    requires
        declarations_upto(t, ex, sl, d, j, before, lb),
        0 <= d < t.len(),
        d <= u32::MAX,
        0 <= j < t[d].symbols@.len(),
        sl.contains(t[d].symbols@[j]),
        before.contains_key(t[d].symbols@[j].0) ==> before[t[d].symbols@[j].0] == d,
        after == before.insert(t[d].symbols@[j].0, d as u32),
        chain_ok(t, d),
        la.len() == lb.len(),
        match lambda_above(t, d, t.len() as nat) {
            Some(e) => {
                &&& is_lambda_expr(ex, e)
                &&& forall|i: int| 0 <= i < lb.len() && i != e.0 ==> la[i] == lb[i]
                &&& symbols_in(la[e.0 as int]@) == symbols_in(lb[e.0 as int]@).insert(t[d].symbols@[j])
            },
            None => la == lb,
        },
    ensures
        declarations_upto(t, ex, sl, d, j + 1, after, la),
{
    let x = t[d].symbols@[j];
    let le = lambda_above(t, d, t.len() as nat);
    assert forall|e: int, y: SymbolId| 0 <= e < lb.len() && symbols_in(lb[e]@).contains(y) implies symbols_in(la[e]@).contains(
        y,
    ) by {
        if let Some(f) = le {
            if e == f.0 {
                assert(symbols_in(lb[e]@).contains(y));
                assert(symbols_in(la[e]@).contains(y));
            }
        }
    }
    assert forall|d2: int, j2: int|
        #![trigger t[d2].symbols@[j2]]
        visited(t, d, j + 1, d2, j2) && sl.contains(t[d2].symbols@[j2]) implies {
        let y = t[d2].symbols@[j2];
        &&& after.contains_key(y.0)
        &&& after[y.0] == d2
        &&& chain_ok(t, d2)
        &&& lambda_above(t, d2, t.len() as nat) matches Some(e) ==> is_lambda_expr(ex, e)
            && symbols_in(la[e.0 as int]@).contains(y)
    } by {
        let y = t[d2].symbols@[j2];
        if d2 == d && j2 == j {
            if let Some(f) = le {
                assert(symbols_in(la[f.0 as int]@).contains(x));
            }
        } else {
            assert(visited(t, d, j, d2, j2));
            if y.0 == x.0 {
                assert(y == x);
            }
        }
    }
    assert forall|k: u32| #[trigger] after.contains_key(k) implies exists|j2: int|
        visited(t, d, j + 1, after[k] as int, j2) && (#[trigger] t[after[k] as int].symbols@[j2]).0
            == k && sl.contains(t[after[k] as int].symbols@[j2]) by {
        if k == x.0 {
            assert(visited(t, d, j + 1, d, j));
            assert(t[after[k] as int].symbols@[j] == x);
        } else {
            assert(before.contains_key(k));
            let j2 = choose|j2: int|
                visited(t, d, j, before[k] as int, j2) && (#[trigger] t[before[k] as int].symbols@[j2]).0
                    == k && sl.contains(t[before[k] as int].symbols@[j2]);
            assert(visited(t, d, j + 1, after[k] as int, j2));
        }
    }
    assert forall|e: int, y: SymbolId|
        0 <= e < la.len() && #[trigger] symbols_in(la[e]@).contains(y) implies sl.contains(y) && exists|
            d2: int,
            j2: int,
        |
            visited(t, d, j + 1, d2, j2) && #[trigger] t[d2].symbols@[j2] == y && lambda_above(
                t,
                d2,
                t.len() as nat,
            ) == Some(HirExprId(e as u32)) by {
        let changed = match le {
            Some(f) => e == f.0 && !symbols_in(lb[e]@).contains(y),
            None => false,
        };
        if changed {
            let f = le->0;
            assert(symbols_in(la[e]@).contains(y));
            assert(y == x);
            assert(HirExprId(e as u32) == f);
            assert(visited(t, d, j + 1, d, j));
        } else {
            if let Some(f) = le {
                if e != f.0 {
                    assert(la[e] == lb[e]);
                }
            } else {
                assert(la[e] == lb[e]);
            }
            assert(symbols_in(lb[e]@).contains(y));
            let (d2, j2) = choose|d2: int, j2: int|
                visited(t, d, j, d2, j2) && #[trigger] t[d2].symbols@[j2] == y && lambda_above(
                    t,
                    d2,
                    t.len() as nat,
                ) == Some(HirExprId(e as u32));
            assert(visited(t, d, j + 1, d2, j2));
        }
    }
}

/// Having passed every position of scope `d` is having reached the start of the next.
#[verifier::spinoff_prover]
proof fn lemma_next_scope(
    t: Seq<Scope>,
    ex: Seq<HirExpr>,
    sl: Seq<SymbolId>,
    d: int,
    declared: Map<u32, u32>,
    locals: Seq<BTreeSet<u32>>,
)
    requires
        0 <= d < t.len(),
        declarations_upto(t, ex, sl, d, t[d].symbols@.len() as int, declared, locals),
    ensures
        declarations_upto(t, ex, sl, d + 1, 0, declared, locals),
{
    let c = t[d].symbols@.len() as int;
    assert forall|d2: int, j2: int| visited(t, d + 1, 0, d2, j2) implies visited(t, d, c, d2, j2) by {}
    assert forall|d2: int, j2: int| visited(t, d, c, d2, j2) implies visited(t, d + 1, 0, d2, j2) by {}
    assert forall|k: u32| #[trigger] declared.contains_key(k) implies exists|j2: int|
        visited(t, d + 1, 0, declared[k] as int, j2) && (#[trigger] t[declared[k] as int].symbols@[j2]).0
            == k && sl.contains(t[declared[k] as int].symbols@[j2]) by {
        let j2 = choose|j2: int|
            visited(t, d, c, declared[k] as int, j2) && (#[trigger] t[declared[k] as int].symbols@[j2]).0
                == k && sl.contains(t[declared[k] as int].symbols@[j2]);
        assert(visited(t, d + 1, 0, declared[k] as int, j2));
    }
    assert forall|e: int, y: SymbolId|
        0 <= e < locals.len() && #[trigger] symbols_in(locals[e]@).contains(y) implies sl.contains(y) && exists|
            d2: int,
            j2: int,
        |
            visited(t, d + 1, 0, d2, j2) && #[trigger] t[d2].symbols@[j2] == y && lambda_above(
                t,
                d2,
                t.len() as nat,
            ) == Some(HirExprId(e as u32)) by {
        let (d2, j2) = choose|d2: int, j2: int|
            visited(t, d, c, d2, j2) && #[trigger] t[d2].symbols@[j2] == y && lambda_above(
                t,
                d2,
                t.len() as nat,
            ) == Some(HirExprId(e as u32));
        assert(visited(t, d + 1, 0, d2, j2));
    }
}


/// The declared map gives each declared local its declaring scope, and holds nothing else.
pub open spec fn declaration_map(t: Seq<Scope>, sl: Seq<SymbolId>, declared: Map<u32, u32>) -> bool {
    &&& forall|d: int, x: SymbolId|
        #[trigger] declares(t, d, x) && sl.contains(x) ==> declared.contains_key(x.0) && declared[x.0]
            == d
    &&& forall|k: u32|
        #[trigger] declared.contains_key(k) ==> declares(t, declared[k] as int, SymbolId(k))
            && sl.contains(SymbolId(k))
}

/// The locals that closure `e` owns: those declared in scopes whose nearest closure is `e`.
pub open spec fn closure_locals(t: Seq<Scope>, sl: Seq<SymbolId>, e: HirExprId) -> Set<SymbolId> {
    Set::new(
        |x: SymbolId|
            sl.contains(x) && exists|d: int|
                #[trigger] declares(t, d, x) && lambda_above(t, d, t.len() as nat) == Some(e),
    )
}

/// All declarations have been seen: the facts gathered are the whole story.
proof fn lemma_declarations_done(
    t: Seq<Scope>,
    ex: Seq<HirExpr>,
    sl: Seq<SymbolId>,
    declared: Map<u32, u32>,
    locals: Seq<BTreeSet<u32>>,
)
    requires
        declarations_upto(t, ex, sl, t.len() as int, 0, declared, locals),
        ex.len() <= u32::MAX,
    ensures
        declaration_map(t, sl, declared),
        forall|d: int, x: SymbolId|
            #[trigger] declares(t, d, x) && sl.contains(x) ==> declaration_ok(t, ex, d, x),
        forall|e: int| 0 <= e < ex.len() ==> symbols_in((#[trigger] locals[e])@) == closure_locals(t, sl, HirExprId(e as u32)),
{
    let n = t.len() as int;
    assert forall|d: int, x: SymbolId| #[trigger] declares(t, d, x) && sl.contains(x) implies declared.contains_key(x.0)
        && declared[x.0] == d && declaration_ok(t, ex, d, x) by {
        let j = choose|j: int| 0 <= j < t[d].symbols@.len() && t[d].symbols@[j] == x;
        assert(visited(t, n, 0, d, j));
        assert forall|d2: int| #[trigger] declares(t, d2, x) implies d2 == d by {
            let j2 = choose|j2: int| 0 <= j2 < t[d2].symbols@.len() && t[d2].symbols@[j2] == x;
            assert(visited(t, n, 0, d2, j2));
        }
    }
    assert forall|k: u32| #[trigger] declared.contains_key(k) implies declares(t, declared[k] as int, SymbolId(k))
        && sl.contains(SymbolId(k)) by {
        let j2 = choose|j2: int|
            visited(t, n, 0, declared[k] as int, j2) && (#[trigger] t[declared[k] as int].symbols@[j2]).0
                == k && sl.contains(t[declared[k] as int].symbols@[j2]);
        assert(t[declared[k] as int].symbols@[j2] == SymbolId(k));
    }
    assert forall|e: int| 0 <= e < ex.len() implies symbols_in((#[trigger] locals[e])@) == closure_locals(t, sl, HirExprId(e as u32)) by {
        let id = HirExprId(e as u32);
        assert forall|x: SymbolId| symbols_in(locals[e]@).contains(x) <==> closure_locals(t, sl, id).contains(x) by {
            if symbols_in(locals[e]@).contains(x) {
                let (d2, j2) = choose|d2: int, j2: int|
                    visited(t, n, 0, d2, j2) && #[trigger] t[d2].symbols@[j2] == x && lambda_above(
                        t,
                        d2,
                        t.len() as nat,
                    ) == Some(HirExprId(e as u32));
                assert(declares(t, d2, x));
            }
            if closure_locals(t, sl, id).contains(x) {
                let d = choose|d: int| #[trigger] declares(t, d, x) && lambda_above(t, d, t.len() as nat) == Some(id);
                let j = choose|j: int| 0 <= j < t[d].symbols@.len() && t[d].symbols@[j] == x;
                assert(visited(t, n, 0, d, j));
                assert(id.0 == e);
            }
        }
        assert(symbols_in(locals[e]@) =~= closure_locals(t, sl, id));
    }
}


/// The innermost scope around expression `i`, if the program records one.
pub open spec fn expr_scope(p: CheckedProject, i: int) -> Option<ScopeId> {
    if 0 <= i < p.hir.expr_scopes@.len() {
        p.hir.expr_scopes@[i]
    } else {
        None
    }
}

/// The report for a use of a local that no scope declares.
pub open spec fn undeclared_message(x: SymbolId) -> Seq<char> {
    "local symbol SymbolId("@ + decimal(x.0 as nat) + ") has no declaring scope"@
}

/// A use of local `x` in expression `i` sits below its declaration, and every closure
/// crossed on the way up to it is a lambda expression.
pub open spec fn use_ok(p: CheckedProject, i: int, x: SymbolId) -> bool {
    let t = p.hir.scopes@;
    &&& exists|d: int| #[trigger] declares(t, d, x)
    &&& expr_scope(p, i) matches Some(s) && chain_ok(t, s.0 as int) && forall|d: int|
        #[trigger] declares(t, d, x) ==> crate::scope_tree::is_ancestor(t, d, s.0 as int) && forall|
            e: HirExprId,
        |
            #[trigger] lambdas_below(t, s.0 as int, d, t.len() as nat).contains(e) ==> is_lambda_expr(
                p.hir.exprs@,
                e,
            )
}

/// Use `u` of expression `i` is of a local: a symbol with a slot.
pub open spec fn local_use(p: CheckedProject, sl: Seq<SymbolId>, i: int, u: int) -> bool {
    let ex = p.hir.exprs@;
    0 <= i < ex.len() && 0 <= u < expr_uses(ex[i]).len() && sl.contains(expr_uses(ex[i])[u])
}

/// Use `u` of expression `i` passes its checks.
pub open spec fn use_sound(p: CheckedProject, sl: Seq<SymbolId>, i: int, u: int) -> bool {
    local_use(p, sl, i, u) ==> use_ok(p, i, expr_uses(p.hir.exprs@[i])[u])
}

/// The report for a closure scope whose owner is not a lambda expression.
pub open spec fn no_expression_message() -> Seq<char> {
    "lambda scope has no expression"@
}

/// What checking use `u` of expression `i` reports, checks in order: a declaration, an
/// enclosing scope, a chain to a root, then every closure crossed on the way up to the
/// declaration, which must be met.
pub open spec fn use_fault(p: CheckedProject, sl: Seq<SymbolId>, i: int, u: int, m: Seq<char>) -> bool {
    let t = p.hir.scopes@;
    let ex = p.hir.exprs@;
    let x = expr_uses(ex[i])[u];
    &&& local_use(p, sl, i, u)
    &&& if forall|d: int| !#[trigger] declares(t, d, x) {
        m == undeclared_message(x)
    } else {
        match expr_scope(p, i) {
            None => m == "local use has no enclosing scope"@,
            Some(s) => if !chain_ok(t, s.0 as int) {
                chain_error(t, s.0 as int, m)
            } else {
                exists|d: int|
                    #[trigger] declares(t, d, x) && if exists|e: HirExprId|
                        #[trigger] lambdas_below(t, s.0 as int, d, t.len() as nat).contains(e)
                            && !is_lambda_expr(ex, e) {
                        m == no_expression_message()
                    } else {
                        !crate::scope_tree::is_ancestor(t, d, s.0 as int) && m == outside_message(
                            x,
                            HirExprId(i as u32),
                        )
                    }
            },
        }
    }
}

/// Use `u` of expression `i` is the first at fault, walking expressions and their uses
/// in order, and reports `m`.
pub open spec fn first_use_fault(p: CheckedProject, sl: Seq<SymbolId>, i: int, u: int, m: Seq<char>) -> bool {
    &&& use_fault(p, sl, i, u, m)
    &&& forall|i2: int, u2: int|
        use_visited(p.hir.exprs@, i, u, i2, u2) ==> #[trigger] use_sound(p, sl, i2, u2)
}

/// Some use is the first at fault, and reports `m`.
pub open spec fn use_failure(p: CheckedProject, sl: Seq<SymbolId>, m: Seq<char>) -> bool {
    exists|i: int, u: int| #[trigger] first_use_fault(p, sl, i, u, m)
}

/// Use `u2` of expression `i2` comes before use `u` of expression `i`.
pub open spec fn use_visited(ex: Seq<HirExpr>, i: int, u: int, i2: int, u2: int) -> bool {
    &&& 0 <= i2 < ex.len()
    &&& 0 <= u2 < expr_uses(ex[i2]).len()
    &&& (i2 < i || (i2 == i && u2 < u))
}

/// The locals that closure `e` captures from the uses before use `u` of expression `i`.
spec fn captured_upto(
    p: CheckedProject,
    sl: Seq<SymbolId>,
    declared: Map<u32, u32>,
    i: int,
    u: int,
    e: HirExprId,
) -> Set<SymbolId> {
    let t = p.hir.scopes@;
    let ex = p.hir.exprs@;
    Set::new(
        |x: SymbolId|
            sl.contains(x) && exists|i2: int, u2: int|
                use_visited(ex, i, u, i2, u2) && #[trigger] expr_uses(ex[i2])[u2] == x && (expr_scope(
                    p,
                    i2,
                ) matches Some(s) && lambdas_below(t, s.0 as int, declared[x.0] as int, t.len() as nat).contains(e)),
    )
}

/// The facts gathered from the uses before use `u` of expression `i`.
spec fn uses_upto(
    p: CheckedProject,
    sl: Seq<SymbolId>,
    declared: Map<u32, u32>,
    i: int,
    u: int,
    captures: Seq<BTreeSet<u32>>,
) -> bool {
    let ex = p.hir.exprs@;
    &&& captures.len() == ex.len()
    &&& forall|i2: int, u2: int|
        use_visited(ex, i, u, i2, u2) && sl.contains(#[trigger] expr_uses(ex[i2])[u2]) ==> use_ok(
            p,
            i2,
            expr_uses(ex[i2])[u2],
        )
    &&& forall|e: int|
        0 <= e < ex.len() ==> symbols_in((#[trigger] captures[e])@) == captured_upto(
            p,
            sl,
            declared,
            i,
            u,
            HirExprId(e as u32),
        )
}


/// Each declared local has one declaring scope.
pub open spec fn declarations_unique(t: Seq<Scope>, sl: Seq<SymbolId>) -> bool {
    forall|d: int, d2: int, x: SymbolId|
        #[trigger] declares(t, d, x) && #[trigger] declares(t, d2, x) && sl.contains(x) ==> d == d2
}

/// Processing use `u` of expression `i` extends what is known by that use.
#[verifier::spinoff_prover]
#[verifier::rlimit(50)]
proof fn lemma_use_step(
    p: CheckedProject,
    sl: Seq<SymbolId>,
    declared: Map<u32, u32>,
    i: int,
    u: int,
    cb: Seq<BTreeSet<u32>>,
    ca: Seq<BTreeSet<u32>>,
)
    requires
        uses_upto(p, sl, declared, i, u, cb),
        0 <= i < p.hir.exprs@.len(),
        0 <= u < expr_uses(p.hir.exprs@[i]).len(),
        ca.len() == cb.len(),
        ({
            let x = expr_uses(p.hir.exprs@[i])[u];
            if sl.contains(x) {
                &&& use_ok(p, i, x)
                &&& expr_scope(p, i) matches Some(s) && forall|e: int|
                    0 <= e < ca.len() ==> symbols_in((#[trigger] ca[e])@) == if lambdas_below(
                        p.hir.scopes@,
                        s.0 as int,
                        declared[x.0] as int,
                        p.hir.scopes@.len() as nat,
                    ).contains(HirExprId(e as u32)) {
                        symbols_in(cb[e]@).insert(x)
                    } else {
                        symbols_in(cb[e]@)
                    }
            } else {
                ca == cb
            }
        }),
    ensures
        uses_upto(p, sl, declared, i, u + 1, ca),
{
    let ex = p.hir.exprs@;
    let t = p.hir.scopes@;
    let x = expr_uses(ex[i])[u];
    assert forall|i2: int, u2: int|
        use_visited(ex, i, u + 1, i2, u2) && sl.contains(#[trigger] expr_uses(ex[i2])[u2]) implies use_ok(
        p,
        i2,
        expr_uses(ex[i2])[u2],
    ) by {
        if !(i2 == i && u2 == u) {
            assert(use_visited(ex, i, u, i2, u2));
        }
    }
    assert forall|e: int| 0 <= e < ex.len() implies symbols_in((#[trigger] ca[e])@) == captured_upto(
        p,
        sl,
        declared,
        i,
        u + 1,
        HirExprId(e as u32),
    ) by {
        let id = HirExprId(e as u32);
        let old_set = captured_upto(p, sl, declared, i, u, id);
        let new_set = captured_upto(p, sl, declared, i, u + 1, id);
        assert forall|y: SymbolId| new_set.contains(y) <==> (old_set.contains(y) || (y == x
            && sl.contains(x) && (expr_scope(p, i) matches Some(s) && lambdas_below(
            t,
            s.0 as int,
            declared[x.0] as int,
            t.len() as nat,
        ).contains(id)))) by {
            if new_set.contains(y) {
                let (i2, u2) = choose|i2: int, u2: int|
                    use_visited(ex, i, u + 1, i2, u2) && #[trigger] expr_uses(ex[i2])[u2] == y && (
                    expr_scope(p, i2) matches Some(s) && lambdas_below(
                        t,
                        s.0 as int,
                        declared[y.0] as int,
                        t.len() as nat,
                    ).contains(id));
                if !(i2 == i && u2 == u) {
                    assert(use_visited(ex, i, u, i2, u2));
                }
            }
            if old_set.contains(y) {
                let (i2, u2) = choose|i2: int, u2: int|
                    use_visited(ex, i, u, i2, u2) && #[trigger] expr_uses(ex[i2])[u2] == y && (
                    expr_scope(p, i2) matches Some(s) && lambdas_below(
                        t,
                        s.0 as int,
                        declared[y.0] as int,
                        t.len() as nat,
                    ).contains(id));
                assert(use_visited(ex, i, u + 1, i2, u2));
            }
            if y == x && sl.contains(x) && (expr_scope(p, i) matches Some(s) && lambdas_below(
                t,
                s.0 as int,
                declared[x.0] as int,
                t.len() as nat,
            ).contains(id)) {
                assert(use_visited(ex, i, u + 1, i, u));
            }
        }
        if sl.contains(x) {
            assert(symbols_in(ca[e]@) =~= new_set);
        } else {
            assert(symbols_in(cb[e]@) =~= new_set);
        }
    }
}

/// Having passed every use of expression `i` is having reached the next expression.
#[verifier::spinoff_prover]
proof fn lemma_next_expr(
    p: CheckedProject,
    sl: Seq<SymbolId>,
    declared: Map<u32, u32>,
    i: int,
    captures: Seq<BTreeSet<u32>>,
)
    requires
        0 <= i < p.hir.exprs@.len(),
        uses_upto(p, sl, declared, i, expr_uses(p.hir.exprs@[i]).len() as int, captures),
    ensures
        uses_upto(p, sl, declared, i + 1, 0, captures),
{
    let ex = p.hir.exprs@;
    let c = expr_uses(ex[i]).len() as int;
    assert forall|i2: int, u2: int| use_visited(ex, i + 1, 0, i2, u2) <==> use_visited(ex, i, c, i2, u2) by {}
    assert forall|e: int| 0 <= e < ex.len() implies symbols_in((#[trigger] captures[e])@) == captured_upto(
        p,
        sl,
        declared,
        i + 1,
        0,
        HirExprId(e as u32),
    ) by {
        assert(captured_upto(p, sl, declared, i + 1, 0, HirExprId(e as u32)) =~= captured_upto(p, sl, declared, i, c, HirExprId(e as u32)));
    }
}


/// Use `u` of expression `i` is at fault and every use before it passed.
proof fn lemma_first_use_fault(
    p: CheckedProject,
    sl: Seq<SymbolId>,
    declared: Map<u32, u32>,
    i: int,
    u: int,
    captures: Seq<BTreeSet<u32>>,
    m: Seq<char>,
)
    requires
        uses_upto(p, sl, declared, i, u, captures),
        use_fault(p, sl, i, u, m),
    ensures
        use_failure(p, sl, m),
{
    let ex = p.hir.exprs@;
    assert forall|i2: int, u2: int| use_visited(ex, i, u, i2, u2) implies #[trigger] use_sound(p, sl, i2, u2) by {
        if local_use(p, sl, i2, u2) {
            assert(sl.contains(expr_uses(ex[i2])[u2]));
        }
    }
    assert(first_use_fault(p, sl, i, u, m));
}

/// Records, for every use of a local, the closures it crosses on the way up to its
/// declaration.
#[verifier::rlimit(50)]
fn collect_captures(project: &CheckedProject, slots: &SlotLayoutTable, declared: &HashMap<
    u32,
    u32,
>) -> (r: Result<Vec<BTreeSet<u32>>, String>)
    requires
        declaration_map(project.hir.scopes@, slots@, declared@),
        declarations_unique(project.hir.scopes@, slots@),
        project.hir.exprs@.len() <= u32::MAX,
    ensures
        match r {
            Ok(captures) => uses_upto(
                *project,
                slots@,
                declared@,
                project.hir.exprs@.len() as int,
                0,
                captures@,
            ),
            Err(m) => use_failure(*project, slots@, m@),
        },
{
    let ghost p = *project;
    let ghost t = project.hir.scopes@;
    let ghost ex = project.hir.exprs@;
    let ghost sl = slots@;
    let exprs = &project.hir.exprs;
    let scopes = &project.hir.scopes;
    let mut captures: Vec<BTreeSet<u32>> = Vec::new();
    for e in 0..exprs.len()
        invariant
            captures@.len() == e,
            forall|k: int| 0 <= k < e ==> (#[trigger] captures@[k])@ == Set::<u32>::empty(),
    {
        captures.push(BTreeSet::new());
    }
    proof {
        assert forall|e: int| 0 <= e < ex.len() implies symbols_in((#[trigger] captures@[e])@) == captured_upto(
            p,
            sl,
            declared@,
            0,
            0,
            HirExprId(e as u32),
        ) by {
            assert(symbols_in(captures@[e]@) =~= captured_upto(p, sl, declared@, 0, 0, HirExprId(e as u32)));
        }
    }
    let n = exprs.len();
    let mut i: usize = 0;
    while i < n
        invariant
            p == *project,
            t == p.hir.scopes@,
            ex == p.hir.exprs@,
            sl == slots@,
            *exprs == p.hir.exprs,
            *scopes == p.hir.scopes,
            n == ex.len(),
            n <= u32::MAX,
            i <= n,
            declaration_map(t, sl, declared@),
            declarations_unique(t, sl),
            uses_upto(p, sl, declared@, i as int, 0, captures@),
        decreases n - i,
    {
        let uses = uses_of(&exprs[i]);
        let count = uses.len();
        let mut u: usize = 0;
        while u < count
            invariant
                p == *project,
                t == p.hir.scopes@,
                ex == p.hir.exprs@,
                sl == slots@,
                *exprs == p.hir.exprs,
                *scopes == p.hir.scopes,
                n == ex.len(),
                n <= u32::MAX,
                i < n,
                uses@ == expr_uses(ex[i as int]),
                count == uses@.len(),
                u <= count,
                declaration_map(t, sl, declared@),
                declarations_unique(t, sl),
                uses_upto(p, sl, declared@, i as int, u as int, captures@),
            decreases count - u,
        {
            let x = uses[u];
            let ghost before = captures@;
            proof {
                assert(expr_uses(ex[i as int])[u as int] == x);
                assert(expr_uses(ex[i as int]).contains(x));
            }
            if slots.resolve(x).is_some() {
                let d = match declared.get(&x.0) {
                    Some(d) => *d,
                    None => {
                        proof {
                            assert forall|d: int| !#[trigger] declares(t, d, x) by {}
                            let msg = undeclared_message(x);
                            assert(local_use(p, sl, i as int, u as int));
                            assert(use_fault(p, sl, i as int, u as int, msg));
                            lemma_first_use_fault(p, sl, declared@, i as int, u as int, captures@, msg);
                        }
                        return Err(with_number(
                            "local symbol SymbolId(",
                            x.0,
                            ") has no declaring scope",
                        ));
                    },
                };
                proof {
                    assert(SymbolId(x.0) == x);
                    assert(declares(t, d as int, x));
                }
                let scope = if i < project.hir.expr_scopes.len() {
                    project.hir.expr_scopes[i]
                } else {
                    None
                };
                proof {
                    assert(local_use(p, sl, i as int, u as int));
                    assert(scope == expr_scope(p, i as int));
                }
                let s = match scope {
                    Some(s) => s,
                    None => {
                        proof {
                            let msg = "local use has no enclosing scope"@;
                            assert(use_fault(p, sl, i as int, u as int, msg));
                            lemma_first_use_fault(p, sl, declared@, i as int, u as int, captures@, msg);
                        }
                        return Err("local use has no enclosing scope".to_owned());
                    },
                };
                let chain = match scope_chain(scopes, s) {
                    Ok(chain) => chain,
                    Err(m) => {
                        proof {
                            assert(use_fault(p, sl, i as int, u as int, m@));
                            lemma_first_use_fault(p, sl, declared@, i as int, u as int, captures@, m@);
                        }
                        return Err(m);
                    },
                };
                proof {
                    assert(is_chain(t, s.0 as int, chain@));
                    assert(chain_ends_at(t, s.0 as int, (chain@.len() - 1) as nat));
                }
                match record_use(
                    scopes,
                    exprs,
                    &chain,
                    Ghost(s.0 as int),
                    d as usize,
                    x,
                    HirExprId(i as u32),
                    &mut captures,
                ) {
                    Ok(()) => {},
                    Err(m) => {
                        proof {
                            assert(chain_ok(t, s.0 as int));
                            assert(use_fault(p, sl, i as int, u as int, m@));
                            lemma_first_use_fault(p, sl, declared@, i as int, u as int, before, m@);
                        }
                        return Err(m);
                    },
                }
                proof {
                    assert forall|d2: int| #[trigger] declares(t, d2, x) implies d2 == d by {}
                    assert(use_ok(p, i as int, x));
                    assert forall|e: int| 0 <= e < captures@.len() implies symbols_in((#[trigger] captures@[e])@)
                        == if lambdas_below(t, s.0 as int, declared@[x.0] as int, t.len() as nat).contains(
                        HirExprId(e as u32),
                    ) {
                        symbols_in(before[e]@).insert(x)
                    } else {
                        symbols_in(before[e]@)
                    } by {
                        let id = HirExprId(e as u32);
                        assert(id.0 == e);
                        assert(captures@[id.0 as int] == captures@[e]);
                    }
                    lemma_use_step(p, sl, declared@, i as int, u as int, before, captures@);
                }
            } else {
                proof {
                    lemma_use_step(p, sl, declared@, i as int, u as int, before, captures@);
                }
            }
            u = u + 1;
        }
        proof {
            lemma_next_expr(p, sl, declared@, i as int, captures@);
        }
        i = i + 1;
    }
    Ok(captures)
}


/// The locals that closure `e` captures: those used in a scope below `e` and declared
/// above it.
pub open spec fn closure_captures(p: CheckedProject, sl: Seq<SymbolId>, e: HirExprId) -> Set<
    SymbolId,
> {
    let t = p.hir.scopes@;
    let ex = p.hir.exprs@;
    Set::new(
        |x: SymbolId|
            sl.contains(x) && exists|i: int, d: int|
                0 <= i < ex.len() && #[trigger] expr_uses(ex[i]).contains(x) && #[trigger] declares(
                    t,
                    d,
                    x,
                ) && (expr_scope(p, i) matches Some(s) && lambdas_below(
                    t,
                    s.0 as int,
                    d,
                    t.len() as nat,
                ).contains(e)),
    )
}

/// All uses have been seen: the facts gathered are the whole story.
proof fn lemma_captures_done(
    p: CheckedProject,
    sl: Seq<SymbolId>,
    declared: Map<u32, u32>,
    captures: Seq<BTreeSet<u32>>,
)
    requires
        uses_upto(p, sl, declared, p.hir.exprs@.len() as int, 0, captures),
        declaration_map(p.hir.scopes@, sl, declared),
        p.hir.exprs@.len() <= u32::MAX,
    ensures
        forall|i: int, x: SymbolId|
            0 <= i < p.hir.exprs@.len() && #[trigger] expr_uses(p.hir.exprs@[i]).contains(x)
                && sl.contains(x) ==> use_ok(p, i, x),
        forall|e: int|
            0 <= e < p.hir.exprs@.len() ==> symbols_in((#[trigger] captures[e])@) == closure_captures(
                p,
                sl,
                HirExprId(e as u32),
            ),
{
    let t = p.hir.scopes@;
    let ex = p.hir.exprs@;
    let n = ex.len() as int;
    assert forall|i: int, x: SymbolId|
        0 <= i < ex.len() && #[trigger] expr_uses(ex[i]).contains(x) && sl.contains(x) implies use_ok(
        p,
        i,
        x,
    ) by {
        let u = choose|u: int| 0 <= u < expr_uses(ex[i]).len() && expr_uses(ex[i])[u] == x;
        assert(use_visited(ex, n, 0, i, u));
    }
    assert forall|e: int| 0 <= e < ex.len() implies symbols_in((#[trigger] captures[e])@) == closure_captures(
        p,
        sl,
        HirExprId(e as u32),
    ) by {
        let id = HirExprId(e as u32);
        let a = captured_upto(p, sl, declared, n, 0, id);
        let b = closure_captures(p, sl, id);
        assert forall|x: SymbolId| a.contains(x) <==> b.contains(x) by {
            if a.contains(x) {
                let (i2, u2) = choose|i2: int, u2: int|
                    use_visited(ex, n, 0, i2, u2) && #[trigger] expr_uses(ex[i2])[u2] == x && (
                    expr_scope(p, i2) matches Some(s) && lambdas_below(
                        t,
                        s.0 as int,
                        declared[x.0] as int,
                        t.len() as nat,
                    ).contains(id));
                assert(expr_uses(ex[i2]).contains(x));
                assert(use_ok(p, i2, x));
                let d = choose|d: int| #[trigger] declares(t, d, x);
                assert(declared[x.0] == d);
            }
            if b.contains(x) {
                let (i, d) = choose|i: int, d: int|
                    0 <= i < ex.len() && #[trigger] expr_uses(ex[i]).contains(x) && #[trigger] declares(
                        t,
                        d,
                        x,
                    ) && (expr_scope(p, i) matches Some(s) && lambdas_below(
                        t,
                        s.0 as int,
                        d,
                        t.len() as nat,
                    ).contains(id));
                let u = choose|u: int| 0 <= u < expr_uses(ex[i]).len() && expr_uses(ex[i])[u] == x;
                assert(use_visited(ex, n, 0, i, u));
                assert(declared[x.0] == d);
            }
        }
        assert(a =~= b);
    }
}


/// The frame of a closure body: its slots hold the closure's own locals, then the
/// locals it captures; both lists are in increasing order.
pub struct ClosureLayout {
    pub captures: Vec<SymbolId>,
    pub slots: SlotLayoutTable,
}

/// `s` lists the members of `set` in increasing order.
pub open spec fn lists_in_order(s: Seq<SymbolId>, set: Set<SymbolId>) -> bool {
    increasing(s) && s.to_set() == set
}

/// A layout whose slots are `locals` in order, then `captures` in order, and whose
/// capture list is `captures` in order.
pub open spec fn layout_holds(l: ClosureLayout, locals: Set<SymbolId>, captures: Set<SymbolId>) -> bool {
    let k = l.slots@.len() - l.captures@.len();
    &&& l.captures@.len() <= l.slots@.len()
    &&& lists_in_order(l.captures@, captures)
    &&& l.slots@.subrange(k, l.slots@.len() as int) == l.captures@
    &&& lists_in_order(l.slots@.take(k), locals)
}

/// Some expression is a lambda.
pub open spec fn has_lambda(ex: Seq<HirExpr>) -> bool {
    exists|e: HirExprId| #[trigger] is_lambda_expr(ex, e)
}

/// Every declaration and every use of a local is in order.
pub open spec fn closures_fit(p: CheckedProject, sl: Seq<SymbolId>) -> bool {
    let t = p.hir.scopes@;
    let ex = p.hir.exprs@;
    &&& forall|d: int, x: SymbolId|
        #[trigger] declares(t, d, x) && sl.contains(x) ==> declaration_ok(t, ex, d, x)
    &&& forall|i: int, x: SymbolId|
        0 <= i < ex.len() && #[trigger] expr_uses(ex[i]).contains(x) && sl.contains(x) ==> use_ok(
            p,
            i,
            x,
        )
}

/// What is reported when some declaration or use of a local is at fault: the fault of
/// the first declaration at fault, or, when all declarations pass, of the first use.
pub open spec fn closure_error(p: CheckedProject, sl: Seq<SymbolId>, m: Seq<char>) -> bool {
    let t = p.hir.scopes@;
    let ex = p.hir.exprs@;
    if exists|d: int, j: int| !#[trigger] declaration_sound(t, ex, sl, d, j) {
        declaration_failure(t, ex, sl, m)
    } else {
        use_failure(p, sl, m)
    }
}

/// The frame of lambda `e` would hold more slots than slot identifiers can number.
pub open spec fn frame_too_large(p: CheckedProject, sl: Seq<SymbolId>, e: HirExprId) -> bool {
    &&& is_lambda_expr(p.hir.exprs@, e)
    &&& closure_locals(p.hir.scopes@, sl, e).len() + closure_captures(p, sl, e).len() > u32::MAX
}

/// The report for a closure frame too large to number.
pub open spec fn overflow_message() -> Seq<char> {
    "closure frame has more slots than slot identifiers can number"@
}

/// The first lambda, in expression order, whose frame is too large to number is reported.
pub open spec fn frame_overflow(p: CheckedProject, sl: Seq<SymbolId>, m: Seq<char>) -> bool {
    exists|k: int|
        0 <= k < p.hir.exprs@.len() && #[trigger] frame_too_large(p, sl, HirExprId(k as u32))
            && (forall|j: int| 0 <= j < k ==> !#[trigger] frame_too_large(p, sl, HirExprId(j as u32)))
            && m == overflow_message()
}

/// A reported fault of a declaration or a use means they are not all in order.
proof fn lemma_error_not_fit(p: CheckedProject, sl: Seq<SymbolId>, m: Seq<char>)
    requires
        closure_error(p, sl, m),
    ensures
        !closures_fit(p, sl),
{
    let t = p.hir.scopes@;
    let ex = p.hir.exprs@;
    if closures_fit(p, sl) {
        if exists|d: int, j: int| !#[trigger] declaration_sound(t, ex, sl, d, j) {
            let (d, j) = choose|d: int, j: int| #[trigger] first_declaration_fault(t, ex, sl, d, j, m);
            let x = t[d].symbols@[j];
            assert(declares(t, d, x));
            assert(declaration_ok(t, ex, d, x));
        } else {
            let (i, u) = choose|i: int, u: int| #[trigger] first_use_fault(p, sl, i, u, m);
            let x = expr_uses(ex[i])[u];
            assert(expr_uses(ex[i]).contains(x));
            assert(use_ok(p, i, x));
        }
    }
}

/// The layout of every closure, by lambda expression.
pub struct ClosureLayoutTable {
    layouts: Vec<Option<ClosureLayout>>,
}

/// Takes the set at position `e`, leaving an empty one, and lists its symbols in
/// increasing order.
fn take_at(lists: &mut Vec<BTreeSet<u32>>, e: usize) -> (v: Vec<SymbolId>)
    requires
        e < old(lists)@.len(),
    ensures
        increasing(v@),
        v@.to_set() == symbols_in(old(lists)@[e as int]@),
        final(lists)@.len() == old(lists)@.len(),
        forall|i: int| 0 <= i < old(lists)@.len() && i != e ==> final(lists)@[i] == old(lists)@[i],
{
    let mut inner: BTreeSet<u32> = BTreeSet::new();
    std::mem::swap(&mut inner, &mut lists[e]);
    let keys = crate::keys::ascending(&inner);
    let mut v: Vec<SymbolId> = Vec::new();
    for i in 0..keys.len()
        invariant
            v@.len() == i,
            forall|k: int| 0 <= k < i ==> #[trigger] v@[k] == SymbolId(keys@[k]),
    {
        v.push(SymbolId(keys[i]));
    }
    proof {
        assert forall|a: int, b: int| 0 <= a < b < v@.len() implies (#[trigger] v@[a]).0 < (
        #[trigger] v@[b]).0 by {
            assert(v@[a] == SymbolId(keys@[a]) && v@[b] == SymbolId(keys@[b]));
        }
        assert forall|x: SymbolId| v@.to_set().contains(x) <==> symbols_in(inner@).contains(x) by {
            if v@.contains(x) {
                let k = choose|k: int| 0 <= k < v@.len() && v@[k] == x;
                assert(v@[k] == SymbolId(keys@[k]));
                assert(keys@.to_set().contains(keys@[k]));
            }
            if inner@.contains(x.0) {
                assert(keys@.to_set().contains(x.0));
                let k = choose|k: int| 0 <= k < keys@.len() && keys@[k] == x.0;
                assert(v@[k] == SymbolId(keys@[k]));
                assert(SymbolId(x.0) == x);
            }
        }
        assert(v@.to_set() =~= symbols_in(inner@));
    }
    v
}

/// An increasing list has no repeats.
proof fn lemma_increasing_distinct(s: Seq<SymbolId>)
    requires
        increasing(s),
    ensures
        s.no_duplicates(),
{
    assert forall|a: int, b: int| 0 <= a < s.len() && 0 <= b < s.len() && a != b implies s[a] != s[b] by {
        if a < b {
            assert(s[a].0 < s[b].0);
        } else {
            assert(s[b].0 < s[a].0);
        }
    }
}

/// An increasing list of members of `sl` is no longer than `sl`.
proof fn lemma_increasing_len(s: Seq<SymbolId>, sl: Seq<SymbolId>)
    requires
        increasing(s),
        forall|x: SymbolId| s.contains(x) ==> sl.contains(x),
    ensures
        s.len() <= sl.len(),
{
    assert(s.no_duplicates()) by {
        assert forall|a: int, b: int| 0 <= a < s.len() && 0 <= b < s.len() && a != b implies s[a]
            != s[b] by {
            if a < b {
                assert(s[a].0 < s[b].0);
            } else {
                assert(s[b].0 < s[a].0);
            }
        }
    }
    s.unique_seq_to_set();
    sl.lemma_cardinality_of_set();
    assert(s.to_set().subset_of(sl.to_set()));
    vstd::set_lib::lemma_len_subset(s.to_set(), sl.to_set());
}

impl ClosureLayoutTable {
    /// The layout of the lambda at `e`, if there is one.
    pub closed spec fn layout_at(&self, e: HirExprId) -> Option<ClosureLayout> {
        if e.0 < self.layouts@.len() {
            self.layouts@[e.0 as int]
        } else {
            None
        }
    }

    /// The layout of the lambda at `expr`.
    pub fn get(&self, expr: HirExprId) -> (r: Option<&ClosureLayout>)
        ensures
            match self.layout_at(expr) {
                Some(l) => r == Some(&l),
                None => r is None,
            },
    {
        let i = expr.0 as usize;
        if i < self.layouts.len() {
            match &self.layouts[i] {
                Some(l) => Some(l),
                None => None,
            }
        } else {
            None
        }
    }

    /// Lays out every closure of the program: its own locals, then the locals it
    /// captures from enclosing scopes, in increasing order each. A program without
    /// lambdas gets an empty table without further checks. A frame whose slots could not
    /// all be numbered by `u32` slot identifiers is refused.
    #[verifier::rlimit(50)]
    pub fn build(project: &CheckedProject, slots: &SlotLayoutTable) -> (r: Result<Self, String>)
        requires
            project.hir.exprs@.len() <= u32::MAX,
            slots@.len() <= u32::MAX,
        ensures
            match r {
                Ok(table) => {
                    &&& has_lambda(project.hir.exprs@) ==> closures_fit(*project, slots@)
                    &&& forall|e: HirExprId| !#[trigger] frame_too_large(*project, slots@, e)
                    &&& forall|e: HirExprId|
                        match #[trigger] table.layout_at(e) {
                            Some(l) => is_lambda_expr(project.hir.exprs@, e) && layout_holds(
                                l,
                                closure_locals(project.hir.scopes@, slots@, e),
                                closure_captures(*project, slots@, e),
                            ),
                            None => !is_lambda_expr(project.hir.exprs@, e),
                        }
                },
                Err(m) => has_lambda(project.hir.exprs@) && if closures_fit(*project, slots@) {
                    frame_overflow(*project, slots@, m@)
                } else {
                    closure_error(*project, slots@, m@)
                },
            },
    {
        let ghost p = *project;
        let ghost t = project.hir.scopes@;
        let ghost ex = project.hir.exprs@;
        let ghost sl = slots@;
        let exprs = &project.hir.exprs;
        let n = exprs.len();
        let mut any = false;
        for e in 0..n
            invariant
                n == ex.len(),
                n <= u32::MAX,
                *exprs == p.hir.exprs,
                ex == p.hir.exprs@,
                any ==> has_lambda(ex),
                !any ==> forall|k: int| 0 <= k < e ==> !(ex[k] is Lambda),
        {
            if let HirExpr::Lambda = &exprs[e] {
                proof {
                    assert(is_lambda_expr(ex, HirExprId(e as u32)));
                }
                any = true;
            }
        }
        if !any {
            return Ok(ClosureLayoutTable { layouts: Vec::new() });
        }
        let (declared, mut locals) = match declare_locals(&project.hir.scopes, exprs, slots) {
            Ok(found) => found,
            Err(m) => {
                proof {
                    let (d, j) = choose|d: int, j: int| #[trigger] first_declaration_fault(t, ex, sl, d, j, m@);
                    assert(!declaration_sound(t, ex, sl, d, j));
                    assert(closure_error(p, sl, m@));
                    lemma_error_not_fit(p, sl, m@);
                }
                return Err(m);
            },
        };
        proof {
            lemma_declarations_done(t, ex, sl, declared@, locals@);
            lemma_earlier_sound(t, ex, sl, t.len() as int, 0, declared@, locals@);
            assert forall|d: int, j: int| #[trigger] declaration_sound(t, ex, sl, d, j) by {
                if local_at(t, sl, d, j) {
                    assert(visited(t, t.len() as int, 0, d, j));
                }
            }
        }
        let mut captures = match collect_captures(project, slots, &declared) {
            Ok(c) => c,
            Err(m) => {
                proof {
                    assert(closure_error(p, sl, m@));
                    lemma_error_not_fit(p, sl, m@);
                }
                return Err(m);
            },
        };
        proof {
            lemma_captures_done(p, sl, declared@, captures@);
        }
        let mut layouts: Vec<Option<ClosureLayout>> = Vec::new();
        for e in 0..n
            invariant
                n == ex.len(),
                n <= u32::MAX,
                sl.len() <= u32::MAX,
                sl == slots@,
                p == *project,
                closures_fit(p, sl),
                forall|k: int| 0 <= k < e ==> !#[trigger] frame_too_large(p, sl, HirExprId(k as u32)),
                *exprs == p.hir.exprs,
                ex == p.hir.exprs@,
                t == p.hir.scopes@,
                layouts@.len() == e,
                locals@.len() == n,
                captures@.len() == n,
                forall|k: int|
                    e <= k < n ==> symbols_in((#[trigger] locals@[k])@) == closure_locals(
                        t,
                        sl,
                        HirExprId(k as u32),
                    ),
                forall|k: int|
                    e <= k < n ==> symbols_in((#[trigger] captures@[k])@) == closure_captures(
                        p,
                        sl,
                        HirExprId(k as u32),
                    ),
                forall|k: int|
                    0 <= k < e ==> match #[trigger] layouts@[k] {
                        Some(l) => is_lambda_expr(ex, HirExprId(k as u32)) && layout_holds(
                            l,
                            closure_locals(t, sl, HirExprId(k as u32)),
                            closure_captures(p, sl, HirExprId(k as u32)),
                        ),
                        None => !is_lambda_expr(ex, HirExprId(k as u32)),
                    },
        {
            proof {
                assert(symbols_in(locals@[e as int]@) == closure_locals(t, sl, HirExprId(e as u32)));
                assert(symbols_in(captures@[e as int]@) == closure_captures(p, sl, HirExprId(e as u32)));
            }
            if let HirExpr::Lambda = &exprs[e] {
                let own = take_at(&mut locals, e);
                let caps = take_at(&mut captures, e);
                proof {
                    assert forall|x: SymbolId| own@.contains(x) implies sl.contains(x) by {
                        assert(own@.to_set().contains(x));
                    }
                    assert forall|x: SymbolId| caps@.contains(x) implies sl.contains(x) by {
                        assert(caps@.to_set().contains(x));
                    }
                    lemma_increasing_len(own@, sl);
                    lemma_increasing_len(caps@, sl);
                    lemma_increasing_distinct(own@);
                    lemma_increasing_distinct(caps@);
                    own@.unique_seq_to_set();
                    caps@.unique_seq_to_set();
                }
                let limit = u32::MAX as usize;
                if caps.len() > limit - own.len() {
                    let msg = "closure frame has more slots than slot identifiers can number".to_owned();
                    proof {
                        let id = HirExprId(e as u32);
                        assert(is_lambda_expr(ex, id));
                        assert(has_lambda(ex));
                        assert(frame_too_large(p, sl, id));
                        assert(HirExprId(e as int as u32) == id);
                        assert(msg@ == overflow_message());
                        assert(frame_overflow(p, sl, msg@));
                    }
                    return Err(msg);
                }
                proof {
                    assert(!frame_too_large(p, sl, HirExprId(e as u32)));
                }
                let mut symbols = own;
                let ghost own_seq = symbols@;
                for k in 0..caps.len()
                    invariant
                        symbols@ == own_seq + caps@.take(k as int),
                {
                    proof {
                        assert(caps@.take(k + 1) =~= caps@.take(k as int).push(caps@[k as int]));
                    }
                    symbols.push(caps[k]);
                }
                proof {
                    assert(caps@.take(caps@.len() as int) =~= caps@);
                }
                let table = SlotLayoutTable::from_symbols(symbols);
                let layout = ClosureLayout { captures: caps, slots: table };
                proof {
                    let k = layout.slots@.len() - layout.captures@.len();
                    assert(layout.slots@.subrange(k, layout.slots@.len() as int) =~= layout.captures@);
                    assert(layout.slots@.take(k) =~= own_seq);
                    assert(is_lambda_expr(ex, HirExprId(e as u32)));
                }
                layouts.push(Some(layout));
            } else {
                proof {
                    assert(!is_lambda_expr(ex, HirExprId(e as u32)));
                }
                layouts.push(None);
            }
        }
        let table = ClosureLayoutTable { layouts };
        proof {
            assert forall|e: HirExprId| !#[trigger] frame_too_large(p, sl, e) by {
                if e.0 < n {
                    assert(HirExprId(e.0 as int as u32) == e);
                }
            }
        }
        proof {
            assert forall|e: HirExprId|
                match #[trigger] table.layout_at(e) {
                    Some(l) => is_lambda_expr(ex, e) && layout_holds(
                        l,
                        closure_locals(t, sl, e),
                        closure_captures(p, sl, e),
                    ),
                    None => !is_lambda_expr(ex, e),
                } by {
                if e.0 < n {
                    assert(HirExprId(e.0 as int as u32) == e);
                }
            }
        }
        Ok(table)
    }
}

} // verus!
