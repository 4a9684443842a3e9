//! Intrinsic dispatch: which standard intrinsics the program imports, how each is
//! dispatched, which the entry can reach, and the shape of brace literals.
use std::collections::{HashMap, HashSet};
use vstd::prelude::*;

use crate::ids::{HirExprId, ItemId, SymbolId};
use crate::program::{
    CheckedProject, HirExpr, IntrinsicDescriptor, IntrinsicDispatch, ResolveResult, StdIntrinsicId,
    StdSymbol, SymbolData, SymbolDef, Type,
};
use crate::text::{decimal, with_number};

verus! {

broadcast use vstd::std_specs::hash::group_hash_axioms;

/// An imported intrinsic and how it is dispatched.
#[derive(Clone, Copy, Debug, PartialEq, Eq, Structural)]
pub struct StdIntrinsicIdentity {
    pub intrinsic: StdIntrinsicId,
    pub dispatch: IntrinsicDispatch,
}

/// What a brace literal builds.
#[derive(Clone, Copy, Debug, PartialEq, Eq, Structural)]
pub enum BraceLiteralShape {
    Record,
    MapLiteral,
}

/// The name of a dispatch category.
pub open spec fn dispatch_name(d: IntrinsicDispatch) -> Seq<char> {
    match d {
        IntrinsicDispatch::PureKernel => "PureKernel"@,
        IntrinsicDispatch::Runtime => "Runtime"@,
    }
}

/// The name of a dispatch category.
pub fn dispatch_name_of(d: IntrinsicDispatch) -> (s: &'static str)
    ensures
        s@ == dispatch_name(d),
{
    match d {
        IntrinsicDispatch::PureKernel => "PureKernel",
        IntrinsicDispatch::Runtime => "Runtime",
    }
}

/// The intrinsic of the first standard symbol with path `path`.
pub open spec fn registry_lookup(reg: Seq<StdSymbol>, path: Seq<char>) -> Option<IntrinsicDescriptor>
    decreases reg.len(),
{
    if reg.len() == 0 {
        None
    } else if reg[0].path@ == path {
        reg[0].intrinsic
    } else {
        registry_lookup(reg.drop_first(), path)
    }
}

/// The intrinsic of the first standard symbol with path `path`.
fn lookup_qualified<'a>(reg: &'a Vec<StdSymbol>, path: &String) -> (r: Option<&'a IntrinsicDescriptor>)
    ensures
        match registry_lookup(reg@, path@) {
            Some(d) => r == Some(&d),
            None => r is None,
        },
{
    let n = reg.len();
    proof {
        assert(reg@.skip(0) =~= reg@);
    }
    for i in 0..n
        invariant
            n == reg@.len(),
            registry_lookup(reg@, path@) == registry_lookup(reg@.skip(i as int), path@),
    {
        proof {
            assert(reg@.skip(i as int).drop_first() =~= reg@.skip(i + 1));
            assert(reg@.skip(i as int)[0] == reg@[i as int]);
        }
        if reg[i].path == *path {
            return match &reg[i].intrinsic {
                Some(d) => Some(d),
                None => None,
            };
        }
    }
    proof {
        assert(reg@.skip(n as int).len() == 0);
    }
    None
}

/// The handlers the interpreter registers: which intrinsics it runs, under which
/// dispatch category.
pub struct StdIntrinsicHandlerRegistry {
    pub handlers: Vec<StdIntrinsicIdentity>,
}

/// The registered handlers as a set of (intrinsic, dispatch) pairs.
pub open spec fn handler_set(handlers: Seq<StdIntrinsicIdentity>) -> Set<(u32, IntrinsicDispatch)> {
    Set::new(
        |h: (u32, IntrinsicDispatch)|
            exists|i: int|
                0 <= i < handlers.len() && (#[trigger] handlers[i]).intrinsic.0 == h.0
                    && handlers[i].dispatch == h.1,
    )
}

/// The report for an intrinsic without a registered handler.
pub open spec fn no_handler_message(d: IntrinsicDescriptor) -> Seq<char> {
    "standard intrinsic "@ + d.name@ + " has no registered "@ + dispatch_name(d.dispatch)
        + " handler"@
}

impl StdIntrinsicHandlerRegistry {
    /// There is a handler for `intrinsic` under `dispatch`.
    pub fn contains(&self, intrinsic: StdIntrinsicId, dispatch: IntrinsicDispatch) -> (r: bool)
        ensures
            r == handler_set(self.handlers@).contains((intrinsic.0, dispatch)),
    {
        let n = self.handlers.len();
        for i in 0..n
            invariant
                n == self.handlers@.len(),
                forall|k: int|
                    0 <= k < i ==> !((#[trigger] self.handlers@[k]).intrinsic.0 == intrinsic.0
                        && self.handlers@[k].dispatch == dispatch),
        {
            if self.handlers[i].intrinsic.0 == intrinsic.0 && self.handlers[i].dispatch == dispatch {
                return true;
            }
        }
        false
    }

    /// Checks that an imported intrinsic has a handler.
    pub fn validate_descriptor(&self, d: &IntrinsicDescriptor) -> (r: Result<(), String>)
        ensures
            match r {
                Ok(()) => handler_set(self.handlers@).contains((d.id.0, d.dispatch)),
                Err(m) => !handler_set(self.handlers@).contains((d.id.0, d.dispatch)) && m@
                    == no_handler_message(*d),
            },
    {
        if self.contains(d.id, d.dispatch) {
            Ok(())
        } else {
            let m = crate::text::enclose("standard intrinsic ", d.name.as_str(), " has no registered ");
            let m = crate::text::enclose(m.as_str(), dispatch_name_of(d.dispatch), " handler");
            Err(m)
        }
    }
}


/// What the imports of the first symbols establish: the reports, the dispatch of each
/// imported intrinsic, and the intrinsic identity of each import symbol.
pub struct ImportState {
    pub errors: Seq<Seq<char>>,
    pub imported: Map<u32, IntrinsicDispatch>,
    pub identities: Map<u32, StdIntrinsicIdentity>,
}

/// The report for an intrinsic imported under two dispatch categories.
pub open spec fn conflict_message(id: StdIntrinsicId, earlier: IntrinsicDispatch, later: IntrinsicDispatch) -> Seq<char> {
    "standard intrinsic "@ + decimal(id.0 as nat) + " is imported with conflicting "@ + dispatch_name(earlier)
        + " and "@ + dispatch_name(later) + " dispatch categories"@
}

/// Takes one more symbol into account. The dispatch recorded for an intrinsic is the
/// latest one imported, also when it conflicts with an earlier one.
pub open spec fn import_step(
    st: ImportState,
    s: SymbolData,
    reg: Seq<StdSymbol>,
    handlers: Set<(u32, IntrinsicDispatch)>,
) -> ImportState {
    match s.def {
        SymbolDef::ImportAlias { path } => match registry_lookup(reg, path@) {
            Some(d) => if !handlers.contains((d.id.0, d.dispatch)) {
                ImportState {
                    errors: st.errors.push(no_handler_message(d)),
                    imported: st.imported,
                    identities: st.identities,
                }
            } else if st.imported.contains_key(d.id.0) && st.imported[d.id.0] != d.dispatch {
                ImportState {
                    errors: st.errors.push(conflict_message(d.id, st.imported[d.id.0], d.dispatch)),
                    imported: st.imported.insert(d.id.0, d.dispatch),
                    identities: st.identities,
                }
            } else {
                ImportState {
                    errors: st.errors,
                    imported: st.imported.insert(d.id.0, d.dispatch),
                    identities: st.identities.insert(
                        s.id.0,
                        StdIntrinsicIdentity { intrinsic: d.id, dispatch: d.dispatch },
                    ),
                }
            },
            None => st,
        },
        _ => st,
    }
}

/// What the imports of the first `k` symbols establish.
pub open spec fn imports(
    symbols: Seq<SymbolData>,
    reg: Seq<StdSymbol>,
    handlers: Set<(u32, IntrinsicDispatch)>,
    k: nat,
) -> ImportState
    decreases k,
{
    if k == 0 {
        ImportState { errors: Seq::empty(), imported: Map::empty(), identities: Map::empty() }
    } else {
        import_step(imports(symbols, reg, handlers, (k - 1) as nat), symbols[k - 1], reg, handlers)
    }
}

/// The texts of a list of strings.
pub open spec fn texts(v: Seq<String>) -> Seq<Seq<char>> {
    v.map_values(|s: String| s@)
}

/// The identity recorded for symbol `x`.
pub open spec fn ident_at(v: Seq<Option<StdIntrinsicIdentity>>, x: SymbolId) -> Option<StdIntrinsicIdentity> {
    if x.0 < v.len() {
        v[x.0 as int]
    } else {
        None
    }
}

/// The identities by symbol position agree with the identity map of the first `k` symbols.
pub open spec fn identities_match(v: Seq<Option<StdIntrinsicIdentity>>, m: Map<u32, StdIntrinsicIdentity>, k: int) -> bool {
    &&& v.len() == k
    &&& forall|j: int| 0 <= j < k ==> #[trigger] v[j] == (if m.contains_key(j as u32) {
        Some(m[j as u32])
    } else {
        None
    })
    &&& forall|key: u32| #[trigger] m.contains_key(key) ==> key < k
}

/// Processes the imports of all symbols.
#[verifier::rlimit(50)]
fn collect_imports(
    project: &CheckedProject,
    handlers: &StdIntrinsicHandlerRegistry,
) -> (r: (Vec<String>, HashMap<u32, IntrinsicDispatch>, Vec<Option<StdIntrinsicIdentity>>))
    ensures
        ({
            let st = imports(
                project.symbols@,
                project.std_registry.symbols@,
                handler_set(handlers.handlers@),
                project.symbols@.len(),
            );
            &&& texts(r.0@) == st.errors
            &&& r.1@ == st.imported
            &&& identities_match(r.2@, st.identities, project.symbols@.len() as int)
        }),
{
    let ghost syms = project.symbols@;
    let ghost reg = project.std_registry.symbols@;
    let ghost hs = handler_set(handlers.handlers@);
    let n = project.symbols.len();
    let mut errors: Vec<String> = Vec::new();
    let mut imported: HashMap<u32, IntrinsicDispatch> = HashMap::new();
    let mut identities: Vec<Option<StdIntrinsicIdentity>> = Vec::new();
    proof {
        assert(texts(errors@) =~= Seq::<Seq<char>>::empty());
        assert(imported@ =~= Map::<u32, IntrinsicDispatch>::empty());
    }
    for k in 0..n
        invariant
            n == syms.len(),
            syms == project.symbols@,
            reg == project.std_registry.symbols@,
            hs == handler_set(handlers.handlers@),
            crate::program::symbols_numbered(syms),
            texts(errors@) == imports(syms, reg, hs, k as nat).errors,
            imported@ == imports(syms, reg, hs, k as nat).imported,
            identities_match(identities@, imports(syms, reg, hs, k as nat).identities, k as int),
    {
        let symbol = project.symbols.at(k);
        let ghost st = imports(syms, reg, hs, k as nat);
        let ghost e0 = errors@;
        proof {
            assert(symbol.id.0 == k);
        }
        let mut found: Option<StdIntrinsicIdentity> = None;
        if let SymbolDef::ImportAlias { path } = &symbol.def {
            if let Some(d) = lookup_qualified(&project.std_registry.symbols, path) {
                match handlers.validate_descriptor(d) {
                    Err(m) => {
                        errors.push(m);
                        proof {
                            assert(texts(errors@) =~= texts(e0).push(no_handler_message(*d)));
                        }
                    },
                    Ok(()) => {
                        let previous = match imported.get(&d.id.0) {
                            Some(p) => Some(*p),
                            None => None,
                        };
                        imported.insert(d.id.0, d.dispatch);
                        match previous {
                            Some(p) => {
                                if p != d.dispatch {
                                    let m = with_number("standard intrinsic ", d.id.0, " is imported with conflicting ");
                                    let m = crate::text::enclose(m.as_str(), dispatch_name_of(p), " and ");
                                    let m = crate::text::enclose(m.as_str(), dispatch_name_of(d.dispatch), " dispatch categories");
                                    errors.push(m);
                                    proof {
                                        assert(texts(errors@) =~= texts(e0).push(conflict_message(d.id, p, d.dispatch)));
                                    }
                                } else {
                                    found = Some(StdIntrinsicIdentity { intrinsic: d.id, dispatch: d.dispatch });
                                }
                            },
                            None => {
                                found = Some(StdIntrinsicIdentity { intrinsic: d.id, dispatch: d.dispatch });
                            },
                        }
                    },
                }
            }
        }
        let ghost v0 = identities@;
        identities.push(found);
        proof {
            let next = imports(syms, reg, hs, (k + 1) as nat);
            assert(next == import_step(st, syms[k as int], reg, hs));
            assert(syms[k as int] == *symbol);
            assert forall|j: int| 0 <= j < k + 1 implies #[trigger] identities@[j] == (if next.identities.contains_key(j as u32) {
                Some(next.identities[j as u32])
            } else {
                None
            }) by {
                if j < k {
                    assert(identities@[j] == v0[j]);
                    assert(j as u32 != k as u32);
                }
            }
        }
    }
    (errors, imported, identities)
}


/// The intrinsic that expression `e` names: a resolved path to an import symbol.
pub open spec fn expr_intrinsic(p: CheckedProject, ids: Seq<Option<StdIntrinsicIdentity>>, e: HirExprId) -> Option<u32> {
    if e.0 < p.hir.exprs@.len() {
        match p.hir.exprs@[e.0 as int] {
            HirExpr::Path(path) => match path.resolution {
                ResolveResult::Resolved(x) => match ident_at(ids, x) {
                    Some(i) => Some(i.intrinsic.0),
                    None => None,
                },
                _ => None,
            },
            _ => None,
        }
    } else {
        None
    }
}

/// The expressions inside item `item`.
pub open spec fn item_exprs_of(p: CheckedProject, item: ItemId) -> Seq<HirExprId> {
    if item.0 < p.hir.item_exprs@.len() {
        p.hir.item_exprs@[item.0 as int]@
    } else {
        Seq::empty()
    }
}

/// The intrinsics named inside the items reachable from the entry.
pub open spec fn reachable_from(p: CheckedProject, ids: Seq<Option<StdIntrinsicIdentity>>) -> Set<u32> {
    let items = p.reachability.reachable_items@;
    Set::new(
        |id: u32|
            exists|r: int, j: int|
                0 <= r < items.len() && 0 <= j < item_exprs_of(p, items[r]).len() && #[trigger] expr_intrinsic(
                    p,
                    ids,
                    item_exprs_of(p, items[r])[j],
                ) == Some(id),
    )
}

/// The `r`-th reachable item does not exist.
pub open spec fn missing_item(p: CheckedProject, r: int) -> bool {
    p.reachability.reachable_items@[r].0 >= p.hir.items@.len()
}

/// The report for the first reachable item that does not exist.
pub open spec fn reachability_error(p: CheckedProject, m: Seq<char>) -> bool {
    exists|r: int|
        0 <= r < p.reachability.reachable_items@.len() && #[trigger] missing_item(p, r) && (forall|r2: int|
            0 <= r2 < r ==> !#[trigger] missing_item(p, r2)) && m == "entry reachability references missing HIR item "@
            + decimal(p.reachability.reachable_items@[r].0 as nat)
}

/// Reachable positions before item `r`, expression `j`.
spec fn reach_visited(p: CheckedProject, r: int, j: int, r2: int, j2: int) -> bool {
    &&& 0 <= r2 < p.reachability.reachable_items@.len()
    &&& 0 <= j2 < item_exprs_of(p, p.reachability.reachable_items@[r2]).len()
    &&& (r2 < r || (r2 == r && j2 < j))
}

/// The intrinsics named at the reachable positions before item `r`, expression `j`.
spec fn reach_upto(p: CheckedProject, ids: Seq<Option<StdIntrinsicIdentity>>, r: int, j: int) -> Set<u32> {
    let items = p.reachability.reachable_items@;
    Set::new(
        |id: u32|
            exists|r2: int, j2: int|
                reach_visited(p, r, j, r2, j2) && #[trigger] expr_intrinsic(
                    p,
                    ids,
                    item_exprs_of(p, items[r2])[j2],
                ) == Some(id),
    )
}

/// The intrinsic that expression `e` names.
fn intrinsic_of(project: &CheckedProject, ids: &Vec<Option<StdIntrinsicIdentity>>, e: HirExprId) -> (r: Option<u32>)
    ensures
        r == expr_intrinsic(*project, ids@, e),
{
    let i = e.0 as usize;
    if i >= project.hir.exprs.len() {
        return None;
    }
    match &project.hir.exprs[i] {
        HirExpr::Path(path) => match &path.resolution {
            ResolveResult::Resolved(x) => {
                let k = x.0 as usize;
                if k < ids.len() {
                    match ids[k] {
                        Some(identity) => Some(identity.intrinsic.0),
                        None => None,
                    }
                } else {
                    None
                }
            },
            _ => None,
        },
        _ => None,
    }
}

/// The intrinsics the entry can reach.
#[verifier::rlimit(50)]
fn collect_reachable(project: &CheckedProject, ids: &Vec<Option<StdIntrinsicIdentity>>) -> (r: Result<
    HashSet<u32>,
    String,
>)
    ensures
        match r {
            Ok(set) => {
                &&& forall|k: int|
                    0 <= k < project.reachability.reachable_items@.len() ==> !#[trigger] missing_item(*project, k)
                &&& set@ == reachable_from(*project, ids@)
            },
            Err(m) => reachability_error(*project, m@),
        },
{
    let ghost p = *project;
    let items = &project.reachability.reachable_items;
    let n = items.len();
    let mut reachable: HashSet<u32> = HashSet::new();
    proof {
        assert(reachable@ =~= reach_upto(p, ids@, 0, 0));
    }
    for r in 0..n
        invariant
            p == *project,
            *items == p.reachability.reachable_items,
            n == items@.len(),
            forall|k: int| 0 <= k < r ==> !#[trigger] missing_item(p, k),
            reachable@ == reach_upto(p, ids@, r as int, 0),
    {
        let item = items[r];
        if item.0 as usize >= project.hir.items.len() {
            let m = with_number("entry reachability references missing HIR item ", item.0, "");
            proof {
                assert(missing_item(p, r as int));
                reveal_strlit("");
                assert(m@ =~= "entry reachability references missing HIR item "@ + decimal(item.0 as nat));
            }
            return Err(m);
        }
        let ghost ex = item_exprs_of(p, item);
        let count = if (item.0 as usize) < project.hir.item_exprs.len() {
            project.hir.item_exprs[item.0 as usize].len()
        } else {
            0
        };
        proof {
            assert(count == ex.len());
            assert(reach_upto(p, ids@, r as int, 0) =~= reach_upto(p, ids@, r as int, 0));
        }
        for j in 0..count
            invariant
                p == *project,
                *items == p.reachability.reachable_items,
                n == items@.len(),
                r < n,
                item == items@[r as int],
                ex == item_exprs_of(p, item),
                count == ex.len(),
                reachable@ == reach_upto(p, ids@, r as int, j as int),
        {
            let e = project.hir.item_exprs[item.0 as usize][j];
            proof {
                assert(e == ex[j as int]);
            }
            let ghost before = reachable@;
            match intrinsic_of(project, ids, e) {
                Some(id) => {
                    reachable.insert(id);
                },
                None => {},
            }
            proof {
                assert forall|id: u32| reachable@.contains(id) <==> reach_upto(p, ids@, r as int, j + 1).contains(id) by {
                    if reach_upto(p, ids@, r as int, j + 1).contains(id) {
                        let (r2, j2) = choose|r2: int, j2: int|
                            reach_visited(p, r as int, j + 1, r2, j2) && #[trigger] expr_intrinsic(
                                p,
                                ids@,
                                item_exprs_of(p, items@[r2])[j2],
                            ) == Some(id);
                        if !(r2 == r && j2 == j) {
                            assert(reach_visited(p, r as int, j as int, r2, j2));
                        }
                    }
                    if before.contains(id) {
                        let (r2, j2) = choose|r2: int, j2: int|
                            reach_visited(p, r as int, j as int, r2, j2) && #[trigger] expr_intrinsic(
                                p,
                                ids@,
                                item_exprs_of(p, items@[r2])[j2],
                            ) == Some(id);
                        assert(reach_visited(p, r as int, j + 1, r2, j2));
                    }
                    if expr_intrinsic(p, ids@, e) == Some(id) {
                        assert(reach_visited(p, r as int, j + 1, r as int, j as int));
                    }
                }
                assert(reachable@ =~= reach_upto(p, ids@, r as int, j + 1));
            }
        }
        proof {
            assert(reach_upto(p, ids@, r as int, count as int) =~= reach_upto(p, ids@, r + 1, 0)) by {
                assert forall|r2: int, j2: int| reach_visited(p, r as int, count as int, r2, j2) <==> reach_visited(p, r + 1, 0, r2, j2) by {}
            }
        }
    }
    proof {
        assert(reachable@ =~= reachable_from(p, ids@)) by {
            assert forall|id: u32| reachable@.contains(id) <==> reachable_from(p, ids@).contains(id) by {
                if reachable_from(p, ids@).contains(id) {
                    let (r2, j2) = choose|r2: int, j2: int|
                        0 <= r2 < items@.len() && 0 <= j2 < item_exprs_of(p, items@[r2]).len() && #[trigger] expr_intrinsic(
                            p,
                            ids@,
                            item_exprs_of(p, items@[r2])[j2],
                        ) == Some(id);
                    assert(reach_visited(p, n as int, 0, r2, j2));
                }
            }
        }
    }
    Ok(reachable)
}


/// The brace literal shape of expression `e`: that of its checked type, when that is a
/// record or a map type.
pub open spec fn brace_shape(p: CheckedProject, e: int) -> Option<BraceLiteralShape> {
    match crate::records::expr_type(p, e) {
        Some(ty) => if ty.0 < p.type_store@.len() {
            match p.type_store@[ty.0 as int] {
                Type::Record(_) => Some(BraceLiteralShape::Record),
                Type::MapOf => Some(BraceLiteralShape::MapLiteral),
                _ => None,
            }
        } else {
            None
        },
        None => None,
    }
}

/// What validating an intrinsic identity against a plan gives.
pub open spec fn validation(
    imported: Map<u32, IntrinsicDispatch>,
    reachable: Set<u32>,
    handlers: Set<(u32, IntrinsicDispatch)>,
    identity: StdIntrinsicIdentity,
) -> Result<(), Seq<char>> {
    let id = identity.intrinsic.0;
    let n = decimal(id as nat);
    if !imported.contains_key(id) {
        Err("standard intrinsic "@ + n + " is not imported by the current checked interpreter plan"@)
    } else if imported[id] != identity.dispatch {
        Err(
            "standard intrinsic "@ + n + " dispatch mismatch: current plan uses "@ + dispatch_name(
                imported[id],
            ) + ", checkpoint/call target declares "@ + dispatch_name(identity.dispatch),
        )
    } else if !reachable.contains(id) {
        Err("standard intrinsic "@ + n + " is not reachable from the current checked interpreter entry"@)
    } else if !handlers.contains((id, identity.dispatch)) {
        Err(
            "standard intrinsic "@ + n + " has no "@ + dispatch_name(identity.dispatch)
                + " handler in the current interpreter plan"@,
        )
    } else {
        Ok(())
    }
}

/// How the plan dispatches standard intrinsics, and the shape of brace literals.
pub struct IntrinsicDispatchTable {
    handlers: StdIntrinsicHandlerRegistry,
    std_intrinsics: Vec<Option<StdIntrinsicIdentity>>,
    imported_intrinsics: HashMap<u32, IntrinsicDispatch>,
    reachable_intrinsics: HashSet<u32>,
    brace_literals: Vec<Option<BraceLiteralShape>>,
}

impl IntrinsicDispatchTable {
    /// The identity of each import symbol, by symbol.
    pub closed spec fn identities(&self) -> Seq<Option<StdIntrinsicIdentity>> {
        self.std_intrinsics@
    }

    /// The dispatch of each imported intrinsic.
    pub closed spec fn imported(&self) -> Map<u32, IntrinsicDispatch> {
        self.imported_intrinsics@
    }

    /// The intrinsics the entry reaches.
    pub closed spec fn reachable(&self) -> Set<u32> {
        self.reachable_intrinsics@
    }

    /// The registered handlers.
    pub closed spec fn handlers(&self) -> Set<(u32, IntrinsicDispatch)> {
        handler_set(self.handlers.handlers@)
    }

    /// The brace literal shape of each expression.
    pub closed spec fn shapes(&self) -> Seq<Option<BraceLiteralShape>> {
        self.brace_literals@
    }

    /// The table is the one that `project` and the registered `handlers` give.
    pub open spec fn describes(&self, project: CheckedProject, handlers: Seq<StdIntrinsicIdentity>) -> bool {
        let st = imports(
            project.symbols@,
            project.std_registry.symbols@,
            handler_set(handlers),
            project.symbols@.len(),
        );
        &&& identities_match(self.identities(), st.identities, project.symbols@.len() as int)
        &&& self.imported() == st.imported
        &&& self.reachable() == reachable_from(project, self.identities())
        &&& self.handlers() == handler_set(handlers)
        &&& self.shapes().len() == project.types.expr_types@.len()
        &&& forall|e: int|
            0 <= e < self.shapes().len() ==> #[trigger] self.shapes()[e] == brace_shape(project, e)
    }

    /// Collects the imported intrinsics of a program, checks them against the registered
    /// handlers and the entry's reach, and records the shape of brace literals. The
    /// import reports come all together; a missing reachable item is reported alone.
    #[verifier::rlimit(50)]
    pub fn for_project(project: &CheckedProject, handlers: StdIntrinsicHandlerRegistry) -> (r: Result<
        Self,
        Vec<String>,
    >)
        ensures
            ({
                let st = imports(
                    project.symbols@,
                    project.std_registry.symbols@,
                    handler_set(handlers.handlers@),
                    project.symbols@.len(),
                );
                match r {
                    Ok(t) => {
                        &&& st.errors.len() == 0
                        &&& forall|k: int|
                            0 <= k < project.reachability.reachable_items@.len() ==> !#[trigger] missing_item(
                                *project,
                                k,
                            )
                        &&& t.describes(*project, handlers.handlers@)
                    },
                    Err(errors) => {
                        ||| st.errors.len() > 0 && texts(errors@) == st.errors
                        ||| st.errors.len() == 0 && errors@.len() == 1 && reachability_error(
                            *project,
                            errors@[0]@,
                        )
                    },
                }
            }),
    {
        let (errors, imported, identities) = collect_imports(project, &handlers);
        if errors.len() > 0 {
            return Err(errors);
        }
        let reachable = match collect_reachable(project, &identities) {
            Ok(set) => set,
            Err(m) => {
                let mut one: Vec<String> = Vec::new();
                one.push(m);
                return Err(one);
            },
        };
        let mut shapes: Vec<Option<BraceLiteralShape>> = Vec::new();
        let n = project.types.expr_types.len();
        for e in 0..n
            invariant
                n == project.types.expr_types@.len(),
                shapes@.len() == e,
                forall|k: int| 0 <= k < e ==> #[trigger] shapes@[k] == brace_shape(*project, k),
        {
            let shape = match project.types.expr_types[e] {
                Some(ty) => {
                    if (ty.0 as usize) < project.type_store.len() {
                        match &project.type_store[ty.0 as usize] {
                            Type::Record(_) => Some(BraceLiteralShape::Record),
                            Type::MapOf => Some(BraceLiteralShape::MapLiteral),
                            _ => None,
                        }
                    } else {
                        None
                    }
                },
                None => None,
            };
            shapes.push(shape);
        }
        Ok(IntrinsicDispatchTable {
            handlers,
            std_intrinsics: identities,
            imported_intrinsics: imported,
            reachable_intrinsics: reachable,
            brace_literals: shapes,
        })
    }

    /// The intrinsic identity of import symbol `symbol`.
    pub fn std_intrinsic(&self, symbol: SymbolId) -> (r: Option<StdIntrinsicIdentity>)
        ensures
            r == ident_at(self.identities(), symbol),
    {
        let i = symbol.0 as usize;
        if i < self.std_intrinsics.len() {
            self.std_intrinsics[i]
        } else {
            None
        }
    }

    /// Checks that the plan can run `identity`: it is imported under the same dispatch,
    /// reachable from the entry, and has a handler.
    pub fn validate_std_intrinsic(&self, identity: StdIntrinsicIdentity) -> (r: Result<(), String>)
        ensures
            match validation(self.imported(), self.reachable(), self.handlers(), identity) {
                Ok(()) => r is Ok,
                Err(m) => r matches Err(x) && x@ == m,
            },
    {
        let id = identity.intrinsic.0;
        let imported = match self.imported_intrinsics.get(&id) {
            Some(d) => *d,
            None => {
                return Err(with_number(
                    "standard intrinsic ",
                    id,
                    " is not imported by the current checked interpreter plan",
                ));
            },
        };
        if imported != identity.dispatch {
            let m = with_number("standard intrinsic ", id, " dispatch mismatch: current plan uses ");
            let m = crate::text::enclose(m.as_str(), dispatch_name_of(imported), ", checkpoint/call target declares ");
            let m = crate::text::enclose(m.as_str(), dispatch_name_of(identity.dispatch), "");
            proof {
                reveal_strlit("");
                assert(m@ =~= "standard intrinsic "@ + decimal(id as nat) + " dispatch mismatch: current plan uses "@ + dispatch_name(
                    imported,
                ) + ", checkpoint/call target declares "@ + dispatch_name(identity.dispatch));
            }
            return Err(m);
        }
        if !self.reachable_intrinsics.contains(&id) {
            return Err(with_number(
                "standard intrinsic ",
                id,
                " is not reachable from the current checked interpreter entry",
            ));
        }
        if !self.handlers.contains(identity.intrinsic, identity.dispatch) {
            let m = with_number("standard intrinsic ", id, " has no ");
            let m = crate::text::enclose(m.as_str(), dispatch_name_of(identity.dispatch), " handler in the current interpreter plan");
            return Err(m);
        }
        Ok(())
    }

    /// Checks that the plan can run `intrinsic` as a pure kernel.
    pub fn validate_pure_intrinsic(&self, intrinsic: StdIntrinsicId) -> (r: Result<(), String>)
        ensures
            match validation(
                self.imported(),
                self.reachable(),
                self.handlers(),
                StdIntrinsicIdentity { intrinsic, dispatch: IntrinsicDispatch::PureKernel },
            ) {
                Ok(()) => r is Ok,
                Err(m) => r matches Err(x) && x@ == m,
            },
    {
        self.validate_std_intrinsic(StdIntrinsicIdentity { intrinsic, dispatch: IntrinsicDispatch::PureKernel })
    }

    /// Expression `expr` builds a map.
    pub fn is_map_expr(&self, expr: HirExprId) -> (r: bool)
        ensures
            r == (expr.0 < self.shapes().len() && self.shapes()[expr.0 as int] == Some(
                BraceLiteralShape::MapLiteral,
            )),
    {
        let i = expr.0 as usize;
        i < self.brace_literals.len() && match self.brace_literals[i] {
            Some(BraceLiteralShape::MapLiteral) => true,
            _ => false,
        }
    }

    /// The shape of the brace literal at `expr`.
    pub fn brace_literal_shape(&self, expr: HirExprId) -> (r: Option<BraceLiteralShape>)
        ensures
            r == if expr.0 < self.shapes().len() {
                self.shapes()[expr.0 as int]
            } else {
                None
            },
    {
        let i = expr.0 as usize;
        if i < self.brace_literals.len() {
            self.brace_literals[i]
        } else {
            None
        }
    }
}


/// The report for the `r`-th reachable item, which does not exist.
pub open spec fn missing_item_message(p: CheckedProject, r: int) -> Seq<char> {
    "entry reachability references missing HIR item "@ + decimal(
        p.reachability.reachable_items@[r].0 as nat,
    )
}

/// The first reachable item that does not exist.
pub open spec fn first_missing(p: CheckedProject) -> int {
    choose|r: int|
        0 <= r < p.reachability.reachable_items@.len() && missing_item(p, r) && forall|r2: int|
            0 <= r2 < r ==> !#[trigger] missing_item(p, r2)
}

/// What building the dispatch table reports: the import reports, else the first missing
/// reachable item, else nothing.
pub open spec fn dispatch_errors(p: CheckedProject, handlers: Seq<StdIntrinsicIdentity>) -> Seq<Seq<char>> {
    let st = imports(p.symbols@, p.std_registry.symbols@, handler_set(handlers), p.symbols@.len());
    if st.errors.len() > 0 {
        st.errors
    } else if exists|r: int| 0 <= r < p.reachability.reachable_items@.len() && #[trigger] missing_item(p, r) {
        seq![missing_item_message(p, first_missing(p))]
    } else {
        Seq::empty()
    }
}

/// If some reachable item is missing, there is a first one.
proof fn lemma_first_missing(p: CheckedProject, r: int)
    requires
        0 <= r < p.reachability.reachable_items@.len(),
        missing_item(p, r),
    ensures
        0 <= first_missing(p) <= r,
        missing_item(p, first_missing(p)),
        forall|r2: int| 0 <= r2 < first_missing(p) ==> !#[trigger] missing_item(p, r2),
    decreases r,
{
    if exists|r2: int| 0 <= r2 < r && #[trigger] missing_item(p, r2) {
        let r2 = choose|r2: int| 0 <= r2 < r && #[trigger] missing_item(p, r2);
        lemma_first_missing(p, r2);
    } else {
        assert(0 <= r < p.reachability.reachable_items@.len() && missing_item(p, r) && forall|r2: int|
            0 <= r2 < r ==> !#[trigger] missing_item(p, r2));
    }
}

/// The reports of building the dispatch table are `dispatch_errors`.
pub proof fn lemma_dispatch_errors(p: CheckedProject, handlers: Seq<StdIntrinsicIdentity>, errors: Seq<Seq<char>>)
    requires
        ({
            let st = imports(p.symbols@, p.std_registry.symbols@, handler_set(handlers), p.symbols@.len());
            ||| st.errors.len() > 0 && errors == st.errors
            ||| st.errors.len() == 0 && errors.len() == 1 && reachability_error(p, errors[0])
        }),
    ensures
        errors == dispatch_errors(p, handlers),
{
    let st = imports(p.symbols@, p.std_registry.symbols@, handler_set(handlers), p.symbols@.len());
    if st.errors.len() == 0 {
        let r = choose|r: int|
            0 <= r < p.reachability.reachable_items@.len() && #[trigger] missing_item(p, r) && (forall|r2: int|
                0 <= r2 < r ==> !#[trigger] missing_item(p, r2)) && errors[0] == "entry reachability references missing HIR item "@
                + decimal(p.reachability.reachable_items@[r].0 as nat);
        lemma_first_missing(p, r);
        let f = first_missing(p);
        if f < r {
        } else if r < f {
        }
        assert(errors =~= seq![missing_item_message(p, f)]);
    }
}

} // verus!
