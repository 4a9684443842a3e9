use etas_interpreter::captures::{scope_chain, ClosureLayoutTable};
use etas_interpreter::ids::{HirExprId, ItemId, ScopeId, SymbolId};
use etas_interpreter::program::{
    CheckedProject, EffectFacts, FlowDecl, HirExpr, HirFieldInit, HirItem, HirPath, HirProgram,
    HirRecordExpr, Reachability, ResolveResult, StdRegistry, SupportFacts, SymbolDef, SymbolKind,
    SymbolTable, TypeFacts,
};
use etas_interpreter::scope_tree::{ScopeOwner, ScopeTree};
use etas_interpreter::slots::SlotLayoutTable;

fn empty_project() -> CheckedProject {
    CheckedProject {
        entry: None,
        hir: HirProgram {
            items: vec![],
            exprs: vec![],
            pats: vec![],
            scopes: ScopeTree::new(),
            handler_arms: vec![],
            expr_scopes: vec![],
            item_exprs: vec![],
        },
        symbols: SymbolTable::new(),
        types: TypeFacts {
            expr_types: vec![],
            pattern_types: vec![],
            field_projections: vec![],
            symbol_types: vec![],
        },
        type_store: vec![],
        std_registry: StdRegistry { symbols: vec![] },
        reachability: Reachability { reachable_items: vec![] },
        effects: EffectFacts { item_effects: vec![] },
        interpreter_support: SupportFacts { entry: None, items: vec![] },
    }
}

fn param(project: &mut CheckedProject, name: &str) -> SymbolId {
    project.symbols.allocate(name.to_string(), SymbolKind::Param, SymbolDef::Other)
}

fn path_to(symbol: SymbolId) -> HirExpr {
    HirExpr::Path(HirPath { resolution: ResolveResult::Resolved(symbol) })
}

// module app.main;
// flow sibling(other: i32) -> i32 { return other; }
// flow main(seed: i32) -> () -> i32 { return () => seed; }
fn sibling_and_closure() -> (CheckedProject, SymbolId, SymbolId) {
    let mut checked = empty_project();
    let other = param(&mut checked, "other");
    let seed = param(&mut checked, "seed");
    let module = checked.hir.scopes.allocate(None, ScopeOwner::Module);
    let sibling = checked.hir.scopes.allocate(Some(module), ScopeOwner::Item(ItemId(0)));
    checked.hir.scopes.insert(sibling, other);
    let main = checked.hir.scopes.allocate(Some(module), ScopeOwner::Item(ItemId(1)));
    checked.hir.scopes.insert(main, seed);
    let lambda = checked.hir.scopes.allocate(Some(main), ScopeOwner::Lambda(HirExprId(0)));
    checked.hir.items.push(HirItem::Flow(FlowDecl { scope: sibling, params: vec![other] }));
    checked.hir.items.push(HirItem::Flow(FlowDecl { scope: main, params: vec![seed] }));
    // e0: the lambda, e1: `seed` in its body, e2: `other` in sibling
    checked.hir.exprs.push(HirExpr::Lambda);
    checked.hir.exprs.push(path_to(seed));
    checked.hir.exprs.push(path_to(other));
    checked.hir.expr_scopes = vec![Some(main), Some(lambda), Some(sibling)];
    checked.entry = Some(ItemId(1));
    (checked, seed, other)
}

#[test]
fn capture_planning_rejects_a_resolved_local_from_a_sibling_flow() {
    let (mut checked, seed, other) = sibling_and_closure();
    let slots = SlotLayoutTable::for_project(&checked);
    let layouts = ClosureLayoutTable::build(&checked, &slots).ok().unwrap();
    let layout = layouts.get(HirExprId(0)).unwrap();
    assert_eq!(layout.captures, vec![seed]);
    // resolving the lambda's use to the sibling flow's parameter escapes its lexical scope
    checked.hir.exprs[1] = path_to(other);
    let error = ClosureLayoutTable::build(&checked, &slots).err().unwrap();
    assert!(error.contains("outside the lexical scope"), "{error}");
    assert_eq!(
        error,
        format!("local symbol SymbolId({}) is outside the lexical scope of HirExprId(1)", other.0)
    );
}

#[test]
fn closure_slots_hold_own_locals_then_captures() {
    let (mut checked, seed, _) = sibling_and_closure();
    let inner = checked.symbols.allocate("inner".to_string(), SymbolKind::Local, SymbolDef::Other);
    checked.hir.scopes.insert(ScopeId(3), inner);
    checked.hir.exprs.push(path_to(inner));
    checked.hir.expr_scopes.push(Some(ScopeId(3)));
    let slots = SlotLayoutTable::for_project(&checked);
    let layouts = ClosureLayoutTable::build(&checked, &slots).ok().unwrap();
    let layout = layouts.get(HirExprId(0)).unwrap();
    assert_eq!(layout.slots.symbols(), &[inner, seed][..]);
    assert_eq!(layout.captures, vec![seed]);
    assert!(layouts.get(HirExprId(1)).is_none());
}

#[test]
fn record_shorthand_fields_are_uses() {
    let (mut checked, seed, _) = sibling_and_closure();
    checked.hir.exprs[1] = HirExpr::Record(HirRecordExpr {
        path: None,
        fields: vec![HirFieldInit::Shorthand {
            name: "seed".to_string(),
            resolution: ResolveResult::Resolved(seed),
        }],
    });
    let slots = SlotLayoutTable::for_project(&checked);
    let layouts = ClosureLayoutTable::build(&checked, &slots).ok().unwrap();
    assert_eq!(layouts.get(HirExprId(0)).unwrap().captures, vec![seed]);
}

#[test]
fn programs_without_lambdas_get_an_empty_table() {
    let (mut checked, _, _) = sibling_and_closure();
    checked.hir.exprs[0] = HirExpr::Other;
    // even a dangling scope reference is not looked at
    checked.hir.expr_scopes = vec![];
    let slots = SlotLayoutTable::for_project(&checked);
    let layouts = ClosureLayoutTable::build(&checked, &slots).ok().unwrap();
    assert!(layouts.get(HirExprId(0)).is_none());
}

#[test]
fn closure_errors_name_the_fault() {
    let (mut checked, seed, _) = sibling_and_closure();
    let slots = SlotLayoutTable::for_project(&checked);
    checked.hir.expr_scopes[1] = None;
    assert_eq!(
        ClosureLayoutTable::build(&checked, &slots).err().unwrap(),
        "local use has no enclosing scope"
    );
    let (mut twice, _, _) = sibling_and_closure();
    twice.hir.scopes.insert(ScopeId(3), seed);
    assert_eq!(
        ClosureLayoutTable::build(&twice, &slots).err().unwrap(),
        format!("local symbol SymbolId({}) has multiple declaring scopes", seed.0)
    );
}

#[test]
fn scope_chains_end_at_a_root_or_report_the_fault() {
    let (checked, _, _) = sibling_and_closure();
    assert_eq!(scope_chain(&checked.hir.scopes, ScopeId(3)).unwrap(), vec![3usize, 2, 0]);
    let mut broken = ScopeTree::new();
    broken.allocate(Some(ScopeId(5)), ScopeOwner::Module);
    assert_eq!(scope_chain(&broken, ScopeId(0)).unwrap_err(), "missing closure scope");
    let mut cyclic = ScopeTree::new();
    cyclic.allocate(Some(ScopeId(1)), ScopeOwner::Module);
    cyclic.allocate(Some(ScopeId(0)), ScopeOwner::Module);
    assert_eq!(scope_chain(&cyclic, ScopeId(1)).unwrap_err(), "cyclic closure scope ancestry");
}

#[test]
fn closure_planning_reads_scope_ancestry_once_not_per_local_use() {
    for count in [1000usize, 2000, 4000] {
        // module app.main; flow main(seed: i32) -> () -> i32 { return () => {
        //     let local_0 = seed; ... let local_{count-1} = seed; return seed; }; }
        let mut checked = empty_project();
        let seed = param(&mut checked, "seed");
        let module = checked.hir.scopes.allocate(None, ScopeOwner::Module);
        let main = checked.hir.scopes.allocate(Some(module), ScopeOwner::Item(ItemId(0)));
        checked.hir.scopes.insert(main, seed);
        let body = checked.hir.scopes.allocate(Some(main), ScopeOwner::Lambda(HirExprId(0)));
        checked.hir.items.push(HirItem::Flow(FlowDecl { scope: main, params: vec![seed] }));
        checked.hir.exprs.push(HirExpr::Lambda);
        checked.hir.expr_scopes.push(Some(main));
        for n in 0..count {
            let local = checked.symbols.allocate(format!("local_{n}"), SymbolKind::Local, SymbolDef::Other);
            checked.hir.scopes.insert(body, local);
            checked.hir.exprs.push(path_to(seed));
            checked.hir.expr_scopes.push(Some(body));
        }
        checked.hir.exprs.push(path_to(seed));
        checked.hir.expr_scopes.push(Some(body));
        checked.entry = Some(ItemId(0));
        let slots = SlotLayoutTable::for_project(&checked);
        let layouts = ClosureLayoutTable::build(&checked, &slots).ok().unwrap();
        let layout = layouts.get(HirExprId(0)).unwrap();
        assert!(layouts.get(HirExprId(1)).is_none());
        assert_eq!(layout.captures.len(), 1);
        assert_eq!(checked.symbols.get(layout.captures[0]).unwrap().name, "seed");
        assert_eq!(layout.slots.slot_count(), count + 1);
    }
}

#[test]
fn nested_closure_frames_hold_each_symbol_once() {
    // flow main(seed: i32) { let outer = () => { let a = seed; let inner = () => a + seed; }; }
    let mut checked = empty_project();
    let seed = param(&mut checked, "seed");
    let module = checked.hir.scopes.allocate(None, ScopeOwner::Module);
    let main = checked.hir.scopes.allocate(Some(module), ScopeOwner::Item(ItemId(0)));
    checked.hir.scopes.insert(main, seed);
    let outer = checked.hir.scopes.allocate(Some(main), ScopeOwner::Lambda(HirExprId(0)));
    let a = checked.symbols.allocate("a".to_string(), SymbolKind::Local, SymbolDef::Other);
    checked.hir.scopes.insert(outer, a);
    let inner = checked.hir.scopes.allocate(Some(outer), ScopeOwner::Lambda(HirExprId(1)));
    checked.hir.items.push(HirItem::Flow(FlowDecl { scope: main, params: vec![seed] }));
    checked.hir.exprs.push(HirExpr::Lambda);
    checked.hir.exprs.push(HirExpr::Lambda);
    checked.hir.exprs.push(path_to(a));
    checked.hir.exprs.push(path_to(seed));
    checked.hir.expr_scopes = vec![Some(main), Some(outer), Some(inner), Some(inner)];
    checked.entry = Some(ItemId(0));
    let slots = SlotLayoutTable::for_project(&checked);
    let layouts = ClosureLayoutTable::build(&checked, &slots).ok().unwrap();
    let outer_layout = layouts.get(HirExprId(0)).unwrap();
    // the outer closure owns `a` and forwards `seed` to the inner one
    assert_eq!(outer_layout.slots.symbols(), &[a, seed][..]);
    assert_eq!(outer_layout.captures, vec![seed]);
    let inner_layout = layouts.get(HirExprId(1)).unwrap();
    assert_eq!(inner_layout.slots.symbols(), &[seed, a][..]);
    assert_eq!(inner_layout.captures, vec![seed, a]);
    for layout in [outer_layout, inner_layout] {
        let symbols = layout.slots.symbols();
        for i in 0..symbols.len() {
            for j in 0..i {
                assert_ne!(symbols[i], symbols[j]);
            }
        }
    }
}

#[test]
fn the_first_closure_fault_is_reported() {
    // a scope with a missing parent comes before a second declaration of `seed`
    let (mut checked, seed, _) = sibling_and_closure();
    let lost = checked.symbols.allocate("lost".to_string(), SymbolKind::Local, SymbolDef::Other);
    let orphan = checked.hir.scopes.allocate(Some(ScopeId(9)), ScopeOwner::Module);
    checked.hir.scopes.insert(orphan, lost);
    let again = checked.hir.scopes.allocate(Some(ScopeId(2)), ScopeOwner::Module);
    checked.hir.scopes.insert(again, seed);
    let slots = SlotLayoutTable::for_project(&checked);
    assert_eq!(ClosureLayoutTable::build(&checked, &slots).err().unwrap(), "missing closure scope");

    // a use that crosses a closure scope owned by a non-lambda expression on its way up
    // is reported as such, before its declaration is found to lie elsewhere
    let (mut crossing, seed2, other) = sibling_and_closure();
    let module = ScopeId(0);
    let mut scopes = ScopeTree::new();
    scopes.allocate(None, ScopeOwner::Module);
    let sibling = scopes.allocate(Some(module), ScopeOwner::Item(ItemId(0)));
    scopes.insert(sibling, other);
    let main = scopes.allocate(Some(module), ScopeOwner::Item(ItemId(1)));
    scopes.insert(main, seed2);
    scopes.allocate(Some(main), ScopeOwner::Lambda(HirExprId(2)));
    crossing.hir.scopes = scopes;
    crossing.hir.exprs[1] = path_to(other);
    let slots = SlotLayoutTable::for_project(&crossing);
    assert_eq!(
        ClosureLayoutTable::build(&crossing, &slots).err().unwrap(),
        "lambda scope has no expression"
    );
}
