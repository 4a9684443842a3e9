use etas_interpreter::frames::FrameLayoutTable;
use etas_interpreter::ids::{HirExprId, ItemId, ScopeId, SymbolId};
use etas_interpreter::program::{
    CheckedProject, EffectFacts, FlowDecl, HirItem, HirProgram, Reachability, StdRegistry,
    SupportFacts, SymbolDef, SymbolKind, SymbolTable, TypeFacts,
};
use etas_interpreter::scope_tree::{ScopeOwner, ScopeTree};
use etas_interpreter::slots::SlotLayoutTable;

fn empty_project() -> CheckedProject {
    CheckedProject {
        entry: None,
        hir: HirProgram {
            items: vec![],
            exprs: vec![],
            pats: vec![],
            scopes: ScopeTree::new(),
            handler_arms: vec![],
            expr_scopes: vec![],
            item_exprs: vec![],
        },
        symbols: SymbolTable::new(),
        types: TypeFacts {
            expr_types: vec![],
            pattern_types: vec![],
            field_projections: vec![],
            symbol_types: vec![],
        },
        type_store: vec![],
        std_registry: StdRegistry { symbols: vec![] },
        reachability: Reachability { reachable_items: vec![] },
        effects: EffectFacts { item_effects: vec![] },
        interpreter_support: SupportFacts { entry: None, items: vec![] },
    }
}

fn local(project: &mut CheckedProject, name: &str, kind: SymbolKind) -> SymbolId {
    project.symbols.allocate(name.to_string(), kind, SymbolDef::Other)
}

// module app.main;
// flow sibling(other: i32) -> i32 { return other; }
// flow main(seed: i32) -> () -> i32 {
//     var total = seed;
//     if seed > 0 { let branch_local = seed; total = branch_local; }
//     return () => { let lambda_local = total; return lambda_local; };
// }
fn sibling_and_main() -> (CheckedProject, ScopeId) {
    let mut checked = empty_project();
    let other = local(&mut checked, "other", SymbolKind::Param);
    let seed = local(&mut checked, "seed", SymbolKind::Param);
    let total = local(&mut checked, "total", SymbolKind::Local);
    let branch_local = local(&mut checked, "branch_local", SymbolKind::Local);
    let lambda_local = local(&mut checked, "lambda_local", SymbolKind::Local);
    let scopes = &mut checked.hir.scopes;
    let module = scopes.allocate(None, ScopeOwner::Module);
    let sibling = scopes.allocate(Some(module), ScopeOwner::Item(ItemId(0)));
    scopes.insert(sibling, other);
    let main = scopes.allocate(Some(module), ScopeOwner::Item(ItemId(1)));
    scopes.insert(main, seed);
    scopes.insert(main, total);
    let branch = scopes.allocate(Some(main), ScopeOwner::Block(etas_interpreter::ids::HirBlockId(0)));
    scopes.insert(branch, branch_local);
    let lambda = scopes.allocate(Some(main), ScopeOwner::Lambda(HirExprId(0)));
    scopes.insert(lambda, lambda_local);
    checked.hir.items.push(HirItem::Flow(FlowDecl { scope: sibling, params: vec![other] }));
    checked.hir.items.push(HirItem::Flow(FlowDecl { scope: main, params: vec![seed] }));
    checked.entry = Some(ItemId(1));
    (checked, main)
}

#[test]
fn callable_layouts_exclude_lambda_locals_and_unrelated_scopes() {
    let (checked, main) = sibling_and_main();
    let slots = SlotLayoutTable::for_project(&checked);
    let layouts = FrameLayoutTable::build(&checked, &slots).ok().unwrap();
    let HirItem::Flow(flow) = &checked.hir.items[checked.entry.unwrap().0 as usize] else {
        panic!("flow")
    };
    assert_eq!(flow.scope, main);
    let layout = layouts.get(flow.scope).unwrap();
    let mut names: Vec<&str> = layout
        .symbols()
        .iter()
        .map(|symbol| checked.symbols.get(*symbol).unwrap().name.as_str())
        .collect();
    names.sort_unstable();
    assert_eq!(names, ["branch_local", "seed", "total"]);
    assert!(std::ptr::eq(layout, layouts.get(flow.scope).unwrap()));
}

#[test]
fn frame_planning_rejects_missing_parameters_and_cyclic_scopes() {
    // module app.main; flow main(seed: i32) -> i32 { return seed; }
    let mut checked = empty_project();
    let seed = local(&mut checked, "seed", SymbolKind::Param);
    let module = checked.hir.scopes.allocate(None, ScopeOwner::Module);
    let scope = checked.hir.scopes.allocate(Some(module), ScopeOwner::Item(ItemId(0)));
    checked.hir.scopes.insert(scope, seed);
    checked.hir.items.push(HirItem::Flow(FlowDecl { scope, params: vec![seed] }));
    checked.entry = Some(ItemId(0));
    let slots = SlotLayoutTable::for_project(&checked);
    assert!(FrameLayoutTable::build(&checked, &slots).is_ok());

    let mut missing = ScopeTree::new();
    missing.allocate(None, ScopeOwner::Module);
    missing.allocate(Some(module), ScopeOwner::Item(ItemId(0)));
    checked.hir.scopes = missing;
    assert!(FrameLayoutTable::build(&checked, &slots).err().unwrap().contains("outside frame scope"));

    let mut cyclic = ScopeTree::new();
    cyclic.allocate(None, ScopeOwner::Module);
    let id = cyclic.allocate(Some(scope), ScopeOwner::Item(ItemId(0)));
    cyclic.insert(id, seed);
    checked.hir.scopes = cyclic;
    assert!(FrameLayoutTable::build(&checked, &slots).err().unwrap().contains("cyclic frame scope"));
}

#[test]
fn frame_errors_name_the_scope_or_symbol() {
    let mut checked = empty_project();
    checked.hir.items.push(HirItem::Flow(FlowDecl { scope: ScopeId(3), params: vec![] }));
    let slots = SlotLayoutTable::for_project(&checked);
    assert_eq!(
        FrameLayoutTable::build(&checked, &slots).err().unwrap(),
        "callable is missing scope ScopeId(3)"
    );
    let mut shared = empty_project();
    let s = shared.hir.scopes.allocate(None, ScopeOwner::Module);
    shared.hir.items.push(HirItem::Flow(FlowDecl { scope: s, params: vec![] }));
    shared.hir.items.push(HirItem::Tool(FlowDecl { scope: s, params: vec![] }));
    let slots = SlotLayoutTable::for_project(&shared);
    assert_eq!(
        FrameLayoutTable::build(&shared, &slots).err().unwrap(),
        "multiple callables share frame scope ScopeId(0)"
    );
}

#[test]
fn frame_symbols_follow_the_depth_first_walk() {
    // flow main(p: i32) { { let a = p; { let c = a; } } { let b = p; } }
    let mut checked = empty_project();
    let p = local(&mut checked, "p", SymbolKind::Param);
    let a = local(&mut checked, "a", SymbolKind::Local);
    let b = local(&mut checked, "b", SymbolKind::Local);
    let c = local(&mut checked, "c", SymbolKind::Local);
    let scopes = &mut checked.hir.scopes;
    let main = scopes.allocate(None, ScopeOwner::Item(ItemId(0)));
    scopes.insert(main, p);
    let first = scopes.allocate(Some(main), ScopeOwner::Block(etas_interpreter::ids::HirBlockId(0)));
    scopes.insert(first, a);
    let second = scopes.allocate(Some(main), ScopeOwner::Block(etas_interpreter::ids::HirBlockId(1)));
    scopes.insert(second, b);
    let nested = scopes.allocate(Some(first), ScopeOwner::Block(etas_interpreter::ids::HirBlockId(2)));
    scopes.insert(nested, c);
    checked.hir.items.push(HirItem::Flow(FlowDecl { scope: main, params: vec![p] }));
    checked.entry = Some(ItemId(0));
    let slots = SlotLayoutTable::for_project(&checked);
    let layouts = FrameLayoutTable::build(&checked, &slots).ok().unwrap();
    // the later sibling block is walked first; a block's nested blocks follow it at once
    assert_eq!(layouts.get(main).unwrap().symbols(), &[p, b, a, c][..]);
}

#[test]
fn the_first_repeat_of_the_walk_is_reported() {
    // flow main() { { let a; let b; } { let b; let a; } } with both blocks declaring both
    let mut checked = empty_project();
    let a = local(&mut checked, "a", SymbolKind::Local);
    let b = local(&mut checked, "b", SymbolKind::Local);
    let scopes = &mut checked.hir.scopes;
    let main = scopes.allocate(None, ScopeOwner::Item(ItemId(0)));
    let first = scopes.allocate(Some(main), ScopeOwner::Block(etas_interpreter::ids::HirBlockId(0)));
    scopes.insert(first, a);
    scopes.insert(first, b);
    let second = scopes.allocate(Some(main), ScopeOwner::Block(etas_interpreter::ids::HirBlockId(1)));
    scopes.insert(second, b);
    scopes.insert(second, a);
    checked.hir.items.push(HirItem::Flow(FlowDecl { scope: main, params: vec![] }));
    let slots = SlotLayoutTable::for_project(&checked);
    // the second block is walked first, so `a` in the first block is the first repeat
    assert_eq!(
        FrameLayoutTable::build(&checked, &slots).err().unwrap(),
        format!("local symbol SymbolId({}) has multiple declaring scopes", a.0)
    );
}

#[test]
fn no_local_is_in_two_frames() {
    let (checked, main) = sibling_and_main();
    let slots = SlotLayoutTable::for_project(&checked);
    let layouts = FrameLayoutTable::build(&checked, &slots).ok().unwrap();
    let sibling = ScopeId(1);
    let ours = layouts.get(main).unwrap().symbols();
    let theirs = layouts.get(sibling).unwrap().symbols();
    assert_eq!(theirs.len(), 1);
    for symbol in ours {
        assert!(!theirs.contains(symbol));
    }
}
