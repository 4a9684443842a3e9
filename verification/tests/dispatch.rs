use etas_interpreter::dispatch::{
    BraceLiteralShape, IntrinsicDispatchTable, StdIntrinsicHandlerRegistry, StdIntrinsicIdentity,
};
use etas_interpreter::ids::{HirExprId, ItemId, SymbolId, TypeId};
use etas_interpreter::program::{
    CheckedProject, EffectFacts, FlowDecl, HirExpr, HirItem, HirPath, HirProgram,
    IntrinsicDescriptor, IntrinsicDispatch, Reachability, ResolveResult, StdIntrinsicId,
    StdRegistry, StdSymbol, SupportFacts, SymbolDef, SymbolKind, SymbolTable, Type, TypeFacts,
};
use etas_interpreter::scope_tree::{ScopeOwner, ScopeTree};

fn empty_project() -> CheckedProject {
    CheckedProject {
        entry: None,
        hir: HirProgram {
            items: vec![],
            exprs: vec![],
            pats: vec![],
            scopes: ScopeTree::new(),
            handler_arms: vec![],
            expr_scopes: vec![],
            item_exprs: vec![],
        },
        symbols: SymbolTable::new(),
        types: TypeFacts {
            expr_types: vec![],
            pattern_types: vec![],
            field_projections: vec![],
            symbol_types: vec![],
        },
        type_store: vec![],
        std_registry: StdRegistry { symbols: vec![] },
        reachability: Reachability { reachable_items: vec![] },
        effects: EffectFacts { item_effects: vec![] },
        interpreter_support: SupportFacts { entry: None, items: vec![] },
    }
}

fn std_symbol(path: &str, id: u32, dispatch: IntrinsicDispatch) -> StdSymbol {
    StdSymbol {
        path: path.to_string(),
        intrinsic: Some(IntrinsicDescriptor {
            id: StdIntrinsicId(id),
            dispatch,
            name: path.to_string(),
        }),
    }
}

fn import(project: &mut CheckedProject, name: &str, path: &str) -> SymbolId {
    project.symbols.allocate(
        name.to_string(),
        SymbolKind::Item,
        SymbolDef::ImportAlias { path: path.to_string() },
    )
}

fn flow(project: &mut CheckedProject) -> HirItem {
    let scope = project.hir.scopes.allocate(None, ScopeOwner::Module);
    HirItem::Flow(FlowDecl { scope, params: vec![] })
}

#[test]
fn imported_runtime_intrinsic_without_handler_fails_closed() {
    let mut checked = empty_project();
    import(&mut checked, "now", "std.runtime.time.now");
    checked.std_registry.symbols.push(std_symbol("std.runtime.time.now", 3, IntrinsicDispatch::Runtime));
    let main = flow(&mut checked);
    checked.hir.items.push(main);
    checked.hir.item_exprs.push(vec![]);
    checked.entry = Some(ItemId(0));
    checked.reachability.reachable_items.push(ItemId(0));
    let errors = IntrinsicDispatchTable::for_project(&checked, StdIntrinsicHandlerRegistry { handlers: vec![] })
        .err()
        .expect("imported runtime intrinsic without a handler must fail closed");
    assert!(
        errors.iter().any(|error| {
            error.contains("std.runtime.time.now") && error.contains("no registered Runtime handler")
        }),
        "{errors:?}"
    );
}

#[test]
fn imported_but_entry_unreachable_intrinsic_is_not_checkpoint_executable() {
    let mut checked = empty_project();
    let println = import(&mut checked, "println", "std.io.println");
    checked.std_registry.symbols.push(std_symbol("std.io.println", 11, IntrinsicDispatch::Runtime));
    // flow unused() calls println; flow main() does not
    let unused = flow(&mut checked);
    let main = flow(&mut checked);
    checked.hir.items.push(unused);
    checked.hir.items.push(main);
    checked.hir.exprs.push(HirExpr::Path(HirPath { resolution: ResolveResult::Resolved(println) }));
    checked.hir.item_exprs.push(vec![HirExprId(0)]);
    checked.hir.item_exprs.push(vec![]);
    checked.entry = Some(ItemId(1));
    checked.reachability.reachable_items.push(ItemId(1));
    let handlers = StdIntrinsicHandlerRegistry {
        handlers: vec![StdIntrinsicIdentity { intrinsic: StdIntrinsicId(11), dispatch: IntrinsicDispatch::Runtime }],
    };
    let dispatch = IntrinsicDispatchTable::for_project(&checked, handlers)
        .ok()
        .expect("plan should build");
    let identity = (0..checked.symbols.len())
        .find_map(|i| dispatch.std_intrinsic(checked.symbols.at(i).id))
        .expect("println import should have an intrinsic identity");
    let error = dispatch
        .validate_std_intrinsic(identity)
        .expect_err("entry-unreachable intrinsic must not be checkpoint executable");
    assert!(error.contains("not reachable"), "{error}");
}

fn reachable_runtime_project() -> (CheckedProject, StdIntrinsicHandlerRegistry) {
    let mut checked = empty_project();
    let now = import(&mut checked, "now", "std.runtime.time.now");
    checked.std_registry.symbols.push(std_symbol("std.runtime.time.now", 4, IntrinsicDispatch::Runtime));
    let main = flow(&mut checked);
    checked.hir.items.push(main);
    checked.hir.exprs.push(HirExpr::Path(HirPath { resolution: ResolveResult::Resolved(now) }));
    checked.hir.item_exprs.push(vec![HirExprId(0)]);
    checked.entry = Some(ItemId(0));
    checked.reachability.reachable_items.push(ItemId(0));
    let handlers = StdIntrinsicHandlerRegistry {
        handlers: vec![StdIntrinsicIdentity { intrinsic: StdIntrinsicId(4), dispatch: IntrinsicDispatch::Runtime }],
    };
    (checked, handlers)
}

#[test]
fn validation_decides_in_order_of_import_dispatch_reach_and_handler() {
    let (checked, handlers) = reachable_runtime_project();
    let dispatch = IntrinsicDispatchTable::for_project(&checked, handlers).ok().unwrap();
    let runtime = StdIntrinsicIdentity { intrinsic: StdIntrinsicId(4), dispatch: IntrinsicDispatch::Runtime };
    assert_eq!(dispatch.std_intrinsic(SymbolId(0)), Some(runtime));
    assert!(dispatch.validate_std_intrinsic(runtime).is_ok());
    assert_eq!(
        dispatch.validate_std_intrinsic(StdIntrinsicIdentity {
            intrinsic: StdIntrinsicId(9),
            dispatch: IntrinsicDispatch::Runtime
        }),
        Err("standard intrinsic 9 is not imported by the current checked interpreter plan".to_string())
    );
    assert_eq!(
        dispatch.validate_pure_intrinsic(StdIntrinsicId(4)),
        Err("standard intrinsic 4 dispatch mismatch: current plan uses Runtime, checkpoint/call target declares PureKernel".to_string())
    );
}

#[test]
fn conflicting_dispatch_categories_are_reported() {
    let mut checked = empty_project();
    import(&mut checked, "a", "std.x.a");
    import(&mut checked, "b", "std.x.b");
    checked.std_registry.symbols.push(std_symbol("std.x.a", 5, IntrinsicDispatch::Runtime));
    checked.std_registry.symbols.push(std_symbol("std.x.b", 5, IntrinsicDispatch::PureKernel));
    let handlers = StdIntrinsicHandlerRegistry {
        handlers: vec![
            StdIntrinsicIdentity { intrinsic: StdIntrinsicId(5), dispatch: IntrinsicDispatch::Runtime },
            StdIntrinsicIdentity { intrinsic: StdIntrinsicId(5), dispatch: IntrinsicDispatch::PureKernel },
        ],
    };
    let errors = IntrinsicDispatchTable::for_project(&checked, handlers).err().unwrap();
    assert_eq!(
        errors,
        vec!["standard intrinsic 5 is imported with conflicting Runtime and PureKernel dispatch categories".to_string()]
    );
}

#[test]
fn missing_reachable_item_is_reported_alone() {
    let mut checked = empty_project();
    checked.reachability.reachable_items.push(ItemId(6));
    let errors = IntrinsicDispatchTable::for_project(&checked, StdIntrinsicHandlerRegistry { handlers: vec![] })
        .err()
        .unwrap();
    assert_eq!(errors, vec!["entry reachability references missing HIR item 6".to_string()]);
}

#[test]
fn brace_literals_follow_record_and_map_types() {
    let mut checked = empty_project();
    checked.type_store = vec![Type::Record(vec!["a".to_string()]), Type::MapOf, Type::Other];
    checked.types.expr_types = vec![Some(TypeId(0)), Some(TypeId(1)), Some(TypeId(2)), None, Some(TypeId(9))];
    let dispatch = IntrinsicDispatchTable::for_project(&checked, StdIntrinsicHandlerRegistry { handlers: vec![] })
        .ok()
        .unwrap();
    assert_eq!(dispatch.brace_literal_shape(HirExprId(0)), Some(BraceLiteralShape::Record));
    assert_eq!(dispatch.brace_literal_shape(HirExprId(1)), Some(BraceLiteralShape::MapLiteral));
    assert_eq!(dispatch.brace_literal_shape(HirExprId(2)), None);
    assert_eq!(dispatch.brace_literal_shape(HirExprId(3)), None);
    assert_eq!(dispatch.brace_literal_shape(HirExprId(4)), None);
    assert!(dispatch.is_map_expr(HirExprId(1)));
    assert!(!dispatch.is_map_expr(HirExprId(0)));
    assert!(!dispatch.is_map_expr(HirExprId(77)));
}
