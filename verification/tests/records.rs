use etas_interpreter::ids::{HirExprId, HirPatId, SymbolId, TypeId};
use etas_interpreter::program::{
    CheckedProject, EffectFacts, FieldProjection, HirExpr, HirFieldInit, HirPat, HirPath,
    HirProgram, HirRecordExpr, HirRecordPatField, PartialResolution, PartialResolutionReason,
    Reachability, ResolveResult, StdRegistry, SupportFacts, SymbolDef, SymbolKind, SymbolTable,
    SymbolTypeFact, Type, TypeFacts,
};
use etas_interpreter::records::{
    checked_field, record_shape, FieldAccessSite, RecordLayoutTable,
};
use etas_interpreter::scope_tree::ScopeTree;

fn empty_project() -> CheckedProject {
    CheckedProject {
        entry: None,
        hir: HirProgram {
            items: vec![],
            exprs: vec![],
            pats: vec![],
            scopes: ScopeTree::new(),
            handler_arms: vec![],
            expr_scopes: vec![],
            item_exprs: vec![],
        },
        symbols: SymbolTable::new(),
        types: TypeFacts {
            expr_types: vec![],
            pattern_types: vec![],
            field_projections: vec![],
            symbol_types: vec![],
        },
        type_store: vec![],
        std_registry: StdRegistry { symbols: vec![] },
        reachability: Reachability { reachable_items: vec![] },
        effects: EffectFacts { item_effects: vec![] },
        interpreter_support: SupportFacts { entry: None, items: vec![] },
    }
}

fn strings(names: &[&str]) -> Vec<String> {
    names.iter().map(|s| s.to_string()).collect()
}

#[test]
fn checked_fields_find_their_slot_in_sorted_names() {
    let names = strings(&["a", "b"]);
    let a = checked_field(names.clone(), "a").ok().unwrap();
    assert_eq!(a.name(), "a");
    assert_eq!(a.slot_index(), 0);
    assert_eq!(a.field_count(), 2);
    let b = checked_field(names.clone(), "b").ok().unwrap();
    assert_eq!(b.slot_index(), 1);
    assert_eq!(
        checked_field(names, "missing").err().unwrap(),
        "record field `missing` does not exist in checked type"
    );
    let many: Vec<String> = (0..4000).map(|i| format!("field_{i:04}")).collect();
    for (i, name) in many.iter().enumerate() {
        let field = checked_field(many.clone(), name).ok().unwrap();
        assert_eq!(field.slot_index(), i);
        assert_eq!(field.name(), name.as_str());
    }
}

#[test]
fn record_shapes_follow_representations_and_sort_names() {
    let store = vec![
        Type::Record(strings(&["zeta", "alpha", "mid"])),
        Type::Nominal { representation: Some(TypeId(0)) },
        Type::Applied { constructor: TypeId(1) },
        Type::Refined { base: TypeId(2) },
        Type::Nominal { representation: None },
        Type::Nominal { representation: Some(TypeId(5)) },
        Type::Refined { base: TypeId(6) },
        Type::Applied { constructor: TypeId(5) },
        Type::Record(strings(&["x", "x"])),
        Type::Nominal { representation: Some(TypeId(42)) },
    ];
    assert_eq!(record_shape(&store, TypeId(3)).unwrap(), Some(strings(&["alpha", "mid", "zeta"])));
    assert_eq!(record_shape(&store, TypeId(4)).unwrap(), None);
    assert_eq!(
        record_shape(&store, TypeId(5)).unwrap_err(),
        "cyclic nominal representation in checked record layout"
    );
    assert_eq!(
        record_shape(&store, TypeId(8)).unwrap_err(),
        "checked record type has duplicate field names"
    );
    assert_eq!(
        record_shape(&store, TypeId(9)).unwrap_err(),
        "record layout references a missing checked type"
    );
}

fn record_program() -> CheckedProject {
    let mut checked = empty_project();
    checked.type_store = vec![Type::Record(strings(&["b", "a"])), Type::Other];
    let value = checked.symbols.allocate("p".to_string(), SymbolKind::Local, SymbolDef::Other);
    // e0: `{ b: .., a: .. }`, e1: `e0.a`, e2: `p.b` as a value path
    checked.hir.exprs.push(HirExpr::Record(HirRecordExpr {
        path: None,
        fields: vec![
            HirFieldInit::Named { name: "b".to_string(), value: HirExprId(5) },
            HirFieldInit::Named { name: "a".to_string(), value: HirExprId(6) },
        ],
    }));
    checked.hir.exprs.push(HirExpr::Field { base: HirExprId(0), field: "a".to_string() });
    checked.hir.exprs.push(HirExpr::Path(HirPath {
        resolution: ResolveResult::PartiallyResolved(PartialResolution {
            resolved_prefix: Some(value),
            remaining: strings(&["b"]),
            reason: PartialResolutionReason::MemberRequiresTypeChecking,
        }),
    }));
    checked.types.expr_types = vec![Some(TypeId(0)), Some(TypeId(1)), Some(TypeId(1))];
    checked.types.field_projections = vec![
        None,
        Some(vec![FieldProjection { receiver: TypeId(0), field: "a".to_string(), output: TypeId(1) }]),
        Some(vec![FieldProjection { receiver: TypeId(0), field: "b".to_string(), output: TypeId(1) }]),
    ];
    checked.types.symbol_types = vec![Some(SymbolTypeFact::Local { ty: TypeId(0) })];
    checked.hir.pats.push(HirPat::Record {
        path: None,
        fields: vec![
            HirRecordPatField { name: "a".to_string(), pat: Some(HirPatId(1)) },
            HirRecordPatField { name: "b".to_string(), pat: None },
        ],
    });
    checked.types.pattern_types = vec![Some(TypeId(0))];
    checked
}

#[test]
fn record_layout_table_plans_literals_fields_paths_and_patterns() {
    let checked = record_program();
    let table = RecordLayoutTable::build(&checked).ok().unwrap();
    let field = table.field(FieldAccessSite::Expr(HirExprId(1))).unwrap();
    assert_eq!(field.name(), "a");
    assert_eq!(field.slot_index(), 0);
    let remaining = strings(&["b"]);
    let step = table
        .field(FieldAccessSite::Path { prefix: SymbolId(0), remaining: &remaining, index: 0 })
        .unwrap();
    assert_eq!(step.name(), "b");
    assert_eq!(
        table.field_type(&checked, FieldAccessSite::Path { prefix: SymbolId(0), remaining: &remaining, index: 0 }),
        Some(TypeId(1))
    );
    assert_eq!(table.field_type(&checked, FieldAccessSite::Expr(HirExprId(1))), Some(TypeId(1)));
    let pattern = table.pattern(HirPatId(0)).unwrap();
    assert_eq!(pattern.len(), 2);
    assert_eq!(pattern[0].field.slot_index(), 0);
    assert_eq!(pattern[0].pat, Some(HirPatId(1)));
    assert_eq!(pattern[1].field.slot_index(), 1);
    let fields = vec![("b".to_string(), 2), ("a".to_string(), 1)];
    assert_eq!(table.construct(HirExprId(0), fields.clone()).unwrap(), fields);
    assert_eq!(
        table.construct(HirExprId(0), vec![("a".to_string(), 1), ("b".to_string(), 2)]).unwrap_err(),
        "record values do not follow checked source field order"
    );
    assert_eq!(
        table.construct(HirExprId(1), fields).unwrap_err(),
        "record constructor has no checked layout"
    );
}

#[test]
fn record_planning_reports_faults() {
    let mut duplicate = record_program();
    if let HirPat::Record { fields, .. } = &mut duplicate.hir.pats[0] {
        fields[1].name = "a".to_string();
    }
    assert_eq!(
        RecordLayoutTable::build(&duplicate).err().unwrap(),
        "duplicate checked record pattern field `a`"
    );
    let mut wrong_fields = record_program();
    wrong_fields.hir.exprs[0] = HirExpr::Record(HirRecordExpr {
        path: None,
        fields: vec![HirFieldInit::Named { name: "a".to_string(), value: HirExprId(5) }],
    });
    assert_eq!(
        RecordLayoutTable::build(&wrong_fields).err().unwrap(),
        "record constructor fields differ from checked type"
    );
    let mut missing_fact = record_program();
    missing_fact.types.field_projections[1] = None;
    assert_eq!(
        RecordLayoutTable::build(&missing_fact).err().unwrap(),
        "record field has no checked projection fact"
    );
    let mut mismatch = record_program();
    mismatch.types.field_projections[2] =
        Some(vec![FieldProjection { receiver: TypeId(0), field: "a".to_string(), output: TypeId(1) }]);
    assert_eq!(
        RecordLayoutTable::build(&mismatch).err().unwrap(),
        "value path field `b` differs from checked projection facts"
    );
}

#[test]
fn checked_record_plan_rejects_unknown_projection_and_pattern_fields() {
    // type Row = { a: i32, b: i32 }; `row().a` and `match row() { { b } => .. }`,
    // with the projected field or the pattern field renamed to `unknown`
    for corrupt_pattern in [false, true] {
        let mut checked = record_program();
        if corrupt_pattern {
            if let HirPat::Record { fields, .. } = &mut checked.hir.pats[0] {
                fields[0].name = "unknown".to_string();
            }
        } else {
            checked.hir.exprs[1] = HirExpr::Field { base: HirExprId(0), field: "unknown".to_string() };
        }
        let error = RecordLayoutTable::build(&checked).err().unwrap();
        assert!(error.contains("unknown"), "{error}");
    }
}

#[test]
fn record_construction_and_checked_queries_do_not_clone_unselected_fields() {
    for count in [1000usize, 2000, 4000] {
        let names: Vec<String> = (0..count).map(|i| format!("field_{i:04}")).collect();
        let source: Vec<String> = names.iter().rev().cloned().collect();
        let mut checked = empty_project();
        checked.type_store = vec![Type::Record(names.clone())];
        checked.hir.exprs.push(HirExpr::Record(HirRecordExpr {
            path: None,
            fields: source
                .iter()
                .map(|name| HirFieldInit::Named { name: name.clone(), value: HirExprId(1) })
                .collect(),
        }));
        checked.types.expr_types = vec![Some(TypeId(0))];
        let table = RecordLayoutTable::build(&checked).ok().unwrap();
        let fields: Vec<(String, String)> =
            source.iter().map(|name| (name.clone(), "x".repeat(128))).collect();
        let value = table.construct(HirExprId(0), fields).unwrap();
        assert_eq!(value.len(), count);
        assert_eq!(value[0].0, format!("field_{:04}", count - 1));
        let sorted = record_shape(&checked.type_store, TypeId(0)).unwrap().unwrap();
        for name in &names {
            let field = checked_field(sorted.clone(), name).ok().unwrap();
            assert_eq!(field.name(), name.as_str());
            // the value at the field's slot, in sorted order, is that field's value
            assert_eq!(value[count - 1 - field.slot_index()].0, *name);
        }
    }
}
