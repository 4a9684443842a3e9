use etas_interpreter::arguments::CallArgumentTable;
use etas_interpreter::fixtures::{preparation_source, source, ScopeReads};
use etas_interpreter::ids::{HirExprId, SymbolId};
use etas_interpreter::names::{compare_names, sorted_distinct};
use etas_interpreter::program::{HirArg, HirExpr, HirProgram};
use etas_interpreter::scope_tree::ScopeTree;
use etas_interpreter::slots::{SlotId, SlotLayoutTable};
use etas_interpreter::text::{decimal_string, with_number, with_two_numbers};

#[test]
fn decimal_text_matches_formatting() {
    for n in [0u32, 7, 10, 99, 1234, u32::MAX] {
        assert_eq!(decimal_string(n), n.to_string());
    }
    assert_eq!(with_number("ScopeId(", 42, ")"), "ScopeId(42)");
    assert_eq!(with_two_numbers("a", 1, "b", 20, "c"), "a1b20c");
}

#[test]
fn names_order_by_bytes() {
    assert!(compare_names("a", "b") < 0);
    assert!(compare_names("b", "a") > 0);
    assert_eq!(compare_names("field", "field"), 0);
    assert!(compare_names("field", "field_0") < 0);
    assert!(compare_names("Z", "a") < 0);
    assert!(compare_names("é", "z") > 0);
    let names: Vec<String> = vec!["mid".into(), "alpha".into(), "zeta".into()];
    assert_eq!(sorted_distinct(&names).unwrap(), vec!["alpha", "mid", "zeta"]);
    let dup: Vec<String> = vec!["x".into(), "y".into(), "x".into()];
    assert!(sorted_distinct(&dup).is_none());
}

#[test]
fn slot_layouts_resolve_both_ways() {
    let table = SlotLayoutTable::from_symbols(vec![SymbolId(9), SymbolId(4), SymbolId(12)]);
    assert_eq!(table.slot_count(), 3);
    assert_eq!(table.resolve(SymbolId(4)), Some(SlotId(1)));
    assert_eq!(table.resolve(SymbolId(5)), None);
    assert_eq!(table.symbol_for_slot(SlotId(2)), Some(SymbolId(12)));
    assert_eq!(table.symbol_for_slot(SlotId(3)), None);
    for slot in 0..3u32 {
        let symbol = table.symbol_for_slot(SlotId(slot)).unwrap();
        assert_eq!(table.resolve(symbol), Some(SlotId(slot)));
    }
}

#[test]
fn call_descriptor_ownership_is_per_site_and_acquisition_is_allocation_free() {
    // flow f(value: i32) -> i32 { return value; }
    // flow main() -> i32 { return f(value = 1) + f(value = 2); }
    let program = HirProgram {
        items: vec![],
        exprs: vec![
            HirExpr::Other,
            HirExpr::Other,
            HirExpr::Call { args: vec![HirArg::Named { name: "value".to_string(), value: HirExprId(0) }] },
            HirExpr::Call { args: vec![HirArg::Named { name: "value".to_string(), value: HirExprId(1) }] },
            HirExpr::Other,
        ],
        pats: vec![],
        scopes: ScopeTree::new(),
        handler_arms: vec![],
        expr_scopes: vec![],
        item_exprs: vec![],
    };
    let table = CallArgumentTable::build(&program);
    let sites: Vec<HirExprId> =
        (0..5u32).map(HirExprId).filter(|site| table.get(*site).is_some()).collect();
    assert_eq!(sites.len(), 2);
    let first = table.get(sites[0]).unwrap();
    let other = table.get(sites[1]).unwrap();
    assert!(!std::ptr::eq(first, other));
    let HirArg::Named { value: first_value, .. } = &first[0] else { panic!("named argument") };
    let HirArg::Named { value: other_value, .. } = &other[0] else { panic!("named argument") };
    assert_ne!(first_value, other_value);
    let alias = table.get(sites[0]).unwrap();
    assert!(std::ptr::eq(first, alias));
    assert!(table.get(HirExprId(u32::MAX)).is_none());
}

#[test]
fn call_arguments_are_kept_per_site_in_source_order() {
    let program = HirProgram {
        items: vec![],
        exprs: vec![
            HirExpr::Call { args: vec![HirArg::Named { name: "value".to_string(), value: HirExprId(1) }] },
            HirExpr::Other,
            HirExpr::Perform { args: vec![HirArg::Positional(HirExprId(1)), HirArg::Positional(HirExprId(0))] },
        ],
        pats: vec![],
        scopes: ScopeTree::new(),
        handler_arms: vec![],
        expr_scopes: vec![],
        item_exprs: vec![],
    };
    let table = CallArgumentTable::build(&program);
    let first = table.get(HirExprId(0)).unwrap();
    assert_eq!(first.len(), 1);
    let HirArg::Named { name, value } = &first[0] else { panic!("named argument") };
    assert_eq!(name, "value");
    assert_eq!(*value, HirExprId(1));
    assert!(table.get(HirExprId(1)).is_none());
    let perform = table.get(HirExprId(2)).unwrap();
    assert_eq!(perform.len(), 2);
    assert!(matches!(perform[1], HirArg::Positional(HirExprId(0))));
}

#[test]
fn memory_program_sources_embed_body_and_output() {
    let text = preparation_source("return 1;", "i32");
    assert!(text.starts_with("\nmodule app.main;\nimport std.memory.{prepare_put"));
    assert!(text.ends_with("flow main() -> i32 ![Error<StorageError>] { return 1; }\n"));
    let text = source("return;", "unit");
    assert!(text.contains("stable_id = \"source-commit\""));
    assert!(text.ends_with("flow main() -> unit { return; }\n"));
}

#[test]
fn scope_reads_count_up() {
    let mut reads = ScopeReads { count: 0 };
    reads.record_scope_read();
    reads.record_scope_read();
    assert_eq!(reads.count, 2);
}
