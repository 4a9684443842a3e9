use etas_interpreter::ids::{HirPatId, SymbolId};
use etas_interpreter::program::HirRecordPatField;
use etas_interpreter::variants::{NamedVariantLayout, NamedVariantPatternLayout};

#[test]
fn named_pattern_slots_follow_declared_order_without_runtime_name_search() {
    for count in [1000usize, 2000, 4000] {
        let declared = (0..count).map(|i| format!("field{i}")).collect::<Vec<_>>();
        let fields = declared
            .iter()
            .enumerate()
            .rev()
            .map(|(i, name)| HirRecordPatField { name: name.clone(), pat: Some(HirPatId(i as u32)) })
            .collect::<Vec<_>>();
        let layout =
            NamedVariantPatternLayout::build(SymbolId(1), "Fields", &declared, &fields).unwrap();
        let payload = (0..count).map(|i| i as i32).collect::<Vec<_>>();
        let sum = layout
            .fields
            .iter()
            .map(|(slot, pat)| {
                assert_eq!(*slot, pat.0 as usize);
                payload[*slot] as usize
            })
            .sum::<usize>();
        assert_eq!(sum, count * (count - 1) / 2);
        let mut duplicate = fields.clone();
        duplicate[0].name = duplicate[1].name.clone();
        assert!(NamedVariantPatternLayout::build(SymbolId(1), "Fields", &declared, &duplicate)
            .is_err());
    }
}

#[test]
fn named_variant_permutation_moves_payloads_without_copying() {
    for count in [1000usize, 2000, 4000] {
        let declared: Vec<String> = (0..count).map(|index| format!("field{index}")).collect();
        let source: Vec<String> = declared.iter().rev().cloned().collect();
        let layout = NamedVariantLayout::build(SymbolId(7), &declared, source.clone()).unwrap();
        let values: Vec<(String, String)> =
            source.into_iter().map(|name| (name, "x".repeat(128))).collect();
        let pointers: Vec<_> = values.iter().rev().map(|(_, value)| value.as_ptr()).collect();
        let result = layout.reorder(SymbolId(7), values).unwrap();
        for (value, pointer) in result.iter().zip(pointers) {
            assert_eq!(value.as_ptr(), pointer);
        }
        assert!(layout.swap_count() < count);
    }
}

#[test]
fn named_variant_layout_rejects_mismatched_fields_and_constructor_identity() {
    let names: Vec<String> = vec!["a".into(), "b".into()];
    assert!(NamedVariantLayout::build(SymbolId(7), &names, vec!["a".into(), "a".into()]).is_err());
    assert!(NamedVariantLayout::build(SymbolId(7), &names, vec!["a".into(), "c".into()]).is_err());
    assert!(NamedVariantLayout::build(SymbolId(7), &names, vec!["a".into()]).is_err());
    let layout = NamedVariantLayout::build(SymbolId(7), &names, names.clone()).unwrap();
    let values = || vec![("a".to_string(), ()), ("b".to_string(), ())];
    assert!(layout.reorder(SymbolId(8), values()).is_err());
    let mut reordered = values();
    reordered.swap(0, 1);
    assert!(layout.reorder(SymbolId(7), reordered).is_err());
}

#[test]
fn reorder_puts_values_in_declared_order() {
    let declared: Vec<String> = vec!["x".into(), "y".into(), "z".into()];
    let source: Vec<String> = vec!["z".into(), "x".into(), "y".into()];
    let layout = NamedVariantLayout::build(SymbolId(2), &declared, source).unwrap();
    let values = vec![("z".to_string(), 3), ("x".to_string(), 1), ("y".to_string(), 2)];
    assert_eq!(layout.reorder(SymbolId(2), values).unwrap(), vec![1, 2, 3]);
}

#[test]
fn named_variant_errors_name_the_fault() {
    let names: Vec<String> = vec!["a".into(), "b".into()];
    assert_eq!(
        NamedVariantLayout::build(SymbolId(7), &names, vec!["a".into()]).err().unwrap(),
        "named variant field count differs from checked declaration"
    );
    let dup: Vec<String> = vec!["a".into(), "a".into()];
    assert_eq!(
        NamedVariantLayout::build(SymbolId(7), &dup, vec!["a".into(), "b".into()]).err().unwrap(),
        "named variant declaration has duplicate fields"
    );
}
