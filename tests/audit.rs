use sealed_struct_dumper::catalog::get_name;
use sealed_struct_dumper::layout::{is_sealed_layout, sort_by_offset};
use sealed_struct_dumper::matcher::{field_names, script_name};
use sealed_struct_dumper::order::{insert_name, name_less};
use sealed_struct_dumper::{
    AuditError, Bundle, BundleItem, ClassDefinition, Definition, DumperPlugin, NativeClass,
    NativeProperty, NativeType, StructCatalog, TypeRegistry,
};

fn prop(name: &str, value_offset: u32, size: u32, alignment: u32) -> NativeProperty {
    NativeProperty { name: name.to_string(), value_offset, size, alignment }
}

fn class(props: Vec<NativeProperty>) -> NativeType {
    NativeType::Class(NativeClass { base: None, is_scripted_struct: false, properties: props })
}

/// A bundle with one struct per entry: its name, then its field names.
fn bundle_of(structs: &[(&str, &[&str])]) -> Bundle {
    let mut items = Vec::new();
    let mut definitions = Vec::new();
    for (name, fields) in structs {
        items.push(BundleItem::Name(name.to_string()));
        let name_idx = (items.len() - 1) as u32;
        let mut field_idx = Vec::new();
        for f in fields.iter() {
            items.push(BundleItem::Name(f.to_string()));
            let n = (items.len() - 1) as u32;
            items.push(BundleItem::Field { name: n });
            field_idx.push((items.len() - 1) as u32);
        }
        definitions.push(Definition::Class(ClassDefinition {
            name: name_idx,
            is_struct: true,
            fields: field_idx,
        }));
    }
    Bundle { items, definitions }
}

fn registry_of(types: Vec<(&str, NativeType)>) -> TypeRegistry {
    TypeRegistry {
        types: types.into_iter().map(|(n, t)| (n.to_string(), t)).collect(),
        native_to_script: Vec::new(),
    }
}

fn two_fields() -> Vec<NativeProperty> {
    vec![prop("A", 0, 4, 4), prop("B", 4, 4, 4)]
}

#[test]
fn full_coverage_is_sealed() {
    let bundle = bundle_of(&[("S", &["A", "B"])]);
    let registry = registry_of(vec![("S", class(two_fields()))]);
    assert_eq!(DumperPlugin::run(&bundle, &registry).unwrap(), vec!["S".to_string()]);
}

#[test]
fn property_order_does_not_matter() {
    let bundle = bundle_of(&[("S", &["A", "B"])]);
    let props = vec![prop("B", 4, 4, 4), prop("A", 0, 4, 4)];
    let registry = registry_of(vec![("S", class(props))]);
    assert_eq!(DumperPlugin::run(&bundle, &registry).unwrap(), vec!["S".to_string()]);
}

#[test]
fn padding_gap_is_not_sealed() {
    let bundle = bundle_of(&[("S", &["A", "B"])]);
    let props = vec![prop("A", 0, 4, 4), prop("B", 8, 4, 4)];
    let registry = registry_of(vec![("S", class(props))]);
    assert!(DumperPlugin::run(&bundle, &registry).unwrap().is_empty());
}

#[test]
fn alignment_rounding_and_holes() {
    // The end of A rounded up to B's alignment is where B starts.
    let fields = vec!["A".to_string(), "B".to_string()];
    let aligned = vec![prop("A", 0, 1, 1), prop("B", 8, 8, 8)];
    assert!(is_sealed_layout(&fields, &aligned));
    // Rounded up to 4, the end of A is 4, yet B starts at 8: a hole.
    let props = vec![prop("A", 0, 1, 1), prop("B", 8, 4, 4)];
    assert!(!is_sealed_layout(&fields, &props));
    let packed = vec![prop("A", 0, 1, 1), prop("B", 1, 8, 1)];
    assert!(is_sealed_layout(&fields, &packed));
}

#[test]
fn missing_scripted_field_is_not_sealed() {
    // The script declares B, which no native property provides.
    let fields = vec!["A".to_string(), "B".to_string()];
    let props = vec![prop("A", 0, 4, 4)];
    assert!(!is_sealed_layout(&fields, &props));
}

#[test]
fn native_extra_field_after_last_scripted_field() {
    // Native has B after A; the script only declares A. Only the two booleans
    // of the walk decide: here the layout is contiguous and A was matched.
    let fields = vec!["A".to_string()];
    assert!(is_sealed_layout(&fields, &two_fields()));
    // With a gap before the extra field the walk sees padding.
    let gapped = vec![prop("A", 0, 4, 4), prop("B", 8, 4, 4)];
    assert!(!is_sealed_layout(&fields, &gapped));
}

#[test]
fn native_extra_field_before_scripted_field() {
    // The extra native field comes first; the scripted field still matches.
    let fields = vec!["B".to_string()];
    let props = vec![prop("A", 0, 4, 4), prop("B", 4, 4, 4)];
    assert!(is_sealed_layout(&fields, &props));
    // Scripted fields {A} against natives {B} leaves A unmatched.
    let other = vec!["A".to_string()];
    let only_b = vec![prop("B", 0, 4, 4)];
    assert!(!is_sealed_layout(&other, &only_b));
}

#[test]
fn overlapping_properties_are_not_sealed() {
    let fields = vec!["A".to_string(), "B".to_string()];
    let props = vec![prop("A", 0, 8, 4), prop("B", 4, 4, 4)];
    assert!(!is_sealed_layout(&fields, &props));
}

#[test]
fn empty_layout_with_no_fields_is_sealed() {
    assert!(is_sealed_layout(&Vec::new(), &Vec::new()));
}

#[test]
fn class_with_base_is_skipped() {
    let bundle = bundle_of(&[("S", &["A", "B"])]);
    let ty = NativeType::Class(NativeClass {
        base: Some("Parent".to_string()),
        is_scripted_struct: false,
        properties: two_fields(),
    });
    let registry = registry_of(vec![("S", ty)]);
    assert!(DumperPlugin::run(&bundle, &registry).unwrap().is_empty());
}

#[test]
fn scripted_struct_is_skipped() {
    let bundle = bundle_of(&[("S", &["A", "B"])]);
    let ty = NativeType::Class(NativeClass {
        base: None,
        is_scripted_struct: true,
        properties: two_fields(),
    });
    let registry = registry_of(vec![("S", ty), ("T", NativeType::Other)]);
    assert!(DumperPlugin::run(&bundle, &registry).unwrap().is_empty());
}

#[test]
fn name_translation_reports_script_name() {
    let bundle = bundle_of(&[("ScriptX", &["A", "B"])]);
    let mut registry = registry_of(vec![("X", class(two_fields()))]);
    registry.native_to_script.push(("X".to_string(), "ScriptX".to_string()));
    assert_eq!(DumperPlugin::run(&bundle, &registry).unwrap(), vec!["ScriptX".to_string()]);
}

#[test]
fn script_name_falls_back_to_native_name() {
    let map = vec![("X".to_string(), "ScriptX".to_string())];
    assert_eq!(script_name(&map, &"X".to_string()), "ScriptX");
    assert_eq!(script_name(&map, &"Y".to_string()), "Y");
}

#[test]
fn field_index_outside_item_table_aborts() {
    let mut bundle = bundle_of(&[("S", &["A"])]);
    if let Definition::Class(c) = &mut bundle.definitions[0] {
        c.fields.push(999);
    }
    let registry = registry_of(vec![("S", class(two_fields()))]);
    assert_eq!(DumperPlugin::run(&bundle, &registry), Err(AuditError::MissingField(999)));
}

#[test]
fn field_item_of_wrong_kind_aborts() {
    let mut bundle = bundle_of(&[("S", &["A"])]);
    bundle.items.push(BundleItem::Other);
    let idx = (bundle.items.len() - 1) as u32;
    if let Definition::Class(c) = &mut bundle.definitions[0] {
        c.fields.push(idx);
    }
    assert_eq!(field_names(&bundle.items, &vec![idx]), Err(AuditError::MissingField(idx)));
}

#[test]
fn field_name_outside_item_table_aborts() {
    let mut bundle = bundle_of(&[("S", &["A"])]);
    bundle.items.push(BundleItem::Field { name: 500 });
    let idx = (bundle.items.len() - 1) as u32;
    if let Definition::Class(c) = &mut bundle.definitions[0] {
        c.fields.push(idx);
    }
    let registry = registry_of(vec![("S", class(two_fields()))]);
    assert_eq!(DumperPlugin::run(&bundle, &registry), Err(AuditError::MissingFieldName(500)));
}

#[test]
fn unresolved_struct_field_without_native_match_is_not_an_error() {
    let mut bundle = bundle_of(&[("S", &["A"])]);
    if let Definition::Class(c) = &mut bundle.definitions[0] {
        c.fields.push(999);
    }
    let registry = registry_of(vec![("Unrelated", class(two_fields()))]);
    assert_eq!(DumperPlugin::run(&bundle, &registry), Ok(Vec::new()));
}

#[test]
fn struct_name_outside_item_table_aborts() {
    let bundle = Bundle {
        items: Vec::new(),
        definitions: vec![Definition::Class(ClassDefinition { name: 3, is_struct: true, fields: Vec::new() })],
    };
    let registry = registry_of(Vec::new());
    assert_eq!(DumperPlugin::run(&bundle, &registry), Err(AuditError::MissingStructName(3)));
}

#[test]
fn full_classes_stay_out_of_the_catalog() {
    let bundle = Bundle {
        items: vec![BundleItem::Name("C".to_string())],
        definitions: vec![
            Definition::Class(ClassDefinition { name: 0, is_struct: false, fields: Vec::new() }),
            Definition::Class(ClassDefinition { name: 7, is_struct: false, fields: Vec::new() }),
            Definition::Other,
        ],
    };
    let catalog = StructCatalog::build(&bundle).unwrap();
    assert!(catalog.entries.is_empty());
    assert_eq!(catalog.lookup(&"C".to_string()), None);
}

#[test]
fn duplicate_struct_names_latest_wins() {
    let bundle = bundle_of(&[("S", &["Z"]), ("S", &["A", "B"])]);
    let catalog = StructCatalog::build(&bundle).unwrap();
    assert_eq!(catalog.entries.len(), 2);
    assert_eq!(catalog.lookup(&"S".to_string()), Some(1));
    let registry = registry_of(vec![("S", class(two_fields()))]);
    assert_eq!(DumperPlugin::run(&bundle, &registry).unwrap(), vec!["S".to_string()]);
}

#[test]
fn output_is_strictly_sorted_without_duplicates() {
    let bundle = bundle_of(&[("b", &["A", "B"]), ("a", &["A", "B"]), ("B", &["A", "B"])]);
    let mut registry = registry_of(vec![
        ("b", class(two_fields())),
        ("a", class(two_fields())),
        ("B", class(two_fields())),
        ("nb", class(two_fields())),
    ]);
    registry.native_to_script.push(("nb".to_string(), "b".to_string()));
    let names = DumperPlugin::run(&bundle, &registry).unwrap();
    assert_eq!(names, vec!["B".to_string(), "a".to_string(), "b".to_string()]);
    assert_eq!(DumperPlugin::render(&names), "B\na\nb\n");
}

#[test]
fn running_twice_gives_the_same_output() {
    let bundle = bundle_of(&[("Q", &["A", "B"]), ("P", &["A", "B"])]);
    let registry = registry_of(vec![("Q", class(two_fields())), ("P", class(two_fields()))]);
    let first = DumperPlugin::render(&DumperPlugin::run(&bundle, &registry).unwrap());
    let second = DumperPlugin::render(&DumperPlugin::run(&bundle, &registry).unwrap());
    assert_eq!(first, second);
    assert_eq!(first, "P\nQ\n");
}

#[test]
fn render_of_nothing_is_empty() {
    assert_eq!(DumperPlugin::render(&Vec::new()), "");
}

#[test]
fn names_compare_by_bytes() {
    assert!(name_less(&"B".to_string(), &"a".to_string()));
    assert!(name_less(&"ab".to_string(), &"abc".to_string()));
    assert!(!name_less(&"abc".to_string(), &"abc".to_string()));
    assert!(!name_less(&"b".to_string(), &"a".to_string()));
    assert!(name_less(&"z".to_string(), &"\u{e9}".to_string()));
}

#[test]
fn insert_name_keeps_order_and_skips_duplicates() {
    let mut names = Vec::new();
    insert_name(&mut names, "m".to_string());
    insert_name(&mut names, "c".to_string());
    insert_name(&mut names, "x".to_string());
    insert_name(&mut names, "c".to_string());
    assert_eq!(names, vec!["c".to_string(), "m".to_string(), "x".to_string()]);
}

#[test]
fn sort_by_offset_is_stable() {
    let props = vec![prop("C", 8, 4, 4), prop("A", 0, 4, 4), prop("B", 8, 0, 4), prop("D", 4, 4, 4)];
    assert_eq!(sort_by_offset(&props), vec![1, 3, 0, 2]);
}

#[test]
fn get_name_rejects_non_name_items() {
    let items = vec![BundleItem::Name("n".to_string()), BundleItem::Field { name: 0 }];
    assert_eq!(get_name(&items, 0), Some(&"n".to_string()));
    assert_eq!(get_name(&items, 1), None);
    assert_eq!(get_name(&items, 2), None);
}

#[test]
fn largest_offsets_do_not_overflow() {
    let fields = vec!["A".to_string()];
    let props = vec![prop("A", 0, u32::MAX, 1), prop("B", u32::MAX, u32::MAX, 1)];
    assert!(is_sealed_layout(&fields, &props));
    let big = vec![prop("A", u32::MAX, u32::MAX, u32::MAX)];
    assert!(!is_sealed_layout(&fields, &big));
}
