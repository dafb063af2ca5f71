use mmaccel::config::Settings;
use mmaccel::config_value::ConfigValue;
use mmaccel::mmd_map::{ComboDir, Item, ItemKind, MmdMap};

fn s(v: &str) -> ConfigValue {
    ConfigValue::Str(String::from(v))
}

fn leaf(fields: Vec<ConfigValue>) -> ConfigValue {
    ConfigValue::Array(fields)
}

fn obj(entries: Vec<(&str, ConfigValue)>) -> ConfigValue {
    ConfigValue::Object(entries.into_iter().map(|(k, v)| (String::from(k), v)).collect())
}

#[test]
fn item_kinds_parse_by_tag_and_arity() {
    assert_eq!(ItemKind::new(&vec![s("label"), s("key"), s("1f")]), Some(ItemKind::Key(0x1F)));
    assert_eq!(
        ItemKind::new(&vec![s("label"), s("button"), s("190")]),
        Some(ItemKind::Button(0x190))
    );
    assert_eq!(ItemKind::new(&vec![s("label"), s("edit"), s("aB")]), Some(ItemKind::Edit(0xAB)));
    assert_eq!(
        ItemKind::new(&vec![s("label"), s("combo_prev"), s("2")]),
        Some(ItemKind::Combo(ComboDir::Prev, 2))
    );
    assert_eq!(
        ItemKind::new(&vec![s("label"), s("combo_next"), s("2")]),
        Some(ItemKind::Combo(ComboDir::Next, 2))
    );
    assert_eq!(
        ItemKind::new(&vec![s("label"), s("menu"), ConfigValue::UInt(7), ConfigValue::UInt(6)]),
        Some(ItemKind::Menu(7, 6))
    );
    assert_eq!(
        ItemKind::new(&vec![s("label"), s("fold"), s("10"), s("20")]),
        Some(ItemKind::Fold(0x10, 0x20))
    );
    assert_eq!(ItemKind::new(&vec![s("label"), s("kill_focus")]), Some(ItemKind::KillFocus));
    assert_eq!(ItemKind::new(&vec![s("label"), s("fold_all")]), Some(ItemKind::FoldAll));
    assert_eq!(ItemKind::new(&vec![s("label"), s("unfold_all")]), Some(ItemKind::UnfoldAll));
}

#[test]
fn item_kind_rejects_bad_fields() {
    // Wrong arity for the tag.
    assert_eq!(ItemKind::new(&vec![s("label"), s("key")]), None);
    assert_eq!(ItemKind::new(&vec![s("label"), s("key"), s("1"), s("2")]), None);
    // Unknown tag.
    assert_eq!(ItemKind::new(&vec![s("label"), s("gizmo"), s("1")]), None);
    // Unparsable hex field.
    assert_eq!(ItemKind::new(&vec![s("label"), s("key"), s("xyz")]), None);
    assert_eq!(ItemKind::new(&vec![s("label"), s("key"), s("")]), None);
    // Hex value too large for a control id.
    assert_eq!(ItemKind::new(&vec![s("label"), s("key"), s("100000000")]), None);
    // Menu indices must be numbers.
    assert_eq!(ItemKind::new(&vec![s("label"), s("menu"), s("7"), ConfigValue::UInt(6)]), None);
    // The tag must be a string.
    assert_eq!(ItemKind::new(&vec![s("label"), ConfigValue::UInt(3), s("1")]), None);
}

#[test]
fn item_requires_label_and_kind() {
    let it = Item::new(&vec![s("Step back"), s("button"), s("190")]).unwrap();
    assert_eq!(it.name, "Step back");
    assert_eq!(it.kind, ItemKind::Button(0x190));
    assert!(Item::new(&vec![s("Step back")]).is_none());
    assert!(Item::new(&vec![ConfigValue::UInt(1), s("kill_focus")]).is_none());
}

#[test]
fn as_key_reads_only_key_actions() {
    assert_eq!(ItemKind::Key(9).as_key(), Some(9));
    assert_eq!(ItemKind::Button(9).as_key(), None);
    assert_eq!(ItemKind::KillFocus.as_key(), None);
}

#[test]
fn table_flattens_nested_groups() {
    let v = obj(vec![
        (
            "Edit",
            obj(vec![
                ("Undo", leaf(vec![s("Undo the last change"), s("button"), s("190")])),
                ("Redo", leaf(vec![s("Redo the change"), s("button"), s("191")])),
            ]),
        ),
        ("About", leaf(vec![s("Version information"), s("menu"), ConfigValue::UInt(7), ConfigValue::UInt(6)])),
    ]);
    let m = MmdMap::from_value(&v).unwrap();
    let undo = m.get("Undo").unwrap();
    assert_eq!(undo.name, "Undo the last change");
    assert_eq!(undo.kind, ItemKind::Button(0x190));
    let about = m.get("About").unwrap();
    assert_eq!(about.kind, ItemKind::Menu(7, 6));
    assert!(m.get("Missing").is_none());
    assert_eq!(m.iter().len(), 3);
}

#[test]
fn malformed_leaf_is_skipped_not_fatal() {
    let v = obj(vec![
        ("Broken", leaf(vec![s("A label"), s("gizmo")])),
        ("Fine", leaf(vec![s("A label"), s("kill_focus")])),
        ("Stray", ConfigValue::UInt(4)),
    ]);
    let m = MmdMap::from_value(&v).unwrap();
    assert!(m.get("Broken").is_none());
    assert_eq!(m.get("Fine").unwrap().kind, ItemKind::KillFocus);
    assert!(m.get("Stray").is_none());
    assert_eq!(m.iter().len(), 1);
}

#[test]
fn top_level_must_be_an_object() {
    assert!(MmdMap::from_value(&leaf(vec![s("x")])).is_none());
    assert!(MmdMap::from_value(&ConfigValue::Null).is_none());
    assert!(MmdMap::from_value(&s("just text")).is_none());
}

#[test]
fn settings_read_field_with_default() {
    let v = obj(vec![("raise_timer_resolution", ConfigValue::Bool(false))]);
    assert_eq!(Settings::from_value(&v).unwrap().raise_timer_resolution, false);
    // A missing or non-boolean field keeps its default.
    let v = obj(vec![]);
    assert_eq!(Settings::from_value(&v).unwrap().raise_timer_resolution, true);
    let v = obj(vec![("raise_timer_resolution", ConfigValue::UInt(1))]);
    assert_eq!(Settings::from_value(&v).unwrap().raise_timer_resolution, true);
    // Anything but an object fails wholesale.
    assert!(Settings::from_value(&ConfigValue::Null).is_none());
    // The on-disk form round-trips the switch.
    let s = Settings { raise_timer_resolution: false };
    assert_eq!(Settings::from_value(&s.to_value()).unwrap().raise_timer_resolution, false);
}
