use mmaccel::menu::{Menu, MenuBuilder, MenuCommand, MenuItem, MenuItemType, MenuOp, ROOT_ID};

fn build() -> (Menu<MenuItem>, Vec<MenuOp>) {
    MenuBuilder::new()
        .item(&MenuItem::LaunchConfig, "Open the bindings editor")
        .separator()
        .with_check(&MenuItem::RaiseTimerResolution(true), "Raise the timer resolution", true)
        .separator()
        .item(&MenuItem::Version, "Version information")
        .build()
}

#[test]
fn builder_records_operations_in_order() {
    let (_, ops) = build();
    assert_eq!(ops.len(), 5);
    match &ops[0] {
        MenuOp::Entry { label, id, checked } => {
            assert_eq!(label, "Open the bindings editor");
            assert_eq!(*id, ROOT_ID);
            assert_eq!(*checked, None);
        },
        _ => panic!("expected an entry"),
    }
    assert!(matches!(ops[1], MenuOp::Separator));
    match &ops[2] {
        MenuOp::Entry { label: _, id, checked } => {
            assert_eq!(*id, ROOT_ID + 1);
            assert_eq!(*checked, Some(true));
        },
        _ => panic!("expected an entry"),
    }
}

#[test]
fn recv_command_resolves_table_entries() {
    let (menu, _) = build();
    let w = ROOT_ID as usize;
    assert_eq!(menu.recv_command(w, false), Some(MenuItem::LaunchConfig));
    assert_eq!(menu.recv_command(w + 2, false), Some(MenuItem::Version));
}

#[test]
fn recv_command_toggles_check_state() {
    let (menu, _) = build();
    let w = (ROOT_ID + 1) as usize;
    // The emitted command carries the check mark's new state.
    assert_eq!(menu.recv_command(w, true), Some(MenuItem::RaiseTimerResolution(false)));
    assert_eq!(menu.recv_command(w, false), Some(MenuItem::RaiseTimerResolution(true)));
}

#[test]
fn recv_command_filters_foreign_reports() {
    let (menu, _) = build();
    // A non-menu notification (non-zero high word) resolves to nothing.
    assert_eq!(menu.recv_command((1 << 16) | ROOT_ID as usize, false), None);
    // Identifiers outside the table's range resolve to nothing.
    assert_eq!(menu.recv_command((ROOT_ID - 1) as usize, false), None);
    assert_eq!(menu.recv_command((ROOT_ID + 3) as usize, false), None);
    assert_eq!(menu.recv_command(0, false), None);
}

#[test]
fn command_index_addresses_entries() {
    let (menu, _) = build();
    assert_eq!(menu.command_index(ROOT_ID as usize), Some(0));
    assert_eq!(menu.command_index((ROOT_ID + 2) as usize), Some(2));
    assert_eq!(menu.command_index((ROOT_ID + 3) as usize), None);
    assert_eq!(menu.entry(1).1, MenuItemType::WithCheck(true));
}

#[test]
fn as_with_check_reads_checkable_entries() {
    assert_eq!(MenuItemType::WithCheck(true).as_with_check(), Some(true));
    assert_eq!(MenuItemType::Item.as_with_check(), None);
}

#[test]
fn menu_item_codes_round_trip() {
    for v in [MenuItem::LaunchConfig, MenuItem::Version] {
        assert_eq!(MenuItem::from_command(v.command_code(), MenuItemType::Item), Some(v));
    }
    let toggled = MenuItem::RaiseTimerResolution(true);
    assert_eq!(
        MenuItem::from_command(toggled.command_code(), MenuItemType::WithCheck(true)),
        Some(toggled)
    );
    // A checkable command read back as a plain item resolves to nothing.
    assert_eq!(MenuItem::from_command(1, MenuItemType::Item), None);
    assert_eq!(MenuItem::from_command(9, MenuItemType::Item), None);
}
