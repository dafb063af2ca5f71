use mmaccel::config_value::ConfigValue;
use mmaccel::handler::{combo_step, fold_target, Handler};
use mmaccel::key_map::KeyMap;
use mmaccel::keys::Keys;
use mmaccel::mmd_map::{ComboDir, ItemKind, MmdMap};
use mmaccel::vk::{VK_CONTROL, VK_MENU};

fn s(v: &str) -> ConfigValue {
    ConfigValue::Str(String::from(v))
}

fn table(entries: Vec<(&str, Vec<ConfigValue>)>) -> MmdMap {
    let v = ConfigValue::Object(
        entries
            .into_iter()
            .map(|(k, fields)| (String::from(k), ConfigValue::Array(fields)))
            .collect(),
    );
    MmdMap::from_value(&v).unwrap()
}

#[test]
fn chord_press_and_partial_release() {
    // Binding {"Undo": [Ctrl, 'Z']} with action Undo = Key(1):
    // pressing Ctrl then Z asserts the synthetic key, and releasing Z alone
    // clears it even though Ctrl is still held.
    let mmd = table(vec![("Undo", vec![s("Undo the last change"), s("key"), s("1")])]);
    let mut km = KeyMap::new();
    km.insert("Undo", Keys::from_slice(&[VK_CONTROL, b'Z' as u32]));
    let mut h = Handler::new(&mmd, km);

    assert!(!h.is_pressed(1));
    assert_eq!(h.key_down(VK_CONTROL), None);
    assert!(!h.is_pressed(1));
    assert_eq!(h.key_down(b'Z' as u32), Some(ItemKind::Key(1)));
    assert!(h.is_pressed(1));
    h.key_up(b'Z' as u32);
    assert!(!h.is_pressed(1));
}

#[test]
fn single_key_binding_fires_despite_unbound_modifier() {
    // A single-key binding still fires while an unrelated, unbound modifier
    // is physically held: the full-table chord matches nothing, and the
    // just-pressed key alone is retried.
    let mmd = table(vec![("Play", vec![s("Run the animation"), s("key"), s("50")])]);
    let mut km = KeyMap::new();
    km.insert("Play", Keys::from_slice(&[b'P' as u32]));
    let mut h = Handler::new(&mmd, km);

    assert_eq!(h.key_down(VK_MENU), None);
    assert_eq!(h.key_down(b'P' as u32), Some(ItemKind::Key(0x50)));
    assert!(h.is_pressed(0x50));
}

#[test]
fn orphan_binding_is_skipped_at_construction() {
    // A binding naming an action absent from the table is skipped;
    // construction succeeds and the other bindings work.
    let mmd = table(vec![("Undo", vec![s("Undo the last change"), s("key"), s("1")])]);
    let mut km = KeyMap::new();
    km.insert("Retired", Keys::from_slice(&[b'G' as u32]));
    km.insert("Undo", Keys::from_slice(&[b'U' as u32]));
    let mut h = Handler::new(&mmd, km);

    assert_eq!(h.key_down(b'G' as u32), None);
    assert_eq!(h.key_down(b'U' as u32), Some(ItemKind::Key(1)));
}

#[test]
fn duplicate_chord_resolves_to_one_action() {
    // Two actions bound to an identical chord: exactly one fires, and
    // rebuilding the dispatcher from the same inputs picks the same one.
    let run = || {
        let mut km = KeyMap::new();
        km.insert("First", Keys::from_slice(&[b'D' as u32]));
        km.insert("Second", Keys::from_slice(&[b'D' as u32]));
        let mmd = table(vec![
            ("First", vec![s("One label"), s("button"), s("10")]),
            ("Second", vec![s("Another label"), s("button"), s("20")]),
        ]);
        let mut h = Handler::new(&mmd, km);
        h.key_down(b'D' as u32)
    };
    let fired = run();
    assert!(fired == Some(ItemKind::Button(0x10)) || fired == Some(ItemKind::Button(0x20)));
    assert_eq!(run(), fired);
}

#[test]
fn empty_chord_binding_never_fires() {
    // An action bound to the empty chord is dropped at construction: no
    // key event, and in particular none that leaves no keys held, fires it.
    let mmd = table(vec![("Ghost", vec![s("A label"), s("key"), s("2")])]);
    let mut km = KeyMap::new();
    km.insert("Ghost", Keys::new());
    let mut h = Handler::new(&mmd, km);

    assert_eq!(h.key_down(0x41), None);
    h.key_up(0x41);
    assert!(!h.is_pressed(2));
}

#[test]
fn combo_saturates_at_both_ends() {
    // A Next step at the last index and a Prev step at index 0 are no-ops.
    assert_eq!(combo_step(ComboDir::Next, 4, 5), None);
    assert_eq!(combo_step(ComboDir::Prev, 0, 5), None);
    assert_eq!(combo_step(ComboDir::Next, 3, 5), Some(4));
    assert_eq!(combo_step(ComboDir::Prev, 4, 5), Some(3));
    // With no selection reported, only a Next from nowhere is meaningful.
    assert_eq!(combo_step(ComboDir::Next, -1, 5), Some(0));
    assert_eq!(combo_step(ComboDir::Prev, -1, 5), None);
    // An empty combo never steps.
    assert_eq!(combo_step(ComboDir::Next, -1, 0), None);
}

#[test]
fn combo_binding_dispatches_direction_and_target() {
    let mmd = table(vec![("Lens", vec![s("Camera choice"), s("combo_next"), s("3f")])]);
    let mut km = KeyMap::new();
    km.insert("Lens", Keys::from_slice(&[b'L' as u32]));
    let mut h = Handler::new(&mmd, km);
    assert_eq!(h.key_down(b'L' as u32), Some(ItemKind::Combo(ComboDir::Next, 0x3F)));
}

#[test]
fn fold_toggle_picks_the_visible_control() {
    assert_eq!(fold_target(true, 7, 8), 7);
    assert_eq!(fold_target(false, 7, 8), 8);
}

#[test]
fn key_state_override_threshold() {
    let mmd = table(vec![("Undo", vec![s("Undo the last change"), s("key"), s("42")])]);
    let mut km = KeyMap::new();
    km.insert("Undo", Keys::from_slice(&[b'U' as u32]));
    let mut h = Handler::new(&mmd, km);

    // Codes below 0x07 always pass through to the hardware state.
    assert_eq!(h.get_key_state(0x03), None);
    // Eligible codes report the synthetic state.
    assert_eq!(h.get_key_state(0x42), Some(0x0000));
    h.key_down(b'U' as u32);
    assert_eq!(h.get_key_state(0x42), Some(0xFF80));
    assert_eq!(h.get_key_state(0x41), Some(0x0000));
    // Unknown targets read as released.
    assert!(!h.is_pressed(0x99));
}

#[test]
fn releasing_an_unrelated_key_keeps_the_chord() {
    let mmd = table(vec![("Undo", vec![s("Undo the last change"), s("key"), s("1")])]);
    let mut km = KeyMap::new();
    km.insert("Undo", Keys::from_slice(&[VK_CONTROL, b'Z' as u32]));
    let mut h = Handler::new(&mmd, km);

    h.key_down(VK_CONTROL);
    h.key_down(b'Z' as u32);
    assert!(h.is_pressed(1));
    // A key outside the chord coming up changes nothing for the target.
    h.key_up(b'Q' as u32);
    assert!(h.is_pressed(1));
    // Either constituent key's release clears it.
    h.key_up(VK_CONTROL);
    assert!(!h.is_pressed(1));
}

#[test]
fn codes_outside_the_press_table_are_ignored() {
    let mmd = table(vec![("Undo", vec![s("Undo the last change"), s("key"), s("1")])]);
    let mut km = KeyMap::new();
    km.insert("Undo", Keys::from_slice(&[b'U' as u32]));
    let mut h = Handler::new(&mmd, km);

    assert_eq!(h.key_down(300), None);
    h.key_up(4096);
    assert_eq!(h.key_down(b'U' as u32), Some(ItemKind::Key(1)));
}
