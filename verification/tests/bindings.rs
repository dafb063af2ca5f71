use mmaccel::config_value::ConfigValue;
use mmaccel::key_map::KeyMap;
use mmaccel::keys::Keys;
use mmaccel::vk::{VK_CONTROL, VK_LEFT, VK_RIGHT, VK_SHIFT, VK_TAB};

fn chord_value(codes: &[u32]) -> ConfigValue {
    ConfigValue::Array(codes.iter().map(|&c| ConfigValue::UInt(c as u64)).collect())
}

#[test]
fn key_map_test() {
    let mut key_map = KeyMap::new();
    key_map.insert("Undo", Keys::from_slice(&[VK_CONTROL, b'Z' as u32]));
    key_map.insert("Redo", Keys::from_slice(&[VK_CONTROL, VK_SHIFT, b'Z' as u32]));
    let ret = KeyMap::from_value(&key_map.to_value()).unwrap();
    assert!(ret.get("Undo").unwrap() == &Keys::from_slice(&[VK_CONTROL, b'Z' as u32]));
    assert!(ret.get("Redo").unwrap() == &Keys::from_slice(&[VK_CONTROL, VK_SHIFT, b'Z' as u32]));
    assert!(ret.get("Undo").unwrap() != &Keys::from_slice(&[VK_SHIFT, b'Z' as u32]));
}

#[test]
fn insert_replaces_in_place() {
    let mut m = KeyMap::new();
    m.insert("A", Keys::from_slice(&[1]));
    m.insert("B", Keys::from_slice(&[2]));
    m.insert("A", Keys::from_slice(&[3]));
    assert!(m.get("A").unwrap() == &Keys::from_slice(&[3]));
    assert!(m.get("B").unwrap() == &Keys::from_slice(&[2]));
    assert_eq!(m.iter().len(), 2);
    assert!(m.get("C").is_none());
}

#[test]
fn load_canonicalizes_wire_chords() {
    let v = ConfigValue::Object(vec![
        (String::from("Undo"), chord_value(&[90, 17, 90])),
    ]);
    let m = KeyMap::from_value(&v).unwrap();
    assert!(m.get("Undo").unwrap() == &Keys::from_slice(&[17, 90]));
}

#[test]
fn load_fails_on_bad_entries() {
    // A value that is not a code array fails the whole load.
    let v = ConfigValue::Object(vec![
        (String::from("Undo"), ConfigValue::Str(String::from("17"))),
    ]);
    assert!(KeyMap::from_value(&v).is_none());
    // A code beyond the 32-bit range fails the whole load.
    let v = ConfigValue::Object(vec![
        (String::from("Undo"), ConfigValue::Array(vec![ConfigValue::UInt(0x1_0000_0000)])),
    ]);
    assert!(KeyMap::from_value(&v).is_none());
    // The top level must be an object.
    assert!(KeyMap::from_value(&chord_value(&[17])).is_none());
}

#[test]
fn save_omits_empty_chords() {
    let mut m = KeyMap::new();
    m.insert("Bound", Keys::from_slice(&[VK_TAB]));
    m.insert("Unbound", Keys::new());
    let saved = m.to_value();
    match &saved {
        ConfigValue::Object(entries) => {
            assert_eq!(entries.len(), 1);
            assert_eq!(entries[0].0, "Bound");
        },
        _ => panic!("saved bindings must be an object"),
    }
    let back = KeyMap::from_value(&saved).unwrap();
    assert!(back.get("Bound").unwrap() == &Keys::from_slice(&[VK_TAB]));
    assert!(back.get("Unbound").is_none());
}

#[test]
fn default_bindings_ship_the_known_table() {
    let m = KeyMap::default();
    assert_eq!(m.iter().len(), 36);
    assert!(m.get("Undo").unwrap() == &Keys::from_slice(&[VK_CONTROL, b'Z' as u32]));
    assert!(m.get("Redo").unwrap() == &Keys::from_slice(&[VK_CONTROL, b'X' as u32]));
    assert!(m.get("FramePrev").unwrap() == &Keys::from_slice(&[VK_LEFT]));
    assert!(m.get("FrameNext").unwrap() == &Keys::from_slice(&[VK_RIGHT]));
    assert!(m.get("MainChangeEditor").unwrap() == &Keys::from_slice(&[VK_TAB]));
    assert!(m.get("InterpolationAuto").unwrap() == &Keys::from_slice(&[0xDD]));
}
