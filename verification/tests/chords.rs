use mmaccel::keys::Keys;
use mmaccel::vk::{VK_CONTROL, VK_LEFT, VK_RIGHT, VK_SHIFT};

#[test]
fn keys_eq() {
    let a = Keys::from_slice(&[VK_LEFT, VK_CONTROL]);
    let b = Keys::from_slice(&[VK_RIGHT, VK_CONTROL]);
    let c = Keys::from_slice(&[VK_LEFT, VK_CONTROL]);
    assert!(a == a);
    assert!(a != b);
    assert!(a == c);
}

#[test]
fn from_slice_is_order_independent() {
    let perms: [[u32; 3]; 6] = [
        [0x11, 0x5A, 0x25],
        [0x11, 0x25, 0x5A],
        [0x5A, 0x11, 0x25],
        [0x5A, 0x25, 0x11],
        [0x25, 0x11, 0x5A],
        [0x25, 0x5A, 0x11],
    ];
    let first = Keys::from_slice(&perms[0]);
    for p in perms.iter() {
        assert!(Keys::from_slice(p) == first);
    }
}

#[test]
fn from_slice_deduplicates() {
    assert!(Keys::from_slice(&[5, 5, 3, 5, 3]) == Keys::from_slice(&[3, 5]));
}

#[test]
fn empty_chords_are_equal() {
    assert!(Keys::from_slice(&[]) == Keys::from_slice(&[]));
    assert!(Keys::from_slice(&[]) == Keys::new());
    assert!(Keys::new().is_empty());
}

#[test]
fn clear_and_single_code() {
    let mut k = Keys::from_slice(&[1, 2, 3]);
    k.clear();
    assert!(k.is_empty());
    k.vk(0x42);
    assert!(k == Keys::from_slice(&[0x42]));
}

#[test]
fn keyboard_state_scans_pressed_range() {
    let mut table = [0u8; 256];
    table[0x41] = 0x80;
    table[0x11] = 0x80;
    table[0x03] = 0x80; // below the scanned range: ignored
    table[0xE5] = 0x80; // above the scanned range: ignored
    let mut k = Keys::new();
    k.keyboard_state(&table);
    assert!(k == Keys::from_slice(&[0x11, 0x41]));
}

#[test]
fn keyboard_state_collapses_modifier_variants() {
    // Only the left-Shift slot and the 'A' slot are pressed: the chord
    // records the generic Shift code once, never the variant.
    let mut table = [0u8; 256];
    table[0xA0] = 0x80;
    table[0x41] = 0x80;
    let mut k = Keys::new();
    k.keyboard_state(&table);
    assert!(k == Keys::from_slice(&[VK_SHIFT, 0x41]));

    // Both variants pressed still give one generic entry.
    table[0xA1] = 0x80;
    k.keyboard_state(&table);
    assert!(k == Keys::from_slice(&[VK_SHIFT, 0x41]));
}

#[test]
fn is_included_tracks_held_prefixes() {
    let chord = Keys::from_slice(&[0x11, 0x5A]);
    let full = Keys::from_slice(&[0x11, 0x5A]);
    let more = Keys::from_slice(&[0x10, 0x11, 0x5A]);
    let ctrl_only = Keys::from_slice(&[0x11]);
    let other = Keys::from_slice(&[0x10, 0x42]);
    assert!(chord.is_included(&full));
    assert!(chord.is_included(&more));
    assert!(!chord.is_included(&ctrl_only));
    assert!(!chord.is_included(&other));
    // An empty chord is trivially included in anything.
    assert!(Keys::new().is_included(&full));
    assert!(Keys::new().is_included(&Keys::new()));
}
