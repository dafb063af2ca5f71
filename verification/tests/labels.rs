use mmaccel::keys::Keys;
use mmaccel::old_key_map::str_to_vk;
use mmaccel::vk::{
    vk_to_string, VK_ADD, VK_CONTROL, VK_ESCAPE, VK_F1, VK_F24, VK_LEFT, VK_NUMPAD0, VK_OEM_102,
    VK_OEM_5, VK_SNAPSHOT,
};

#[test]
fn vk_to_string_test() {
    assert!(vk_to_string(VK_LEFT) == "Left");
    assert!(vk_to_string(b'A' as u32) == "A");
    assert!(vk_to_string(VK_NUMPAD0) == "Num0");
    assert!(vk_to_string(0x74) == "F5");
    assert!(vk_to_string(0xdf) == "(223)");
}

#[test]
fn vk_to_string_named_and_ranges() {
    assert_eq!(vk_to_string(VK_ESCAPE), "Esc");
    assert_eq!(vk_to_string(VK_CONTROL), "Ctrl");
    assert_eq!(vk_to_string(VK_SNAPSHOT), "PrintScreen");
    assert_eq!(vk_to_string(VK_ADD), "Num+");
    assert_eq!(vk_to_string(VK_OEM_5), "\\");
    assert_eq!(vk_to_string(VK_OEM_102), "_");
    assert_eq!(vk_to_string(b'0' as u32), "0");
    assert_eq!(vk_to_string(0x69), "Num9");
    assert_eq!(vk_to_string(VK_F1), "F1");
    assert_eq!(vk_to_string(VK_F24), "F24");
    assert_eq!(vk_to_string(0x40), "@");
    // An unrecognized code renders as its decimal value in parentheses,
    // with the code taken modulo 2^16.
    assert_eq!(vk_to_string(0xFFFF), "(65535)");
    assert_eq!(vk_to_string(0x1_0000 + 0x1B), "Esc");
}

#[test]
fn chord_display_labels_round_trip() {
    // A chord built from {Ctrl, 'Z'} displays as ["Ctrl", "Z"], in
    // ascending code order whatever the construction order.
    let chord = Keys::from_slice(&[b'Z' as u32, VK_CONTROL]);
    let labels = chord.to_strings();
    assert_eq!(labels.len(), 2);
    assert_eq!(labels[0], "Ctrl");
    assert_eq!(labels[1], "Z");
}

#[test]
fn str_to_vk_named_keys() {
    assert_eq!(str_to_vk("esc"), Some(VK_ESCAPE));
    assert_eq!(str_to_vk("ctrl"), Some(VK_CONTROL));
    assert_eq!(str_to_vk("  left \t"), Some(VK_LEFT));
    assert_eq!(str_to_vk("num+"), Some(VK_ADD));
    assert_eq!(str_to_vk("\\"), Some(VK_OEM_5));
    assert_eq!(str_to_vk("_"), Some(VK_OEM_102));
}

#[test]
fn str_to_vk_single_characters() {
    assert_eq!(str_to_vk("a"), Some(b'A' as u32));
    assert_eq!(str_to_vk("Z"), Some(b'Z' as u32));
    assert_eq!(str_to_vk("7"), Some(b'7' as u32));
    // A control character is rejected, not uppercased.
    assert_eq!(str_to_vk("\u{7f}"), None);
}

#[test]
fn str_to_vk_numbered_ranges() {
    assert_eq!(str_to_vk("num5"), Some(VK_NUMPAD0 + 5));
    assert_eq!(str_to_vk("f13"), Some(VK_F1 + 12));
    // The letter alone is the character 'F', not a function key.
    assert_eq!(str_to_vk("f"), Some(b'F' as u32));
    // Unparsable digits and overflowing numbers yield nothing.
    assert_eq!(str_to_vk("numx"), None);
    assert_eq!(str_to_vk("f4294967296"), None);
    assert_eq!(str_to_vk("num4294967295"), None);
}

#[test]
fn str_to_vk_rejects_unknown_names() {
    assert_eq!(str_to_vk(""), None);
    assert_eq!(str_to_vk("  "), None);
    assert_eq!(str_to_vk("escape"), None);
    assert_eq!(str_to_vk("ab"), None);
}
