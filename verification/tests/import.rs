use mmaccel::keys::Keys;
use mmaccel::old_key_map::{parse_line, OldKeyMap};
use mmaccel::vk::{VK_CONTROL, VK_ESCAPE};

#[test]
fn parse_line_reads_name_and_chord() {
    let it = parse_line("Undo = Ctrl+Z").unwrap();
    assert_eq!(it.id, "Undo");
    assert!(it.keys.unwrap() == Keys::from_slice(&[VK_CONTROL, b'Z' as u32]));
}

#[test]
fn parse_line_skips_bad_lines() {
    assert!(parse_line("").is_none());
    assert!(parse_line("# a comment = Ctrl+Z").is_none());
    assert!(parse_line("no separator").is_none());
    assert!(parse_line("Two = a = b").is_none());
    assert!(parse_line("Unknown = nosuchkey").is_none());
    assert!(parse_line("Empty = ").is_none());
    assert!(parse_line("Gap = Ctrl++Z").is_none());
}

#[test]
fn load_old_key_map_lines() {
    let lines: Vec<String> = vec![
        String::from("# imported bindings"),
        String::from(""),
        String::from("FramePrev = A"),
        String::from("FrameNext=d"),
        String::from("Quit = ESC"),
        String::from("Broken = nosuchkey"),
    ];
    let data = OldKeyMap::from_lines(&lines);
    assert_eq!(data.0.len(), 3);
    let prev = data.0.iter().find(|item| item.id == "FramePrev").unwrap();
    assert!(prev.keys.as_ref().unwrap() == &Keys::from_slice(&[b'A' as u32]));
    let next = data.0.iter().find(|item| item.id == "FrameNext").unwrap();
    assert!(next.keys.as_ref().unwrap() == &Keys::from_slice(&[b'D' as u32]));
    let quit = data.0.iter().find(|item| item.id == "Quit").unwrap();
    assert!(quit.keys.as_ref().unwrap() == &Keys::from_slice(&[VK_ESCAPE]));
}
