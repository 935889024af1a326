use teehee::modes::{default_maps, event_to_action, Action, Key, KeyBinding, KeyPress, Replace, ReplaceOutcome};
use teehee::navigation::FilePosition;

fn key(c: char) -> KeyPress {
    KeyPress { key: Key::Char(c), ctrl: false, alt: false, shift: false }
}

#[test]
fn replace_names() {
    assert_eq!(Replace { hex: false, hex_half: None }.name(), "REPLACE (ascii)");
    assert_eq!(Replace { hex: true, hex_half: None }.name(), "REPLACE (hex)");
    assert_eq!(Replace { hex: true, hex_half: Some(0xa0) }.name(), "REPLACE (hex: a...)");
}

#[test]
fn replace_hex_takes_two_digits() {
    let r = Replace { hex: true, hex_half: None };
    let next = match r.transition(&key('B')) {
        ReplaceOutcome::Continue(n) => n,
        _ => panic!("a first digit waits for the second"),
    };
    assert_eq!(next, Replace { hex: true, hex_half: Some(0xb0) });
    assert_eq!(next.transition(&key('3')), ReplaceOutcome::Write(0xb3));
    assert_eq!(next.transition(&key('g')), ReplaceOutcome::ToNormal);
    assert_eq!(r.transition(&key('x')), ReplaceOutcome::ToNormal);
}

#[test]
fn replace_ascii_and_special_keys() {
    let r = Replace { hex: false, hex_half: None };
    assert_eq!(r.transition(&key('A')), ReplaceOutcome::Write(0x41));
    let ctrl_n = KeyPress { key: Key::Char('n'), ctrl: true, alt: false, shift: false };
    assert_eq!(r.transition(&ctrl_n), ReplaceOutcome::Write(0));
    let alt_a = KeyPress { key: Key::Char('a'), ctrl: false, alt: true, shift: false };
    assert_eq!(r.transition(&alt_a), ReplaceOutcome::ToNormal);
    let esc = KeyPress { key: Key::Other, ctrl: false, alt: false, shift: false };
    assert_eq!(r.transition(&esc), ReplaceOutcome::ToNormal);
    let shifted = KeyPress { key: Key::Char('Z'), ctrl: false, alt: false, shift: true };
    assert_eq!(r.transition(&shifted), ReplaceOutcome::Write(0x5a));
}

#[test]
fn key_map_lookup() {
    let maps = default_maps();
    assert_eq!(maps, vec![(KeyBinding { ch: 'n', ctrl: true }, Action::Null)]);
    let ctrl_n = KeyPress { key: Key::Char('n'), ctrl: true, alt: false, shift: false };
    assert_eq!(event_to_action(&maps, &ctrl_n), Some(Action::Null));
    assert_eq!(event_to_action(&maps, &key('n')), None);
}

#[test]
fn quick_positions() {
    assert_eq!(FilePosition::START.percentage(), 0);
    assert_eq!(FilePosition::QUARTER.percentage(), 25);
    assert_eq!(FilePosition::MIDDLE.percentage(), 50);
    assert_eq!(FilePosition::THREE_QUARTERS.percentage(), 75);
    assert_eq!(FilePosition::END.percentage(), 100);
}
