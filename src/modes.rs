use vstd::prelude::*;
use vstd::string::StringExecFns;

verus! {

/// A key as the modes see it.
#[derive(Clone, Copy, Debug, PartialEq, Eq, Structural)]
pub enum Key {
    Char(char),
    Other,
}

/// A key press with its modifiers.
#[derive(Clone, Copy, Debug, PartialEq, Eq, Structural)]
pub struct KeyPress {
    pub key: Key,
    pub ctrl: bool,
    pub alt: bool,
    pub shift: bool,
}

/// A key bound in a key map: a character with or without control.
#[derive(Clone, Copy, Debug, PartialEq, Eq, Structural)]
pub struct KeyBinding {
    pub ch: char,
    pub ctrl: bool,
}

/// What the replace mode's own key map can ask for.
#[derive(Clone, Copy, Debug, PartialEq, Eq, Structural)]
pub enum Action {
    Null,
}

/// Whether `k` is the key press of binding `b`, with no other modifier.
pub open spec fn binds(b: KeyBinding, k: KeyPress) -> bool {
    k.key == Key::Char(b.ch) && k.ctrl == b.ctrl && !k.alt && !k.shift
}

/// The replace mode's key map: control-n writes a zero byte.
pub fn default_maps() -> (r: Vec<(KeyBinding, Action)>)
    ensures
        r@ == seq![(KeyBinding { ch: 'n', ctrl: true }, Action::Null)],
{
    let mut maps: Vec<(KeyBinding, Action)> = Vec::new();
    maps.push((KeyBinding { ch: 'n', ctrl: true }, Action::Null));
    proof {
        assert(maps@ =~= seq![(KeyBinding { ch: 'n', ctrl: true }, Action::Null)]);
    }
    maps
}

/// The action of the first binding of `maps` that `k` presses.
pub open spec fn lookup(maps: Seq<(KeyBinding, Action)>, k: KeyPress) -> Option<Action>
    decreases maps.len(),
{
    if maps.len() == 0 {
        None
    } else if binds(maps[0].0, k) {
        Some(maps[0].1)
    } else {
        lookup(maps.drop_first(), k)
    }
}

pub fn event_to_action(maps: &Vec<(KeyBinding, Action)>, k: &KeyPress) -> (r: Option<Action>)
    ensures
        r == lookup(maps@, *k),
{
    let mut i: usize = 0;
    proof {
        assert(maps@.skip(0) =~= maps@);
    }
    while i < maps.len()
        invariant
            i <= maps@.len(),
            lookup(maps@, *k) == lookup(maps@.skip(i as int), *k),
        decreases maps@.len() - i,
    {
        let b = maps[i].0;
        proof {
            assert(maps@.skip(i as int)[0] == maps@[i as int]);
            assert(maps@.skip(i as int).drop_first() =~= maps@.skip(i + 1));
        }
        if k.key == Key::Char(b.ch) && k.ctrl == b.ctrl && !k.alt && !k.shift {
            return Some(maps[i].1);
        }
        i = i + 1;
    }
    proof {
        assert(maps@.skip(i as int) =~= Seq::<(KeyBinding, Action)>::empty());
    }
    None
}

/// The value of a hexadecimal digit.
pub open spec fn hex_value(c: char) -> Option<u8> {
    if '0' <= c && c <= '9' {
        Some((c as u32 - '0' as u32) as u8)
    } else if 'a' <= c && c <= 'f' {
        Some((c as u32 - 'a' as u32 + 10) as u8)
    } else if 'A' <= c && c <= 'F' {
        Some((c as u32 - 'A' as u32 + 10) as u8)
    } else {
        None
    }
}

pub fn hex_digit_value(c: char) -> (r: Option<u8>)
    ensures
        r == hex_value(c),
{
    if '0' <= c && c <= '9' {
        Some((c as u32 - '0' as u32) as u8)
    } else if 'a' <= c && c <= 'f' {
        Some((c as u32 - 'a' as u32 + 10) as u8)
    } else if 'A' <= c && c <= 'F' {
        Some((c as u32 - 'A' as u32 + 10) as u8)
    } else {
        None
    }
}

/// The replace mode: the next key replaces every selected byte. In hex
/// form two digit keys make one byte; `hex_half` holds the high digit
/// once given, already shifted into place.
#[derive(Clone, Copy, Debug, PartialEq, Eq, Structural)]
pub struct Replace {
    pub hex: bool,
    pub hex_half: Option<u8>,
}

/// What a key does in the replace mode.
#[derive(Clone, Copy, Debug, PartialEq, Eq, Structural)]
pub enum ReplaceOutcome {
    /// Back to the normal mode, nothing written.
    ToNormal,
    /// Stay in the replace mode in this state.
    Continue(Replace),
    /// Replace every selected byte with this value, then back to the
    /// normal mode.
    Write(u8),
}

/// The low byte of a character's code, as a plain text key writes it.
pub open spec fn char_byte(c: char) -> u8 {
    (c as u32 % 256) as u8
}

impl Replace {
    pub open spec fn transition_spec(self, k: KeyPress) -> ReplaceOutcome {
        match k.key {
            Key::Other => ReplaceOutcome::ToNormal,
            Key::Char(ch) => if lookup(seq![(KeyBinding { ch: 'n', ctrl: true }, Action::Null)], k)
                is Some {
                ReplaceOutcome::Write(0)
            } else if k.ctrl || k.alt {
                ReplaceOutcome::ToNormal
            } else if !self.hex {
                ReplaceOutcome::Write(char_byte(ch))
            } else {
                match (hex_value(ch), self.hex_half) {
                    (None, _) => ReplaceOutcome::ToNormal,
                    (Some(v), None) => ReplaceOutcome::Continue(
                        Replace { hex: self.hex, hex_half: Some((v * 16) as u8) },
                    ),
                    (Some(v), Some(h)) => ReplaceOutcome::Write((v + h) as u8),
                }
            },
        }
    }

    /// The outcome of key `k`: control-n writes zero; another key with
    /// control or alt leaves the mode; in text form a character writes its
    /// low byte; in hex form a first digit waits for a second, the second
    /// writes the byte, and anything else leaves the mode.
    pub fn transition(&self, k: &KeyPress) -> (r: ReplaceOutcome)
        requires
            self.hex_half matches Some(h) ==> h % 16 == 0,
        ensures
            r == self.transition_spec(*k),
            r matches ReplaceOutcome::Continue(next) ==> next.hex_half matches Some(h) && h % 16
                == 0,
    {
        let ch = match k.key {
            Key::Other => return ReplaceOutcome::ToNormal,
            Key::Char(c) => c,
        };
        let maps = default_maps();
        if let Some(action) = event_to_action(&maps, k) {
            return match action {
                Action::Null => ReplaceOutcome::Write(0),
            };
        }
        if k.ctrl || k.alt {
            return ReplaceOutcome::ToNormal;
        }
        if !self.hex {
            return ReplaceOutcome::Write((ch as u32 % 256) as u8);
        }
        match hex_digit_value(ch) {
            None => ReplaceOutcome::ToNormal,
            Some(v) => match self.hex_half {
                None => ReplaceOutcome::Continue(Replace { hex: self.hex, hex_half: Some(v * 16) }),
                Some(h) => ReplaceOutcome::Write(v + h),
            },
        }
    }

    /// The mode's name for the status line.
    pub fn name(&self) -> (r: String)
        ensures
            (self.hex && self.hex_half is None) ==> r@ == "REPLACE (hex)"@,
            !self.hex ==> r@ == "REPLACE (ascii)"@,
            self.hex && self.hex_half is Some ==> r@ == "REPLACE (hex: "@ + seq![
                hex_char(self.hex_half->Some_0 / 16),
            ] + "...)"@,
    {
        if !self.hex {
            return "REPLACE (ascii)".to_owned();
        }
        match self.hex_half {
            None => "REPLACE (hex)".to_owned(),
            Some(h) => {
                let mut s = "REPLACE (hex: ".to_owned();
                s.append(hex_char_str(h / 16));
                s.append("...)");
                s
            },
        }
    }
}

/// The lower-case hexadecimal digit of `v`, for `v < 16`.
pub open spec fn hex_char(v: u8) -> char {
    if v < 10 {
        (('0' as u32) + v as u32) as char
    } else {
        (('a' as u32) + v as u32 - 10) as char
    }
}

fn hex_char_str(v: u8) -> (r: &'static str)
    requires
        v < 16,
    ensures
        r@ == seq![hex_char(v)],
{
    proof {
        reveal_strlit("0");
        reveal_strlit("1");
        reveal_strlit("2");
        reveal_strlit("3");
        reveal_strlit("4");
        reveal_strlit("5");
        reveal_strlit("6");
        reveal_strlit("7");
        reveal_strlit("8");
        reveal_strlit("9");
        reveal_strlit("a");
        reveal_strlit("b");
        reveal_strlit("c");
        reveal_strlit("d");
        reveal_strlit("e");
        reveal_strlit("f");
    }
    match v {
        0 => "0",
        1 => "1",
        2 => "2",
        3 => "3",
        4 => "4",
        5 => "5",
        6 => "6",
        7 => "7",
        8 => "8",
        9 => "9",
        10 => "a",
        11 => "b",
        12 => "c",
        13 => "d",
        14 => "e",
        _ => "f",
    }
}

} // verus!
