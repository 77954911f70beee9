use vstd::prelude::*;

use crate::error::Error;

verus! {

/// Modifier keys of an abstract accelerator.
#[derive(Clone, Copy, PartialEq, Eq, Structural, Debug)]
pub struct Modifiers {
    pub shift: bool,
    pub ctrl: bool,
    pub alt: bool,
    pub meta: bool,
}

impl Modifiers {
    pub fn empty() -> (r: Modifiers)
        ensures
            r == (Modifiers { shift: false, ctrl: false, alt: false, meta: false }),
    {
        Modifiers { shift: false, ctrl: false, alt: false, meta: false }
    }
}

/// Abstract key of an accelerator, named after the physical key.
///
/// `parse_accelerator` maps each key to its platform key value; a key without
/// such a value (for example `Fn`) is not representable and is rejected.
#[derive(Clone, Copy, PartialEq, Eq, Structural, Debug)]
pub enum Code {
    KeyA,
    KeyB,
    KeyC,
    KeyD,
    KeyE,
    KeyF,
    KeyG,
    KeyH,
    KeyI,
    KeyJ,
    KeyK,
    KeyL,
    KeyM,
    KeyN,
    KeyO,
    KeyP,
    KeyQ,
    KeyR,
    KeyS,
    KeyT,
    KeyU,
    KeyV,
    KeyW,
    KeyX,
    KeyY,
    KeyZ,
    Digit0,
    Digit1,
    Digit2,
    Digit3,
    Digit4,
    Digit5,
    Digit6,
    Digit7,
    Digit8,
    Digit9,
    F1,
    F2,
    F3,
    F4,
    F5,
    F6,
    F7,
    F8,
    F9,
    F10,
    F11,
    F12,
    Enter,
    Tab,
    Space,
    Backspace,
    Delete,
    Escape,
    ArrowLeft,
    ArrowUp,
    ArrowRight,
    ArrowDown,
    Home,
    End,
    PageUp,
    PageDown,
    Minus,
    Equal,
    Comma,
    Period,
    Slash,
    /// The laptop `Fn` key: no platform key value exists for it.
    Fn,
    /// The legacy `Abort` key: no platform key value exists for it.
    Abort,
}

/// An abstract accelerator: a modifier set and a key code.
#[derive(Clone, Copy, PartialEq, Eq, Structural, Debug)]
pub struct Accelerator {
    pub mods: Modifiers,
    pub key: Code,
}

impl Accelerator {
    /// A new accelerator; `None` modifiers mean no modifiers at all.
    pub fn new(mods: Option<Modifiers>, key: Code) -> (r: Accelerator)
        ensures
            r.key == key,
            r.mods == (match mods {
                Some(m) => m,
                None => Modifiers { shift: false, ctrl: false, alt: false, meta: false },
            }),
    {
        let m = match mods {
            Some(m) => m,
            None => Modifiers::empty(),
        };
        Accelerator { mods: m, key }
    }
}

/// The platform key representation of an accelerator: a modifier bit set and
/// a key value, as a surface's accelerator table stores them.
#[derive(Clone, Copy, PartialEq, Eq, Structural, Debug)]
pub struct ParsedAccel {
    pub mods: u32,
    pub key: u32,
}

pub const SHIFT_MASK: u32 = 1;
pub const CONTROL_MASK: u32 = 4;
pub const ALT_MASK: u32 = 8;
pub const META_MASK: u32 = 67108864;

/// The platform modifier bit set of a modifier set.
pub open spec fn spec_mod_bits(m: Modifiers) -> u32 {
    ((if m.shift {
        SHIFT_MASK
    } else {
        0
    }) + (if m.ctrl {
        CONTROL_MASK
    } else {
        0
    }) + (if m.alt {
        ALT_MASK
    } else {
        0
    }) + (if m.meta {
        META_MASK
    } else {
        0
    })) as u32
}

/// The platform key value of an abstract key, or `None` where the key has no
/// platform representation.
pub open spec fn spec_keyval(c: Code) -> Option<u32> {
    match c {
        Code::KeyA => Some(65u32),
        Code::KeyB => Some(66u32),
        Code::KeyC => Some(67u32),
        Code::KeyD => Some(68u32),
        Code::KeyE => Some(69u32),
        Code::KeyF => Some(70u32),
        Code::KeyG => Some(71u32),
        Code::KeyH => Some(72u32),
        Code::KeyI => Some(73u32),
        Code::KeyJ => Some(74u32),
        Code::KeyK => Some(75u32),
        Code::KeyL => Some(76u32),
        Code::KeyM => Some(77u32),
        Code::KeyN => Some(78u32),
        Code::KeyO => Some(79u32),
        Code::KeyP => Some(80u32),
        Code::KeyQ => Some(81u32),
        Code::KeyR => Some(82u32),
        Code::KeyS => Some(83u32),
        Code::KeyT => Some(84u32),
        Code::KeyU => Some(85u32),
        Code::KeyV => Some(86u32),
        Code::KeyW => Some(87u32),
        Code::KeyX => Some(88u32),
        Code::KeyY => Some(89u32),
        Code::KeyZ => Some(90u32),
        Code::Digit0 => Some(48u32),
        Code::Digit1 => Some(49u32),
        Code::Digit2 => Some(50u32),
        Code::Digit3 => Some(51u32),
        Code::Digit4 => Some(52u32),
        Code::Digit5 => Some(53u32),
        Code::Digit6 => Some(54u32),
        Code::Digit7 => Some(55u32),
        Code::Digit8 => Some(56u32),
        Code::Digit9 => Some(57u32),
        Code::F1 => Some(65470u32),
        Code::F2 => Some(65471u32),
        Code::F3 => Some(65472u32),
        Code::F4 => Some(65473u32),
        Code::F5 => Some(65474u32),
        Code::F6 => Some(65475u32),
        Code::F7 => Some(65476u32),
        Code::F8 => Some(65477u32),
        Code::F9 => Some(65478u32),
        Code::F10 => Some(65479u32),
        Code::F11 => Some(65480u32),
        Code::F12 => Some(65481u32),
        Code::Enter => Some(65293u32),
        Code::Tab => Some(65289u32),
        Code::Space => Some(32u32),
        Code::Backspace => Some(65288u32),
        Code::Delete => Some(65535u32),
        Code::Escape => Some(65307u32),
        Code::ArrowLeft => Some(65361u32),
        Code::ArrowUp => Some(65362u32),
        Code::ArrowRight => Some(65363u32),
        Code::ArrowDown => Some(65364u32),
        Code::Home => Some(65360u32),
        Code::End => Some(65367u32),
        Code::PageUp => Some(65365u32),
        Code::PageDown => Some(65366u32),
        Code::Minus => Some(45u32),
        Code::Equal => Some(61u32),
        Code::Comma => Some(44u32),
        Code::Period => Some(46u32),
        Code::Slash => Some(47u32),
        Code::Fn => None,
        Code::Abort => None,
    }
}

/// What parsing an abstract accelerator yields: its platform representation,
/// or `None` where the key is not representable.
pub open spec fn spec_parse(a: Accelerator) -> Option<ParsedAccel> {
    match spec_keyval(a.key) {
        Some(kv) => Some(ParsedAccel { mods: spec_mod_bits(a.mods), key: kv }),
        None => None,
    }
}

/// Parses an abstract accelerator into its platform key representation.
///
/// Returns `Err(Error::AcceleratorParseError)` exactly when the key has no
/// platform representation.
pub fn parse_accelerator(accel: &Accelerator) -> (r: Result<ParsedAccel, Error>)
    ensures
        match spec_parse(*accel) {
            Some(p) => r == Ok::<ParsedAccel, Error>(p),
            None => r == Err::<ParsedAccel, Error>(Error::AcceleratorParseError),
        },
{
    let kv: Option<u32> = match accel.key {
        Code::KeyA => Some(65u32),
        Code::KeyB => Some(66u32),
        Code::KeyC => Some(67u32),
        Code::KeyD => Some(68u32),
        Code::KeyE => Some(69u32),
        Code::KeyF => Some(70u32),
        Code::KeyG => Some(71u32),
        Code::KeyH => Some(72u32),
        Code::KeyI => Some(73u32),
        Code::KeyJ => Some(74u32),
        Code::KeyK => Some(75u32),
        Code::KeyL => Some(76u32),
        Code::KeyM => Some(77u32),
        Code::KeyN => Some(78u32),
        Code::KeyO => Some(79u32),
        Code::KeyP => Some(80u32),
        Code::KeyQ => Some(81u32),
        Code::KeyR => Some(82u32),
        Code::KeyS => Some(83u32),
        Code::KeyT => Some(84u32),
        Code::KeyU => Some(85u32),
        Code::KeyV => Some(86u32),
        Code::KeyW => Some(87u32),
        Code::KeyX => Some(88u32),
        Code::KeyY => Some(89u32),
        Code::KeyZ => Some(90u32),
        Code::Digit0 => Some(48u32),
        Code::Digit1 => Some(49u32),
        Code::Digit2 => Some(50u32),
        Code::Digit3 => Some(51u32),
        Code::Digit4 => Some(52u32),
        Code::Digit5 => Some(53u32),
        Code::Digit6 => Some(54u32),
        Code::Digit7 => Some(55u32),
        Code::Digit8 => Some(56u32),
        Code::Digit9 => Some(57u32),
        Code::F1 => Some(65470u32),
        Code::F2 => Some(65471u32),
        Code::F3 => Some(65472u32),
        Code::F4 => Some(65473u32),
        Code::F5 => Some(65474u32),
        Code::F6 => Some(65475u32),
        Code::F7 => Some(65476u32),
        Code::F8 => Some(65477u32),
        Code::F9 => Some(65478u32),
        Code::F10 => Some(65479u32),
        Code::F11 => Some(65480u32),
        Code::F12 => Some(65481u32),
        Code::Enter => Some(65293u32),
        Code::Tab => Some(65289u32),
        Code::Space => Some(32u32),
        Code::Backspace => Some(65288u32),
        Code::Delete => Some(65535u32),
        Code::Escape => Some(65307u32),
        Code::ArrowLeft => Some(65361u32),
        Code::ArrowUp => Some(65362u32),
        Code::ArrowRight => Some(65363u32),
        Code::ArrowDown => Some(65364u32),
        Code::Home => Some(65360u32),
        Code::End => Some(65367u32),
        Code::PageUp => Some(65365u32),
        Code::PageDown => Some(65366u32),
        Code::Minus => Some(45u32),
        Code::Equal => Some(61u32),
        Code::Comma => Some(44u32),
        Code::Period => Some(46u32),
        Code::Slash => Some(47u32),
        Code::Fn => None,
        Code::Abort => None,
    };
    match kv {
        Some(key) => {
            let mut mods: u32 = 0;
            if accel.mods.shift {
                mods = mods + SHIFT_MASK;
            }
            if accel.mods.ctrl {
                mods = mods + CONTROL_MASK;
            }
            if accel.mods.alt {
                mods = mods + ALT_MASK;
            }
            if accel.mods.meta {
                mods = mods + META_MASK;
            }
            Ok(ParsedAccel { mods, key })
        },
        None => Err(Error::AcceleratorParseError),
    }
}

} // verus!
