//! Accelerator parsing: exact platform values, and the failure cases.

use muda::accelerator::{parse_accelerator, Accelerator, Code, Modifiers};
use muda::error::Error;

fn mods(shift: bool, ctrl: bool, alt: bool, meta: bool) -> Modifiers {
    Modifiers { shift, ctrl, alt, meta }
}

#[test]
fn parse_ctrl_s() {
    let a = Accelerator::new(Some(mods(false, true, false, false)), Code::KeyS);
    let p = parse_accelerator(&a).unwrap();
    assert_eq!(p.mods, 4);
    assert_eq!(p.key, 83);
}

#[test]
fn parse_shift_alt_f5() {
    let a = Accelerator::new(Some(mods(true, false, true, false)), Code::F5);
    let p = parse_accelerator(&a).unwrap();
    assert_eq!(p.mods, 1 + 8);
    assert_eq!(p.key, 65474);
}

#[test]
fn parse_meta_enter() {
    let a = Accelerator::new(Some(mods(false, false, false, true)), Code::Enter);
    let p = parse_accelerator(&a).unwrap();
    assert_eq!(p.mods, 67108864);
    assert_eq!(p.key, 65293);
}

#[test]
fn parse_no_modifiers() {
    let a = Accelerator::new(None, Code::Digit7);
    let p = parse_accelerator(&a).unwrap();
    assert_eq!(p.mods, 0);
    assert_eq!(p.key, 55);
}

#[test]
fn parse_unrepresentable_key_fails() {
    let a = Accelerator::new(Some(mods(false, true, false, false)), Code::Fn);
    assert_eq!(parse_accelerator(&a), Err(Error::AcceleratorParseError));
    let b = Accelerator::new(None, Code::Abort);
    assert_eq!(parse_accelerator(&b), Err(Error::AcceleratorParseError));
}
