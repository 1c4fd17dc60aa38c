use replay_codec::mods::{Mod, ModSet};
use replay_codec::Error;

#[test]
fn bitmask_round_trip_plain() {
    for x in [0u32, 1, 8, 72, 0x1fff_ffff] {
        assert_eq!(ModSet::from_bitmask(x).to_bitmask(), x);
    }
}

#[test]
fn bitmask_round_trip_unknown_bits() {
    // values with reserved bits 29..31 set survive the round trip
    for x in [0xe000_0000u32, 0xe000_0048, u32::MAX, 0x2000_0000] {
        let set = ModSet::from_bitmask(x);
        assert_eq!(set.to_bitmask(), x);
    }
}

#[test]
fn from_bitmask_splits_reserved_bits() {
    let set = ModSet::from_bitmask(0xe000_0048);
    assert_eq!(set.known, 0x48);
    assert_eq!(set.unknown, 0xe000_0000);
    assert!(set.contains(Mod::Hidden));
    assert!(set.contains(Mod::DoubleTime));
    assert!(!set.contains(Mod::NoFail));
}

#[test]
fn parse_fixed_width_tokens() {
    let set = ModSet::parse_from_str("HDDT", "").unwrap();
    assert!(set.contains(Mod::Hidden));
    assert!(set.contains(Mod::DoubleTime));
    assert_eq!(set.to_bitmask(), 8 | 64);
}

#[test]
fn parse_separated_tokens() {
    let set = ModSet::parse_from_str("HD,DT", ",").unwrap();
    assert_eq!(set.to_bitmask(), 8 | 64);
}

#[test]
fn parse_unknown_token_fails() {
    assert_eq!(ModSet::parse_from_str("ZZ", ""), Err(Error::UnknownModName));
}

#[test]
fn parse_is_case_insensitive() {
    assert_eq!(
        ModSet::parse_from_str("hddt", "").unwrap().to_bitmask(),
        8 | 64
    );
}

#[test]
fn parse_duplicate_tokens_idempotent() {
    assert_eq!(ModSet::parse_from_str("HDHD", "").unwrap().to_bitmask(), 8);
}

#[test]
fn parse_leading_plus_and_longer_separator() {
    assert_eq!(
        ModSet::parse_from_str("+EZ, DT", ", ").unwrap().to_bitmask(),
        2 | 64
    );
}

#[test]
fn parse_empty_input_fails() {
    assert_eq!(ModSet::parse_from_str("", ""), Err(Error::UnknownModName));
}

#[test]
fn parse_dangling_separator_fails() {
    assert_eq!(ModSet::parse_from_str("HD,", ","), Err(Error::UnknownModName));
}

#[test]
fn parse_alternate_names() {
    // the touch-device and autopilot flags under their older names
    let set = ModSet::parse_from_str("NV", "").unwrap();
    assert!(set.contains(Mod::TouchDevice));
    let set = ModSet::parse_from_str("RL", "").unwrap();
    assert!(set.contains(Mod::Relax));
    let set = ModSet::parse_from_str("4K|FI|RD", "|").unwrap();
    assert_eq!(set.to_bitmask(), 0x8000 | 0x10_0000 | 0x20_0000);
}
