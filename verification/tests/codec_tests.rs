use replay_codec::codec::{decode, encode};
use replay_codec::mods::{Mod, ModSet};
use replay_codec::replay::{Mode, Replay};
use replay_codec::Error;

fn sample_replay() -> Replay {
    Replay {
        mode: Mode::Osu,
        version: 20230403,
        beatmap_hash: Some("2d68a7bfbb1a1d7e9fbb00c1d4eecd32".to_string()),
        player_username: Some("alice".to_string()),
        replay_hash: Some("0f343b0931126a20f133d67c2b018a3b".to_string()),
        count_300: 512,
        count_100: 33,
        count_50: 4,
        count_geki: 100,
        count_katu: 21,
        count_miss: 2,
        score: 7_654_321,
        max_combo: 888,
        perfect: false,
        mods: ModSet::from_bitmask(72),
        life_graph: Some("0|1,1500|0.85,3000|1".to_string()),
        timestamp: 638_244_192_000_000_000,
        action_data: vec![1, 2, 3, 4, 5, 0xff, 0x00, 0x7f],
        score_id: 4_242_424_242,
        target_practice_accuracy: None,
    }
}

fn bare_replay() -> Replay {
    Replay {
        mode: Mode::Mania,
        version: 0,
        beatmap_hash: None,
        player_username: None,
        replay_hash: None,
        count_300: 0,
        count_100: 0,
        count_50: 0,
        count_geki: 0,
        count_katu: 0,
        count_miss: 0,
        score: 0,
        max_combo: 0,
        perfect: true,
        mods: ModSet::from_bitmask(0),
        life_graph: None,
        timestamp: 0,
        action_data: vec![],
        score_id: 0,
        target_practice_accuracy: None,
    }
}

#[test]
fn record_round_trip_all_fields_present() {
    let r = sample_replay();
    let bytes = encode(&r).unwrap();
    let back = decode(&bytes).unwrap();
    assert_eq!(back, r);
}

#[test]
fn record_round_trip_all_optional_fields_absent() {
    let r = bare_replay();
    let bytes = encode(&r).unwrap();
    let back = decode(&bytes).unwrap();
    assert_eq!(back, r);
}

#[test]
fn bytes_round_trip() {
    // decoding encoder output and re-encoding gives identical bytes
    for r in [sample_replay(), bare_replay()] {
        let bytes = encode(&r).unwrap();
        let back = decode(&bytes).unwrap();
        assert_eq!(encode(&back).unwrap(), bytes);
    }
}

#[test]
fn empty_string_distinct_from_absent() {
    let mut r = bare_replay();
    r.player_username = Some(String::new());
    let bytes = encode(&r).unwrap();
    let back = decode(&bytes).unwrap();
    assert_eq!(back.player_username, Some(String::new()));
    let r2 = bare_replay();
    assert_ne!(encode(&r2).unwrap(), bytes);
}

#[test]
fn empty_action_data_round_trips() {
    let r = bare_replay();
    let bytes = encode(&r).unwrap();
    let back = decode(&bytes).unwrap();
    assert_eq!(back.action_data, Vec::<u8>::new());
}

#[test]
fn target_practice_accuracy_round_trips() {
    let mut r = sample_replay();
    r.mods = ModSet::from_bitmask(72 | 0x80_0000);
    r.target_practice_accuracy = Some((95.5f64).to_bits());
    let bytes = encode(&r).unwrap();
    let back = decode(&bytes).unwrap();
    assert_eq!(back, r);
    assert_eq!(f64::from_bits(back.target_practice_accuracy.unwrap()), 95.5);
}

#[test]
fn reserved_mod_bits_survive_the_codec() {
    let mut r = sample_replay();
    r.mods = ModSet::from_bitmask(0xe000_0048);
    let bytes = encode(&r).unwrap();
    let back = decode(&bytes).unwrap();
    assert_eq!(back.mods.to_bitmask(), 0xe000_0048);
}

#[test]
fn multibyte_username_round_trips() {
    let mut r = sample_replay();
    r.player_username = Some("Gäst 選手".to_string());
    let bytes = encode(&r).unwrap();
    let back = decode(&bytes).unwrap();
    assert_eq!(back.player_username.as_deref(), Some("Gäst 選手"));
}

#[test]
fn truncation_mid_integer_fails() {
    // cut after 3 of the 4 bytes of the version field
    let bytes = encode(&sample_replay()).unwrap();
    assert_eq!(decode(&bytes[..4].to_vec()), Err(Error::TruncatedInput));
}

#[test]
fn truncation_anywhere_never_succeeds() {
    let bytes = encode(&sample_replay()).unwrap();
    for n in 0..bytes.len() {
        assert!(decode(&bytes[..n].to_vec()).is_err(), "prefix length {}", n);
    }
}

#[test]
fn empty_input_is_truncated() {
    assert_eq!(decode(&Vec::new()), Err(Error::TruncatedInput));
}

#[test]
fn trailing_bytes_rejected() {
    let mut bytes = encode(&sample_replay()).unwrap();
    bytes.push(0);
    assert_eq!(decode(&bytes), Err(Error::InvalidEncoding));
}

#[test]
fn unknown_mode_byte_rejected() {
    let mut bytes = encode(&sample_replay()).unwrap();
    bytes[0] = 9;
    assert_eq!(decode(&bytes), Err(Error::InvalidEncoding));
}

#[test]
fn bad_string_marker_rejected() {
    // byte 5 is the presence marker of the first string field
    let mut bytes = encode(&sample_replay()).unwrap();
    bytes[5] = 0x07;
    assert_eq!(decode(&bytes), Err(Error::InvalidEncoding));
}

#[test]
fn invalid_utf8_rejected() {
    // bytes 7.. hold the first string's UTF-8 content
    let mut bytes = encode(&sample_replay()).unwrap();
    bytes[7] = 0xff;
    assert_eq!(decode(&bytes), Err(Error::MalformedString));
}

#[test]
fn overlong_string_length_rejected() {
    // a declared length that overruns the input
    let mut bytes = encode(&sample_replay()).unwrap();
    bytes[6] = 0xfe;
    assert_eq!(decode(&bytes), Err(Error::InvalidEncoding));
}

#[test]
fn username_edit_end_to_end() {
    let r = sample_replay();
    let bytes_in = encode(&r).unwrap();
    let mut edited = decode(&bytes_in).unwrap();
    edited.player_username = Some("bob".to_string());
    assert!(edited.is_wf());
    let bytes_out = encode(&edited).unwrap();
    // "alice" has five UTF-8 bytes, "bob" three
    assert_eq!(bytes_in.len() - bytes_out.len(), 2);
    let back = decode(&bytes_out).unwrap();
    assert_eq!(back.player_username.as_deref(), Some("bob"));
    let mut expected = r.clone();
    expected.player_username = Some("bob".to_string());
    assert_eq!(back, expected);
}

#[test]
fn wf_rejects_inconsistent_target_practice() {
    let mut r = sample_replay();
    r.target_practice_accuracy = Some(0);
    assert!(!r.is_wf());
    r.mods = ModSet::from_bitmask(0x80_0000);
    r.target_practice_accuracy = None;
    assert!(!r.is_wf());
    assert!(sample_replay().is_wf());
}

#[test]
fn long_string_uses_multibyte_length_prefix() {
    let mut r = bare_replay();
    r.life_graph = Some("x".repeat(300));
    let bytes = encode(&r).unwrap();
    let back = decode(&bytes).unwrap();
    assert_eq!(back, r);
}
