use replay_codec::timestamp::{to_ticks, DateTime, UNIX_EPOCH_TICKS};
use replay_codec::Error;

#[test]
fn ticks_of_reference_instant() {
    // 16:20 at UTC+3 is 13:20 UTC; unix seconds 1_688_822_400
    let ticks = to_ticks("2023-07-08 16:20:00 +03").unwrap();
    assert_eq!(ticks, 1_688_822_400 * 10_000_000 + 621_355_968_000_000_000);
    assert_eq!(ticks, 638_244_192_000_000_000);
}

#[test]
fn offset_forms_agree() {
    let plain = to_ticks("2023-07-08 16:20:00 +03").unwrap();
    assert_eq!(to_ticks("2023-07-08 16:20:00 +0300").unwrap(), plain);
    assert_eq!(to_ticks("2023-07-08 16:20:00 +03:00").unwrap(), plain);
    // a sub-hour offset shifts by 30 minutes
    assert_eq!(
        to_ticks("2023-07-08 16:20:00 +03:30").unwrap(),
        plain - 30 * 60 * 10_000_000
    );
}

#[test]
fn negative_offset() {
    let east = to_ticks("2023-07-08 16:20:00 +03").unwrap();
    let west = to_ticks("2023-07-08 16:20:00 -03").unwrap();
    assert_eq!(west - east, 6 * 3600 * 10_000_000);
}

#[test]
fn unix_epoch_lands_on_the_constant() {
    assert_eq!(to_ticks("1970-01-01 00:00:00 +00").unwrap(), UNIX_EPOCH_TICKS);
}

#[test]
fn platform_epoch_is_tick_zero() {
    assert_eq!(to_ticks("0001-01-01 00:00:00 +00").unwrap(), 0);
}

#[test]
fn pre_epoch_instant_rejected() {
    // one hour east of the platform epoch lies before tick zero
    assert_eq!(
        to_ticks("0001-01-01 00:00:00 +01"),
        Err(Error::MalformedTimestamp)
    );
    assert_eq!(
        to_ticks("0000-12-31 23:59:59 +00"),
        Err(Error::MalformedTimestamp)
    );
}

#[test]
fn malformed_shapes_rejected() {
    for s in [
        "",
        "2023-07-08",
        "2023-7-8 16:20:00 +03",
        "2023-07-08 16:20:00",
        "2023-07-08 16:20:00 03",
        "2023-07-08T16:20:00 +03",
        "2023-07-08 16:20:00 +3",
        "2023-07-08 16:20:00 +03:0",
        "x023-07-08 16:20:00 +03",
    ] {
        assert_eq!(to_ticks(s), Err(Error::MalformedTimestamp), "input: {:?}", s);
    }
}

#[test]
fn out_of_range_fields_rejected() {
    for s in [
        "2023-13-01 00:00:00 +00",
        "2023-00-01 00:00:00 +00",
        "2023-02-29 00:00:00 +00",
        "2023-04-31 00:00:00 +00",
        "2023-01-00 00:00:00 +00",
        "2023-01-01 24:00:00 +00",
        "2023-01-01 00:60:00 +00",
        "2023-01-01 00:00:60 +00",
        "2023-01-01 00:00:00 +24",
        "2023-01-01 00:00:00 +0060",
    ] {
        assert_eq!(to_ticks(s), Err(Error::MalformedTimestamp), "input: {:?}", s);
    }
}

#[test]
fn leap_day_accepted_in_leap_years() {
    assert!(to_ticks("2024-02-29 00:00:00 +00").is_ok());
    assert!(to_ticks("2000-02-29 00:00:00 +00").is_ok());
    assert_eq!(
        to_ticks("1900-02-29 00:00:00 +00"),
        Err(Error::MalformedTimestamp)
    );
}

#[test]
fn from_ticks_inverts_reference_instant() {
    let dt = DateTime::from_ticks(638_244_192_000_000_000);
    assert_eq!(
        dt,
        DateTime { year: 2023, month: 7, day: 8, hour: 13, minute: 20, second: 0 }
    );
}

#[test]
fn from_ticks_of_zero() {
    let dt = DateTime::from_ticks(0);
    assert_eq!(
        dt,
        DateTime { year: 1, month: 1, day: 1, hour: 0, minute: 0, second: 0 }
    );
}

#[test]
fn from_ticks_round_trips_through_to_ticks() {
    for s in [
        "1970-01-01 00:00:00 +00",
        "2024-02-29 12:34:56 +00",
        "0001-01-01 00:00:00 +00",
        "9999-12-31 23:59:59 +00",
        "2023-07-08 16:20:00 +03",
    ] {
        let ticks = to_ticks(s).unwrap();
        let dt = DateTime::from_ticks(ticks);
        let back = format!(
            "{:04}-{:02}-{:02} {:02}:{:02}:{:02} +00",
            dt.year, dt.month, dt.day, dt.hour, dt.minute, dt.second
        );
        assert_eq!(to_ticks(&back).unwrap(), ticks, "instant: {}", s);
    }
}

#[test]
fn from_ticks_drops_subsecond_remainder() {
    let dt = DateTime::from_ticks(9_999_999);
    assert_eq!(
        dt,
        DateTime { year: 1, month: 1, day: 1, hour: 0, minute: 0, second: 0 }
    );
}
