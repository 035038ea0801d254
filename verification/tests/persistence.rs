use chrono::{DateTime, Utc};

use netcup_offer_bot::feed::Feed;
use netcup_offer_bot::feed_state::{FeedStates, LoadError};

// The current UTC time at second precision.
fn get_current_utc_time() -> DateTime<Utc> {
    let now = Utc::now();
    let rfc2822 = now.to_rfc2822();
    DateTime::parse_from_rfc2822(&rfc2822).unwrap().with_timezone(&Utc)
}

#[test]
fn test_load_no_file() {
    let config = FeedStates::load(None).unwrap();
    assert!(config.is_empty());
}

#[test]
fn test_load_with_file() {
    let time = get_current_utc_time().timestamp();

    let mut expected = FeedStates::new();
    expected.get_feed_or_create(&Feed::Netcup).set_last_update(time);
    expected.un_dirty();

    let content = format!("{{\n  \"Netcup\": {{\n    \"last_update\": {}\n  }}\n}}", time);

    let config = FeedStates::load(Some(&content.into_bytes())).unwrap();
    assert_eq!(config, expected);
}

#[test]
fn test_save_no_dirty_empty() {
    let feed_states = FeedStates::new();

    assert!(feed_states.save().is_none());
}

#[test]
fn test_save_no_dirty() {
    let mut feed_states = FeedStates::new();
    feed_states
        .get_feed_or_create(&Feed::Netcup)
        .set_last_update(get_current_utc_time().timestamp());
    feed_states.un_dirty();

    assert!(feed_states.save().is_none());
}

#[test]
fn test_save_dirty() {
    let mut feed_states = FeedStates::new();
    feed_states
        .get_feed_or_create(&Feed::Netcup)
        .set_last_update(get_current_utc_time().timestamp());

    assert!(feed_states.save().is_some());
}

// The exact document shape written by a save.
#[test]
fn save_writes_the_documented_format() {
    let mut feed_states = FeedStates::new();
    feed_states.get_feed_or_create(&Feed::Netcup).set_last_update(1716400000);

    let bytes = feed_states.save().unwrap();
    let text = String::from_utf8(bytes).unwrap();
    assert_eq!(text, "{\n  \"Netcup\": {\n    \"last_update\": 1716400000\n  }\n}");
}

// Saving then loading yields the same collection, dirty bits aside.
#[test]
fn save_then_load_round_trips() {
    let mut feed_states = FeedStates::new();
    let time = get_current_utc_time().timestamp();
    feed_states.get_feed_or_create(&Feed::Netcup).set_last_update(time);

    let bytes = feed_states.save().unwrap();
    let loaded = FeedStates::load(Some(&bytes)).unwrap();

    feed_states.un_dirty();
    assert_eq!(loaded, feed_states);
}

// A load leaves nothing dirty, so a save directly after it writes nothing.
#[test]
fn save_after_load_is_suppressed() {
    let content = b"{\n  \"Netcup\": {\n    \"last_update\": 1716400000\n  }\n}".to_vec();
    let loaded = FeedStates::load(Some(&content)).unwrap();

    assert!(!loaded.is_dirty());
    assert!(loaded.save().is_none());
}

// An entry whose feed no longer exists is orphaned, not an error.
#[test]
fn unknown_feed_name_is_orphaned() {
    let content = b"{\n  \"Oldname\": {\n    \"last_update\": 5\n  }\n}".to_vec();
    let loaded = FeedStates::load(Some(&content)).unwrap();
    assert!(loaded.is_empty());
}

// A feed persisted before it ever accepted an item has an empty object.
#[test]
fn entry_without_watermark_loads_as_fresh() {
    let content = b"{\n  \"Netcup\": {}\n}".to_vec();
    let mut loaded = FeedStates::load(Some(&content)).unwrap();
    assert!(!loaded.is_empty());
    assert_eq!(loaded.get_feed_or_create(&Feed::Netcup).last_update, None);
}

// Blank space between tokens does not matter.
#[test]
fn load_tolerates_blank_space() {
    let content = b" {\"Netcup\":{\"last_update\": 7}} \n".to_vec();
    let mut loaded = FeedStates::load(Some(&content)).unwrap();
    assert_eq!(loaded.get_feed_or_create(&Feed::Netcup).last_update, Some(7));
}

// A watermark before the epoch is a negative count of seconds.
#[test]
fn load_accepts_negative_watermarks() {
    let content = b"{\"Netcup\":{\"last_update\": -42}}".to_vec();
    let mut loaded = FeedStates::load(Some(&content)).unwrap();
    assert_eq!(loaded.get_feed_or_create(&Feed::Netcup).last_update, Some(-42));
}

// A corrupt file is a fatal load error, never an empty state.
#[test]
fn corrupt_file_fails_the_load() {
    let cases: Vec<&[u8]> = vec![
        b"",
        b"[]",
        b"{",
        b"{\"Netcup\"}",
        b"{\"Netcup\": {\"last_update\": }}",
        b"{\"Netcup\": {\"last_update\": 01}}",
        b"{\"Netcup\": {\"last_update\": 99999999999999999999}}",
        b"{\"Netcup\": {\"other\": 1}}",
        b"{\"Netcup\": {}} trailing",
        b"{\"Net\\u0063up\": {}}",
    ];
    for case in cases {
        let r = FeedStates::load(Some(&case.to_vec()));
        assert_eq!(r, Err(LoadError::Malformed));
    }
}
