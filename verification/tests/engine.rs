use chrono::{DateTime, Duration, Utc};

use netcup_offer_bot::feed::Feed;
use netcup_offer_bot::feed_state::{FeedState, FeedStates};
use netcup_offer_bot::item::FeedItem;

fn create_rss_item(date: DateTime<Utc>) -> FeedItem {
    FeedItem {
        title: None,
        link: None,
        description: None,
        pub_date: Some(date.to_rfc2822()),
        categories: Vec::new(),
    }
}

fn undated_item() -> FeedItem {
    FeedItem {
        title: Some(String::from("no date")),
        link: None,
        description: None,
        pub_date: None,
        categories: Vec::new(),
    }
}

// The current UTC time at second precision, as an RFC 2822 round trip gives
// it: the precision feed items carry.
fn get_current_utc_time() -> DateTime<Utc> {
    let now = Utc::now();
    let rfc2822 = now.to_rfc2822();
    DateTime::parse_from_rfc2822(&rfc2822).unwrap().with_timezone(&Utc)
}

fn create_empty_feed_states() -> FeedStates {
    FeedStates::new()
}

fn create_feed_states(dirty: bool) -> FeedStates {
    let mut feed_states = FeedStates::new();
    let state = feed_states.get_feed_or_create(&Feed::Netcup);
    state.set_last_update(get_current_utc_time().timestamp());
    if !dirty {
        feed_states.un_dirty();
    }
    feed_states
}

#[test]
fn test_un_dirty() {
    let mut feed_states = create_feed_states(true);

    feed_states.un_dirty();

    assert!(!feed_states.get_feed_or_create(&Feed::Netcup).dirty);
}

#[test]
fn test_get_feed_or_create() {
    let mut feed_states = create_empty_feed_states();

    let feed = Feed::Netcup;
    let new_time = get_current_utc_time().timestamp();

    // Initial state
    {
        let state = feed_states.get_feed_or_create(&feed);
        assert_eq!(*state, FeedState::default());

        state.set_last_update(new_time);
    }

    // Check if state is updated
    {
        let state = feed_states.get_feed_or_create(&feed);
        assert_eq!(state.last_update, Some(new_time));
    }
}

#[test]
fn test_get_new_feed_empty() {
    let mut feed_states = create_empty_feed_states();

    let items = feed_states.get_new_feed(&Feed::Netcup, Vec::new());
    assert!(items.is_empty());
    assert!(feed_states.is_empty());
    assert!(!feed_states.is_dirty());
}

#[test]
fn test_get_new_feed_first_run() {
    let mut feed_states = create_empty_feed_states();

    let feed = Feed::Netcup;
    let highest_time = get_current_utc_time() + Duration::hours(1);
    let items = vec![create_rss_item(get_current_utc_time()), create_rss_item(highest_time)];
    let filtered_items = feed_states.get_new_feed(&feed, items.clone());

    assert_eq!(items, filtered_items);
    assert_eq!(
        feed_states.get_feed_or_create(&feed).last_update,
        Some(highest_time.timestamp())
    );
    assert!(feed_states.is_dirty());
}

#[test]
fn test_get_new_feed_all_before() {
    let mut feed_states = create_feed_states(false);

    let feed = Feed::Netcup;
    let expected_time = feed_states.get_feed_or_create(&feed).last_update;

    let mut items = Vec::new();
    for i in 1..10 {
        let time = get_current_utc_time() - Duration::hours(i);
        items.push(create_rss_item(time));
    }

    let filtered_items = feed_states.get_new_feed(&feed, items);

    assert!(filtered_items.is_empty());
    assert!(!feed_states.is_dirty());
    assert_eq!(feed_states.get_feed_or_create(&feed).last_update, expected_time);
}

#[test]
fn test_get_new_feed_all_after() {
    let mut feed_states = create_feed_states(false);

    let feed = Feed::Netcup;

    let mut items = Vec::new();
    let mut expected_time = None;
    for i in 1..10 {
        let time = get_current_utc_time() + Duration::hours(i);
        if expected_time == None || time > expected_time.unwrap() {
            expected_time = Some(time);
        }
        items.push(create_rss_item(time));
    }

    let filtered_items = feed_states.get_new_feed(&feed, items.clone());

    assert!(feed_states.is_dirty());
    assert_eq!(filtered_items.len(), items.len());
    assert_eq!(filtered_items, items);
    assert_eq!(
        feed_states.get_feed_or_create(&feed).last_update,
        Some(expected_time.unwrap().timestamp())
    );
}

#[test]
fn test_get_new_feed_same_time() {
    let mut feed_states = create_feed_states(false);

    let feed = Feed::Netcup;

    let time = feed_states.get_feed_or_create(&feed).last_update.unwrap();
    let date = DateTime::from_timestamp(time, 0).unwrap();
    let items = vec![create_rss_item(date), create_rss_item(date)];

    let filtered_items = feed_states.get_new_feed(&feed, items.clone());

    assert!(!feed_states.is_dirty());
    assert!(filtered_items.is_empty());
}

#[test]
fn test_get_new_feed() {
    let mut feed_states = create_feed_states(false);

    let feed = Feed::Netcup;
    let mut before = Vec::new();
    for i in 1..10 {
        let time = get_current_utc_time() - Duration::hours(i);
        before.push(create_rss_item(time));
    }

    let mut after = Vec::new();
    for i in 1..10 {
        let time = get_current_utc_time() + Duration::hours(i);
        after.push(create_rss_item(time));
    }

    let mut items = before.clone();
    items.append(&mut after.clone());

    let filtered_items = feed_states.get_new_feed(&feed, items.clone());

    assert!(feed_states.is_dirty());
    assert_eq!(filtered_items.len(), after.len());
    assert_eq!(filtered_items, after);
}

#[test]
fn test_default() {
    let state = FeedState::default();

    assert_eq!(state.last_update, None);
    assert!(!state.dirty);
}

#[test]
fn test_set_last_update() {
    let mut state = FeedState::default();

    let time = Utc::now().timestamp();
    state.set_last_update(time);

    assert_eq!(state.last_update, Some(time));
    assert!(state.dirty);
}

#[test]
fn test_is_before_none() {
    let state = FeedState::default();

    let time = get_current_utc_time().timestamp();
    assert!(!state.is_before(time));
}

#[test]
fn test_is_before_same_time() {
    let mut state = FeedState::default();

    let time = get_current_utc_time().timestamp();
    state.set_last_update(time);

    assert!(state.is_before(time));
}

#[test]
fn test_is_before_before_time() {
    let mut state = FeedState::default();

    let time = get_current_utc_time();
    state.set_last_update(time.timestamp());

    let check_time = time - Duration::hours(1);
    assert!(state.is_before(check_time.timestamp()));
}

#[test]
fn test_is_before_after_time() {
    let mut state = FeedState::default();

    let time = get_current_utc_time();
    state.set_last_update(time.timestamp());

    let check_time = time + Duration::hours(1);
    assert!(!state.is_before(check_time.timestamp()));
}

// A fresh feed accepts an old and a future item alike, takes the later one
// as its watermark, and is left dirty.
#[test]
fn fresh_feed_takes_latest_date_as_watermark() {
    let mut feed_states = create_empty_feed_states();
    let feed = Feed::Netcup;

    let now = get_current_utc_time();
    let past = now - Duration::hours(1);
    let future = now + Duration::hours(1);
    let items = vec![create_rss_item(past), create_rss_item(future)];

    let filtered = feed_states.get_new_feed(&feed, items.clone());

    assert_eq!(filtered, items);
    assert_eq!(
        feed_states.get_feed_or_create(&feed).last_update,
        Some(future.timestamp())
    );
    assert!(feed_states.is_dirty());
}

// An item dated exactly at the watermark is excluded; one dated a second
// later is included.
#[test]
fn tie_is_excluded_one_second_later_is_included() {
    let mut feed_states = create_empty_feed_states();
    let feed = Feed::Netcup;

    let t = get_current_utc_time();
    feed_states.get_feed_or_create(&feed).set_last_update(t.timestamp());
    feed_states.un_dirty();

    let at_watermark = create_rss_item(t);
    let one_later = create_rss_item(t + Duration::seconds(1));
    let filtered =
        feed_states.get_new_feed(&feed, vec![at_watermark, one_later.clone()]);

    assert_eq!(filtered, vec![one_later]);
    assert_eq!(
        feed_states.get_feed_or_create(&feed).last_update,
        Some(t.timestamp() + 1)
    );
}

// Filtering the exact same batch twice: the first pass accepts, the second
// pass is empty.
#[test]
fn second_pass_over_same_batch_is_empty() {
    let mut feed_states = create_empty_feed_states();
    let feed = Feed::Netcup;

    let now = get_current_utc_time();
    let items = vec![
        create_rss_item(now - Duration::hours(2)),
        create_rss_item(now),
        create_rss_item(now - Duration::hours(1)),
    ];

    let first = feed_states.get_new_feed(&feed, items.clone());
    assert_eq!(first.len(), 3);

    let second = feed_states.get_new_feed(&feed, items);
    assert!(second.is_empty());
}

// Items without a date, or with a date that is not RFC 2822, are dropped
// without affecting the others or the watermark.
#[test]
fn dateless_and_unparseable_items_are_dropped() {
    let mut feed_states = create_empty_feed_states();
    let feed = Feed::Netcup;

    let now = get_current_utc_time();
    let bad_date = FeedItem {
        title: None,
        link: None,
        description: None,
        pub_date: Some(String::from("not a date")),
        categories: Vec::new(),
    };
    let good = create_rss_item(now);
    let items = vec![undated_item(), bad_date, good.clone()];

    let filtered = feed_states.get_new_feed(&feed, items);

    assert_eq!(filtered, vec![good]);
    assert_eq!(
        feed_states.get_feed_or_create(&feed).last_update,
        Some(now.timestamp())
    );
}

// A batch of only stale or dateless items never touches the watermark, even
// on a feed that has no state entry yet.
#[test]
fn dateless_batch_creates_clean_entry() {
    let mut feed_states = create_empty_feed_states();
    let feed = Feed::Netcup;

    let filtered = feed_states.get_new_feed(&feed, vec![undated_item()]);

    assert!(filtered.is_empty());
    assert!(!feed_states.is_dirty());
    assert!(!feed_states.is_empty());
    assert_eq!(feed_states.get_feed_or_create(&feed).last_update, None);
}

#[test]
fn feed_names_and_urls_are_fixed() {
    assert_eq!(Feed::Netcup.name(), "Netcup");
    assert_eq!(
        Feed::Netcup.url(),
        "https://www.netcup.com/special-offers.xml?locale=de"
    );
    assert_eq!(Feed::all(), vec![Feed::Netcup]);
}
