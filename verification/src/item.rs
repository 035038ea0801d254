use vstd::prelude::*;

use crate::dates::rfc2822_epoch;

verus! {

/// One feed entry, reduced to the plain values the engine reads or forwards:
/// the optional RFC 2822 publication-date string that drives deduplication,
/// and free-text fields that pass through to the notifier untouched.
#[derive(Clone, Debug, PartialEq)]
pub struct FeedItem {
    pub title: Option<String>,
    pub link: Option<String>,
    pub description: Option<String>,
    pub pub_date: Option<String>,
    pub categories: Vec<String>,
}

/// The publication instant of an item, as seconds since the UTC epoch:
/// `None` when the item carries no date or its date is not valid RFC 2822.
pub open spec fn item_epoch(it: FeedItem) -> Option<i64> {
    match it.pub_date {
        Some(s) => rfc2822_epoch(s@),
        None => None,
    }
}

} // verus!
