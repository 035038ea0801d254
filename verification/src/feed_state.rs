use vstd::prelude::*;

use crate::codec::{spec_parse_states, spec_render_states};
use crate::feed::Feed;
use crate::item::{item_epoch, FeedItem};

verus! {

/// Why a persisted state file failed to load.
#[derive(Clone, Copy, Debug, PartialEq, Eq, Structural)]
pub enum LoadError {
    /// The file's text is not a valid state document.
    Malformed,
}

/// Per-feed watermark: the publication time (seconds since the UTC epoch) of
/// the most recent item ever accepted as new for this feed, or `None` when no
/// item has ever been accepted; plus a transient dirty bit, true iff the
/// watermark changed since the last successful save.  The dirty bit is never
/// persisted.
#[derive(Clone, Copy, Debug, PartialEq, Eq, Structural)]
pub struct FeedState {
    pub last_update: Option<i64>,
    pub dirty: bool,
}

/// An item dated `date` counts as already seen iff a watermark is set and
/// `date` is not strictly newer than it.  With no watermark, nothing is seen.
pub open spec fn seen(w: Option<i64>, date: i64) -> bool {
    w matches Some(last) && date <= last
}

impl FeedState {
    pub fn new(last_update: Option<i64>, dirty: bool) -> (r: FeedState)
        ensures
            r == (FeedState { last_update, dirty }),
    {
        FeedState { last_update, dirty }
    }

    /// True iff `date` is already covered by this feed's watermark.
    pub fn is_before(&self, date: i64) -> (r: bool)
        ensures
            r == seen(self.last_update, date),
    {
        match self.last_update {
            Some(last) => date <= last,
            None => false,
        }
    }

    /// Overwrite the watermark unconditionally and mark the state dirty.
    /// Callers pass the maximum accepted date of the current batch.
    pub fn set_last_update(&mut self, date: i64)
        ensures
            *final(self) == (FeedState { last_update: Some(date), dirty: true }),
    {
        self.last_update = Some(date);
        self.dirty = true;
    }
}

impl Default for FeedState {
    /// Fresh state: no item ever accepted, nothing pending a save.
    fn default() -> (r: Self)
        ensures
            r == (FeedState { last_update: None, dirty: false }),
    {
        FeedState { last_update: None, dirty: false }
    }
}

/// Is the item new with respect to watermark `w`?  It must carry a date that
/// parses as RFC 2822, and that date must be strictly newer than `w`.
pub open spec fn item_accepted(w: Option<i64>, it: FeedItem) -> bool {
    match item_epoch(it) {
        Some(d) => !seen(w, d),
        None => false,
    }
}

/// The acceptance predicate against a fixed watermark, as a function value,
/// so that contracts and proofs agree on one filter predicate.
pub open spec fn accepts(w: Option<i64>) -> spec_fn(FeedItem) -> bool {
    |it: FeedItem| item_accepted(w, it)
}

/// The subsequence of `items`, in input order, that is new against `w`.
pub open spec fn spec_new_items(w: Option<i64>, items: Seq<FeedItem>) -> Seq<FeedItem> {
    items.filter(accepts(w))
}

/// The watermark candidate produced by scanning `items` against `w`: the
/// date of the latest accepted item, or `None` when nothing is accepted.
/// Rejected items never contribute, so a batch of stale items leaves the
/// watermark untouched.
pub open spec fn batch_candidate(w: Option<i64>, items: Seq<FeedItem>) -> Option<i64>
    decreases items.len(),
{
    if items.len() == 0 {
        None
    } else {
        let prev = batch_candidate(w, items.drop_last());
        let it = items.last();
        if item_accepted(w, it) {
            let d = item_epoch(it)->Some_0;
            match prev {
                Some(p) => if d > p {
                    Some(d)
                } else {
                    Some(p)
                },
                None => Some(d),
            }
        } else {
            prev
        }
    }
}

/// First entry of `s` whose key is `f`, if any.
pub open spec fn spec_find(s: Seq<(Feed, FeedState)>, f: Feed) -> Option<FeedState>
    decreases s.len(),
{
    if s.len() == 0 {
        None
    } else if s[0].0 == f {
        Some(s[0].1)
    } else {
        spec_find(s.drop_first(), f)
    }
}

/// The state an operation on feed `f` starts from: the stored entry, or a
/// fresh default when none exists yet.
pub open spec fn spec_found_or_default(s: Seq<(Feed, FeedState)>, f: Feed) -> FeedState {
    match spec_find(s, f) {
        Some(st) => st,
        None => FeedState { last_update: None, dirty: false },
    }
}

/// The watermark stored for `f`, `None` when absent or never set.
pub open spec fn spec_watermark(s: Seq<(Feed, FeedState)>, f: Feed) -> Option<i64> {
    spec_found_or_default(s, f).last_update
}

/// `s` with the entry for `f` set to `st`: replaced in place when present,
/// appended otherwise.
pub open spec fn spec_upsert(s: Seq<(Feed, FeedState)>, f: Feed, st: FeedState) -> Seq<
    (Feed, FeedState),
> {
    if spec_find(s, f) is Some {
        s.map(|i: int, p: (Feed, FeedState)| if p.0 == f {
            (f, st)
        } else {
            p
        })
    } else {
        s.push((f, st))
    }
}

/// The state the entry for `f` holds after filtering `items`: the watermark
/// raised to the batch candidate and marked dirty when some item was
/// accepted, otherwise the previous state (a fresh default when none
/// existed).
pub open spec fn spec_filtered_state(
    s: Seq<(Feed, FeedState)>,
    f: Feed,
    items: Seq<FeedItem>,
) -> FeedState {
    let st0 = spec_found_or_default(s, f);
    match batch_candidate(st0.last_update, items) {
        Some(c) => FeedState { last_update: Some(c), dirty: true },
        None => st0,
    }
}

/// Does any entry still await a save?
pub open spec fn spec_any_dirty(s: Seq<(Feed, FeedState)>) -> bool {
    exists|i: int| 0 <= i < s.len() && (#[trigger] s[i]).1.dirty
}

/// The entries a list of persisted pairs loads to: watermarks as stored,
/// every dirty bit clear.
pub open spec fn spec_states_of(pairs: Seq<(Feed, Option<i64>)>) -> Seq<(Feed, FeedState)> {
    pairs.map(
        |i: int, p: (Feed, Option<i64>)| (p.0, FeedState { last_update: p.1, dirty: false }),
    )
}

/// The persisted pairs of a collection: feed and watermark, the transient
/// dirty bit forgotten.
pub open spec fn spec_marks(s: Seq<(Feed, FeedState)>) -> Seq<(Feed, Option<i64>)> {
    s.map(|i: int, p: (Feed, FeedState)| (p.0, p.1.last_update))
}

/// Every entry with its dirty bit cleared.
pub open spec fn spec_clean(s: Seq<(Feed, FeedState)>) -> Seq<(Feed, FeedState)> {
    s.map(
        |i: int, p: (Feed, FeedState)|
            (p.0, FeedState { last_update: p.1.last_update, dirty: false }),
    )
}

/// `spec_find` returns the entry at `k` when nothing before `k` matches.
proof fn lemma_find_at(s: Seq<(Feed, FeedState)>, f: Feed, k: int)
    requires
        0 <= k < s.len(),
        s[k].0 == f,
        forall|i: int| 0 <= i < k ==> (#[trigger] s[i]).0 != f,
    ensures
        spec_find(s, f) == Some(s[k].1),
    decreases k,
{
    if k > 0 {
        lemma_find_at(s.drop_first(), f, k - 1);
    }
}

/// `spec_find` misses when no entry matches.
proof fn lemma_find_none(s: Seq<(Feed, FeedState)>, f: Feed)
    requires
        forall|i: int| 0 <= i < s.len() ==> (#[trigger] s[i]).0 != f,
    ensures
        spec_find(s, f) is None,
    decreases s.len(),
{
    if s.len() > 0 {
        lemma_find_none(s.drop_first(), f);
    }
}

/// Position of the first entry with key `f` (meaningful when one exists).
pub open spec fn spec_key_at(s: Seq<(Feed, FeedState)>, f: Feed) -> int
    decreases s.len(),
{
    if s.len() == 0 {
        0
    } else if s[0].0 == f {
        0
    } else {
        1 + spec_key_at(s.drop_first(), f)
    }
}

/// When `spec_find` hits, `spec_key_at` names the first matching position.
proof fn lemma_key_at(s: Seq<(Feed, FeedState)>, f: Feed)
    requires
        spec_find(s, f) is Some,
    ensures
        0 <= spec_key_at(s, f) < s.len(),
        s[spec_key_at(s, f)].0 == f,
        spec_find(s, f) == Some(s[spec_key_at(s, f)].1),
        forall|i: int| 0 <= i < spec_key_at(s, f) ==> (#[trigger] s[i]).0 != f,
    decreases s.len(),
{
    if s.len() > 0 && s[0].0 != f {
        lemma_key_at(s.drop_first(), f);
        let k = spec_key_at(s, f);
        assert forall|i: int| 0 <= i < k implies (#[trigger] s[i]).0 != f by {
            if i > 0 {
                assert(s.drop_first()[i - 1] == s[i]);
                assert(s.drop_first()[i - 1].0 != f);
            }
        }
        assert(s[k] == s.drop_first()[k - 1]);
    }
}

/// When `spec_find` misses, no entry at all has key `f`.
proof fn lemma_find_none_forall(s: Seq<(Feed, FeedState)>, f: Feed)
    requires
        spec_find(s, f) is None,
    ensures
        forall|i: int| 0 <= i < s.len() ==> (#[trigger] s[i]).0 != f,
    decreases s.len(),
{
    if s.len() > 0 {
        lemma_find_none_forall(s.drop_first(), f);
        assert forall|i: int| 0 <= i < s.len() implies (#[trigger] s[i]).0 != f by {
            if i > 0 {
                assert(s.drop_first()[i - 1] == s[i]);
                assert(s.drop_first()[i - 1].0 != f);
            }
        }
    }
}

/// An upsert is observable through `spec_find`.
proof fn lemma_find_upsert(s: Seq<(Feed, FeedState)>, f: Feed, st: FeedState)
    ensures
        spec_find(spec_upsert(s, f, st), f) == Some(st),
{
    let m = spec_upsert(s, f, st);
    if spec_find(s, f) is Some {
        lemma_key_at(s, f);
        let k = spec_key_at(s, f);
        assert(m[k] == (f, st));
        assert(forall|i: int| 0 <= i < k ==> (#[trigger] m[i]).0 != f);
        lemma_find_at(m, f, k);
    } else {
        lemma_find_none_forall(s, f);
        assert(m == s.push((f, st)));
        assert(m[s.len() as int] == (f, st));
        assert(forall|i: int| 0 <= i < s.len() ==> (#[trigger] m[i]).0 != f);
        lemma_find_at(m, f, s.len() as int);
    }
}

/// Upserting the same key twice keeps only the second value.
proof fn lemma_upsert_upsert(s: Seq<(Feed, FeedState)>, f: Feed, a: FeedState, b: FeedState)
    ensures
        spec_upsert(spec_upsert(s, f, a), f, b) =~= spec_upsert(s, f, b),
{
    let m1 = spec_upsert(s, f, a);
    lemma_find_upsert(s, f, a);
    if spec_find(s, f) is Some {
        assert(spec_upsert(m1, f, b) =~= spec_upsert(s, f, b));
    } else {
        lemma_find_none_forall(s, f);
        assert(spec_upsert(m1, f, b) =~= s.push((f, b)));
    }
}

/// Law (monotonicity): a batch candidate, when one exists, lies strictly
/// above the watermark it was scanned against, since only accepted items
/// contribute and acceptance demands a strictly newer date.  A filter call
/// therefore never lowers `last_update`, and across any sequence of calls
/// on one feed the watermark is non-decreasing.
pub proof fn lemma_candidate_exceeds(w: Option<i64>, items: Seq<FeedItem>)
    ensures
        batch_candidate(w, items) matches Some(c) ==> (w matches Some(l) ==> c > l),
    decreases items.len(),
{
    if items.len() > 0 {
        lemma_candidate_exceeds(w, items.drop_last());
    }
}

/// The collection of feed states, keyed by feed identifier, keys unique.
/// Entries appear lazily, on the first non-empty batch for a feed, and are
/// never removed.
#[derive(Debug, PartialEq)]
pub struct FeedStates {
    entries: Vec<(Feed, FeedState)>,
}

impl View for FeedStates {
    type V = Seq<(Feed, FeedState)>;

    closed spec fn view(&self) -> Seq<(Feed, FeedState)> {
        self.entries@
    }
}

impl FeedStates {
    /// Keys are unique: at most one entry per feed.
    pub open spec fn wf(&self) -> bool {
        forall|i: int, j: int|
            0 <= i < j < self@.len() ==> (#[trigger] self@[i]).0 != (#[trigger] self@[j]).0
    }

    /// An empty collection, as used on a first run with no state file.
    pub fn new() -> (r: FeedStates)
        ensures
            r@ == Seq::<(Feed, FeedState)>::empty(),
            r.wf(),
    {
        FeedStates { entries: Vec::new() }
    }

    pub fn is_empty(&self) -> (r: bool)
        ensures
            r == (self@.len() == 0),
    {
        self.entries.len() == 0
    }

    /// Index of the entry for `feed`, if one exists.
    fn find_index(&self, feed: &Feed) -> (r: Option<usize>)
        ensures
            match r {
                Some(k) => k < self@.len() && self@[k as int].0 == *feed,
                None => forall|i: int|
                    0 <= i < self@.len() ==> (#[trigger] self@[i]).0 != *feed,
            },
    {
        let n = self.entries.len();
        let mut k: usize = 0;
        while k < n
            invariant
                n == self.entries@.len(),
                k <= n,
                forall|i: int| 0 <= i < k ==> (#[trigger] self.entries@[i]).0 != *feed,
            decreases n - k,
        {
            if self.entries[k].0 == *feed {
                return Some(k);
            }
            k = k + 1;
        }
        None
    }

    /// The feed's state, inserting a fresh default entry when none exists.
    /// This is the sole path through which feed state is read or written: the
    /// filter always needs write access to record an update.
    pub fn get_feed_or_create(&mut self, feed: &Feed) -> (st: &mut FeedState)
        requires
            old(self).wf(),
        ensures
            *st == spec_found_or_default(old(self)@, *feed),
            final(self)@ == spec_upsert(old(self)@, *feed, *final(st)),
            final(self).wf(),
    {
        let idx: usize = match self.find_index(feed) {
            Some(k) => {
                proof {
                    lemma_find_at(self@, *feed, k as int);
                }
                k
            },
            None => {
                let k = self.entries.len();
                proof {
                    lemma_find_none(self@, *feed);
                }
                self.entries.push((*feed, FeedState { last_update: None, dirty: false }));
                k
            },
        };
        proof {
            let s0 = old(self)@;
            let s1 = self@;
            let f = *feed;
            assert forall|x: FeedState| #[trigger] spec_upsert(s0, f, x) =~= s1.update(
                idx as int,
                (s1[idx as int].0, x),
            ) by {
                if spec_find(s0, f) is Some {
                    assert(forall|j: int|
                        0 <= j < s0.len() && j != idx ==> (#[trigger] s0[j]).0 != f);
                } else {
                }
            }
        }
        entry_state_mut(&mut self.entries, idx)
    }

    /// Filter one fetched batch for `feed` against the stored watermark.
    ///
    /// Items without a date or whose date is not valid RFC 2822 are dropped;
    /// items dated at or before the watermark are dropped as already seen
    /// (a tie counts as seen); the rest are returned in input order.  When at
    /// least one item is accepted, the feed's watermark is raised to the
    /// latest accepted date and the entry marked dirty; otherwise the entry
    /// is left untouched.  An empty batch creates no entry at all.
    pub fn get_new_feed(&mut self, feed: &Feed, items: Vec<FeedItem>) -> (sorted: Vec<FeedItem>)
        requires
            old(self).wf(),
        ensures
            final(self).wf(),
            sorted@ == spec_new_items(spec_watermark(old(self)@, *feed), items@),
            items@.len() == 0 ==> final(self)@ == old(self)@,
            items@.len() > 0 ==> final(self)@ == spec_upsert(
                old(self)@,
                *feed,
                spec_filtered_state(old(self)@, *feed, items@),
            ),
            spec_watermark(old(self)@, *feed) matches Some(l) ==> spec_watermark(
                final(self)@,
                *feed,
            ) matches Some(l2) && l2 >= l,
    {
        if items.len() == 0 {
            return items;
        }
        let ghost s0 = self@;
        let st = self.get_feed_or_create(feed);
        let w: Option<i64> = st.last_update;
        let ghost st0 = spec_found_or_default(s0, *feed);
        let ghost orig = items@;

        let mut rest = items;
        let mut sorted: Vec<FeedItem> = Vec::new();
        let mut last_date: Option<i64> = None;
        let ghost mut k: int = 0;
        while rest.len() > 0
            invariant
                0 <= k <= orig.len(),
                rest@ == orig.subrange(k, orig.len() as int),
                sorted@ == spec_new_items(w, orig.take(k)),
                last_date == batch_candidate(w, orig.take(k)),
            decreases orig.len() - k,
        {
            let it = rest.remove(0);
            proof {
                assert(it == orig[k]);
                assert(rest@ =~= orig.subrange(k + 1, orig.len() as int));
            }
            let d_opt: Option<i64> = match &it.pub_date {
                Some(date) => crate::dates::parse_rfc2822_epoch(date.as_str()),
                None => None,
            };
            proof {
                assert(d_opt == item_epoch(it));
                assert(orig.take(k + 1) =~= orig.take(k).push(orig[k]));
                orig.take(k).lemma_filter_push(orig[k], accepts(w));
                assert(orig.take(k + 1).drop_last() =~= orig.take(k));
            }
            match d_opt {
                Some(d) => {
                    let already = match w {
                        Some(l) => d <= l,
                        None => false,
                    };
                    if !already {
                        let replace = match last_date {
                            Some(p) => d > p,
                            None => true,
                        };
                        if replace {
                            last_date = Some(d);
                        }
                        sorted.push(it);
                    }
                },
                None => {},
            }
            proof {
                k = k + 1;
            }
        }
        proof {
            assert(orig.take(orig.len() as int) =~= orig);
        }

        if let Some(c) = last_date {
            let st2 = self.get_feed_or_create(feed);
            st2.set_last_update(c);
            proof {
                let newst = FeedState { last_update: Some(c), dirty: true };
                lemma_upsert_upsert(s0, *feed, st0, newst);
                lemma_find_upsert(s0, *feed, newst);
                lemma_candidate_exceeds(w, orig);
            }
        } else {
            proof {
                lemma_find_upsert(s0, *feed, st0);
            }
        }
        sorted
    }

    /// Is any feed's state dirty, i.e. changed since the last save?
    pub fn is_dirty(&self) -> (r: bool)
        ensures
            r == spec_any_dirty(self@),
    {
        let n = self.entries.len();
        let mut k: usize = 0;
        while k < n
            invariant
                n == self.entries@.len(),
                k <= n,
                forall|i: int| 0 <= i < k ==> !(#[trigger] self.entries@[i]).1.dirty,
            decreases n - k,
        {
            if self.entries[k].1.dirty {
                return true;
            }
            k = k + 1;
        }
        false
    }

    /// Clear every entry's dirty bit, after the whole map was written out.
    pub fn un_dirty(&mut self)
        ensures
            final(self)@ == spec_clean(old(self)@),
            old(self).wf() ==> final(self).wf(),
    {
        let n = self.entries.len();
        let mut k: usize = 0;
        while k < n
            invariant
                n == self.entries@.len(),
                k <= n,
                self.entries@ =~= old(self)@.map(
                    |i: int, p: (Feed, FeedState)|
                        if i < k {
                            (p.0, FeedState { last_update: p.1.last_update, dirty: false })
                        } else {
                            p
                        },
                ),
            decreases n - k,
        {
            let p = self.entries[k];
            self.entries[k] = (p.0, FeedState { last_update: p.1.last_update, dirty: false });
            k = k + 1;
        }
        proof {
            assert(final(self)@ =~= spec_clean(old(self)@));
        }
    }

    /// Build the collection from the state file's content, `None` standing
    /// for a missing file (a fresh start).  A file that does not parse is a
    /// fatal load error: it must not be mistaken for an empty state, which
    /// would re-notify every old item.  Whatever loads is entirely clean.
    pub fn load(content: Option<&Vec<u8>>) -> (r: Result<FeedStates, LoadError>)
        ensures
            match content {
                None => r matches Ok(s) && s@ == Seq::<(Feed, FeedState)>::empty() && s.wf(),
                Some(bytes) => match spec_parse_states(bytes@) {
                    Some(pairs) => r matches Ok(s) && s@ == spec_states_of(pairs) && s.wf(),
                    None => r matches Err(e) && e == LoadError::Malformed,
                },
            },
            r matches Ok(s) ==> !spec_any_dirty(s@),
    {
        match content {
            None => Ok(FeedStates::new()),
            Some(bytes) => match crate::codec::parse_states(bytes.as_slice()) {
                Some(pairs) => {
                    let n = pairs.len();
                    let mut entries: Vec<(Feed, FeedState)> = Vec::new();
                    let mut k: usize = 0;
                    while k < n
                        invariant
                            n == pairs@.len(),
                            k <= n,
                            entries@ == spec_states_of(pairs@.take(k as int)),
                        decreases n - k,
                    {
                        let p = pairs[k];
                        entries.push((p.0, FeedState { last_update: p.1, dirty: false }));
                        proof {
                            assert(pairs@.take(k + 1).drop_last() =~= pairs@.take(k as int));
                            assert(entries@ =~= spec_states_of(pairs@.take(k + 1)));
                        }
                        k = k + 1;
                    }
                    let s = FeedStates { entries };
                    proof {
                        assert(pairs@.take(n as int) =~= pairs@);
                        assert forall|i: int, j: int| 0 <= i < j < s@.len() implies (
                        #[trigger] s@[i]).0 != (#[trigger] s@[j]).0 by {
                            assert(s@[i].0 == pairs@[i].0);
                            assert(s@[j].0 == pairs@[j].0);
                        }
                        assert forall|i: int| 0 <= i < s@.len() implies !(#[trigger] s@[i]).1.dirty
                            by {}
                    }
                    Ok(s)
                },
                None => Err(LoadError::Malformed),
            },
        }
    }

    /// The serialized state file when anything is dirty; `None` when the
    /// whole save may be skipped, the single most important cost control on
    /// quiet polls.  The bytes parse back to exactly this collection's
    /// feeds and watermarks, so a later load sees what was saved.
    pub fn save(&self) -> (r: Option<Vec<u8>>)
        requires
            self.wf(),
        ensures
            r is None <==> !spec_any_dirty(self@),
            r matches Some(bytes) ==> spec_parse_states(bytes@) == Some(spec_marks(self@)),
    {
        if !self.is_dirty() {
            return None;
        }
        let n = self.entries.len();
        let mut pairs: Vec<(Feed, Option<i64>)> = Vec::new();
        let mut k: usize = 0;
        while k < n
            invariant
                n == self.entries@.len(),
                k <= n,
                pairs@ == spec_marks(self.entries@.take(k as int)),
            decreases n - k,
        {
            let p = self.entries[k];
            pairs.push((p.0, p.1.last_update));
            proof {
                assert(self.entries@.take(k + 1).drop_last() =~= self.entries@.take(k as int));
                assert(pairs@ =~= spec_marks(self.entries@.take(k + 1)));
            }
            k = k + 1;
        }
        proof {
            assert(self.entries@.take(n as int) =~= self.entries@);
            assert forall|i: int, j: int| 0 <= i < j < pairs@.len() implies (
            #[trigger] pairs@[i]).0 != (#[trigger] pairs@[j]).0 by {
                assert(pairs@[i].0 == self@[i].0);
                assert(pairs@[j].0 == self@[j].0);
            }
            crate::codec::lemma_render_parse_round_trip(pairs@);
        }
        Some(crate::codec::render_states(&pairs))
    }
}

/// The watermark in force after filtering `items` against `w`.
pub open spec fn next_watermark(w: Option<i64>, items: Seq<FeedItem>) -> Option<i64> {
    match batch_candidate(w, items) {
        Some(c) => Some(c),
        None => w,
    }
}

/// The candidate covers every accepted item, and exists as soon as one
/// item is accepted.
proof fn lemma_candidate_covers(w: Option<i64>, items: Seq<FeedItem>)
    ensures
        forall|i: int|
            0 <= i < items.len() && item_accepted(w, #[trigger] items[i]) ==> batch_candidate(
                w,
                items,
            ) is Some && item_epoch(items[i])->Some_0 <= batch_candidate(w, items)->Some_0,
    decreases items.len(),
{
    if items.len() > 0 {
        lemma_candidate_covers(w, items.drop_last());
        assert forall|i: int|
            0 <= i < items.len() && item_accepted(w, #[trigger] items[i]) implies batch_candidate(
            w,
            items,
        ) is Some && item_epoch(items[i])->Some_0 <= batch_candidate(w, items)->Some_0 by {
            if i < items.len() - 1 {
                assert(items.drop_last()[i] == items[i]);
            } else {
                assert(items.last() == items[i]);
            }
        }
    }
}

/// Filtering with a predicate nothing satisfies yields nothing.
proof fn lemma_filter_none(items: Seq<FeedItem>, pred: spec_fn(FeedItem) -> bool)
    requires
        forall|i: int| 0 <= i < items.len() ==> !pred(#[trigger] items[i]),
    ensures
        items.filter(pred).len() == 0,
    decreases items.len(),
{
    if items.len() > 0 {
        assert(forall|i: int|
            0 <= i < items.drop_last().len() ==> items.drop_last()[i] == items[i]);
        lemma_filter_none(items.drop_last(), pred);
        items.drop_last().lemma_filter_push(items.last(), pred);
        assert(items.drop_last().push(items.last()) =~= items);
    }
}

/// Law (idempotence): one batch, filtered twice against one feed.  The
/// second pass accepts nothing, and the first pass accepts something
/// exactly when some item lies strictly beyond the watermark.
pub proof fn lemma_filter_idempotent(w: Option<i64>, items: Seq<FeedItem>)
    ensures
        spec_new_items(next_watermark(w, items), items).len() == 0,
        (exists|i: int| 0 <= i < items.len() && item_accepted(w, #[trigger] items[i]))
            ==> spec_new_items(w, items).len() > 0,
{
    lemma_candidate_covers(w, items);
    lemma_candidate_exceeds(w, items);
    let w2 = next_watermark(w, items);
    assert forall|i: int| 0 <= i < items.len() implies !(accepts(w2)(#[trigger] items[i])) by {
        if item_accepted(w, items[i]) {
            assert(batch_candidate(w, items) is Some);
            assert(item_epoch(items[i])->Some_0 <= batch_candidate(w, items)->Some_0);
        }
    }
    lemma_filter_none(items, accepts(w2));
    if exists|i: int| 0 <= i < items.len() && item_accepted(w, #[trigger] items[i]) {
        let i0 = choose|i: int| 0 <= i < items.len() && item_accepted(w, #[trigger] items[i]);
        assert(accepts(w)(items[i0]));
        items.lemma_filter_contains(accepts(w), i0);
    }
}

/// After a non-empty filter call the stored watermark is exactly the
/// batch's next watermark: re-filtering the same batch then finds nothing,
/// and the watermark never moved down.
pub proof fn lemma_watermark_after_filter(
    s: Seq<(Feed, FeedState)>,
    f: Feed,
    items: Seq<FeedItem>,
)
    ensures
        spec_watermark(spec_upsert(s, f, spec_filtered_state(s, f, items)), f) == next_watermark(
            spec_watermark(s, f),
            items,
        ),
{
    lemma_find_upsert(s, f, spec_filtered_state(s, f, items));
}

/// Law (order preservation): the accepted subsequence respects input order;
/// filtering a batch is filtering its parts, in place and unsorted.
pub proof fn lemma_order_preserved(w: Option<i64>, a: Seq<FeedItem>, b: Seq<FeedItem>)
    ensures
        spec_new_items(w, a + b) == spec_new_items(w, a) + spec_new_items(w, b),
{
    Seq::<FeedItem>::filter_distributes_over_add(a, b, accepts(w));
}

/// Law (tie boundary): an item dated exactly at the watermark is excluded
/// as already seen; an item dated one second later is included.
pub proof fn lemma_tie_boundary(l: i64, at: FeedItem, after: FeedItem)
    requires
        item_epoch(at) == Some(l),
        l < i64::MAX,
        item_epoch(after) matches Some(d) && d == l + 1,
    ensures
        !item_accepted(Some(l), at),
        item_accepted(Some(l), after),
{
}

/// Law (save suppression): whatever a load built is entirely clean, so a
/// save performed right after a load writes nothing.
pub proof fn lemma_loaded_state_is_clean(pairs: Seq<(Feed, Option<i64>)>)
    ensures
        !spec_any_dirty(spec_states_of(pairs)),
{
    assert forall|i: int|
        0 <= i < spec_states_of(pairs).len() implies !(#[trigger] spec_states_of(
        pairs,
    )[i]).1.dirty by {}
}

/// Law (round trip): saving a collection and loading the bytes back yields
/// the same collection, up to the transient dirty bit.
pub proof fn lemma_save_load_round_trip(s: FeedStates)
    requires
        s.wf(),
    ensures
        spec_parse_states(spec_render_states(spec_marks(s@))) == Some(spec_marks(s@)),
        spec_states_of(spec_marks(s@)) == spec_clean(s@),
{
    assert forall|i: int, j: int|
        0 <= i < j < spec_marks(s@).len() implies (#[trigger] spec_marks(s@)[i]).0 != (
    #[trigger] spec_marks(s@)[j]).0 by {
        assert(spec_marks(s@)[i].0 == s@[i].0);
        assert(spec_marks(s@)[j].0 == s@[j].0);
    }
    crate::codec::lemma_render_parse_round_trip(spec_marks(s@));
    assert(spec_states_of(spec_marks(s@)) =~= spec_clean(s@));
}

/// A mutable borrow of the state half of entry `i`.
fn entry_state_mut(v: &mut Vec<(Feed, FeedState)>, i: usize) -> (st: &mut FeedState)
    requires
        i < old(v).len(),
    ensures
        *st == old(v)@[i as int].1,
        final(v)@ == old(v)@.update(i as int, (old(v)@[i as int].0, *final(st))),
{
    &mut v[i].1
}

} // verus!
