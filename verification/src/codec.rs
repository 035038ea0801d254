use vstd::prelude::*;

use crate::dec::{dec_digits, digits_value, is_digit, pow10};
use crate::feed::Feed;

verus! {

// --------------------------------------------------------------------------
// Lexical layer: blank space, digit runs, quoted keys.
// --------------------------------------------------------------------------

/// Blank space between tokens of the state document.
pub open spec fn is_ws(b: u8) -> bool {
    b == 32 || b == 9 || b == 10 || b == 13
}

/// First position at or after `i` that holds no blank space.
pub open spec fn skip_ws(t: Seq<u8>, i: int) -> int
    decreases t.len() - i,
{
    if 0 <= i < t.len() && is_ws(t[i]) {
        skip_ws(t, i + 1)
    } else {
        i
    }
}

/// First position at or after `i` past the run of decimal digits there.
pub open spec fn digit_run_end(t: Seq<u8>, i: int) -> int
    decreases t.len() - i,
{
    if 0 <= i < t.len() && is_digit(t[i]) {
        digit_run_end(t, i + 1)
    } else {
        i
    }
}

/// First position at or after `i` that ends quoted-key content: a quote, a
/// backslash (escapes are not part of the format), or the end of input.
pub open spec fn plain_end(t: Seq<u8>, i: int) -> int
    decreases t.len() - i,
{
    if 0 <= i < t.len() && t[i] != 34 && t[i] != 92 {
        plain_end(t, i + 1)
    } else {
        i
    }
}

pub proof fn lemma_skip_ws_bounds(t: Seq<u8>, i: int)
    requires
        0 <= i <= t.len(),
    ensures
        i <= skip_ws(t, i) <= t.len(),
    decreases t.len() - i,
{
    if i < t.len() && is_ws(t[i]) {
        lemma_skip_ws_bounds(t, i + 1);
    }
}

pub proof fn lemma_digit_run_bounds(t: Seq<u8>, i: int)
    requires
        0 <= i <= t.len(),
    ensures
        i <= digit_run_end(t, i) <= t.len(),
    decreases t.len() - i,
{
    if i < t.len() && is_digit(t[i]) {
        lemma_digit_run_bounds(t, i + 1);
    }
}

pub proof fn lemma_plain_end_bounds(t: Seq<u8>, i: int)
    requires
        0 <= i <= t.len(),
    ensures
        i <= plain_end(t, i) <= t.len(),
    decreases t.len() - i,
{
    if i < t.len() && t[i] != 34 && t[i] != 92 {
        lemma_plain_end_bounds(t, i + 1);
    }
}

/// `skip_ws` lands exactly past a known run of blank space.
pub proof fn lemma_skip_ws_run(t: Seq<u8>, i: int, j: int)
    requires
        0 <= i <= j <= t.len(),
        forall|k: int| i <= k < j ==> is_ws(#[trigger] t[k]),
        j == t.len() || !is_ws(t[j]),
    ensures
        skip_ws(t, i) == j,
    decreases j - i,
{
    if i < j {
        lemma_skip_ws_run(t, i + 1, j);
    }
}

/// `digit_run_end` lands exactly past a known run of digits.
pub proof fn lemma_digit_run_run(t: Seq<u8>, i: int, j: int)
    requires
        0 <= i <= j <= t.len(),
        forall|k: int| i <= k < j ==> is_digit(#[trigger] t[k]),
        j == t.len() || !is_digit(t[j]),
    ensures
        digit_run_end(t, i) == j,
    decreases j - i,
{
    if i < j {
        lemma_digit_run_run(t, i + 1, j);
    }
}

/// `plain_end` lands exactly on the known closing quote.
pub proof fn lemma_plain_end_run(t: Seq<u8>, i: int, j: int)
    requires
        0 <= i <= j <= t.len(),
        forall|k: int| i <= k < j ==> (#[trigger] t[k]) != 34 && t[k] != 92,
        j == t.len() || t[j] == 34 || t[j] == 92,
    ensures
        plain_end(t, i) == j,
    decreases j - i,
{
    if i < j {
        lemma_plain_end_run(t, i + 1, j);
    }
}

// --------------------------------------------------------------------------
// Names.
// --------------------------------------------------------------------------

/// The bytes of a feed's persisted key: its stable variant name.
pub open spec fn spec_name_bytes(f: Feed) -> Seq<u8> {
    match f {
        Feed::Netcup => seq![78u8, 101u8, 116u8, 99u8, 117u8, 112u8],
    }
}

/// The feed a persisted key denotes, if any.  An unknown key merely orphans
/// its entry (a renamed feed starts fresh); it does not fail the load.
pub open spec fn spec_feed_of_name(s: Seq<u8>) -> Option<Feed> {
    if s == spec_name_bytes(Feed::Netcup) {
        Some(Feed::Netcup)
    } else {
        None
    }
}

/// The bytes of the one field name of a state object, `last_update`.
pub open spec fn last_update_key() -> Seq<u8> {
    seq![108u8, 97u8, 115u8, 116u8, 95u8, 117u8, 112u8, 100u8, 97u8, 116u8, 101u8]
}

// --------------------------------------------------------------------------
// The grammar.  Each parser yields a value and the position after it.
// --------------------------------------------------------------------------

/// An optionally signed decimal integer at `i`, in JSON shape: at least one
/// digit, no leading zero, value within `i64`.
pub open spec fn spec_parse_int(t: Seq<u8>, i: int) -> Option<(i64, int)> {
    let neg = 0 <= i < t.len() && t[i] == 45;
    let j = if neg {
        i + 1
    } else {
        i
    };
    let e = digit_run_end(t, j);
    if e == j {
        None
    } else if t[j] == 48 && e > j + 1 {
        None
    } else {
        let v: int = digits_value(t.subrange(j, e)) as int;
        let sv: int = if neg {
            -v
        } else {
            v
        };
        if i64::MIN <= sv <= i64::MAX {
            Some((sv as i64, e))
        } else {
            None
        }
    }
}

/// A quoted key at `i`.  The format needs no escapes, so a backslash or an
/// unterminated quote is a parse error.
pub open spec fn spec_parse_string(t: Seq<u8>, i: int) -> Option<(Seq<u8>, int)> {
    if 0 <= i < t.len() && t[i] == 34 {
        let e = plain_end(t, i + 1);
        if e < t.len() && t[e] == 34 {
            Some((t.subrange(i + 1, e), e + 1))
        } else {
            None
        }
    } else {
        None
    }
}

/// One per-feed state object at `i`: `{}` for a feed with no accepted item,
/// or an object with the single `last_update` field.
pub open spec fn spec_parse_obj(t: Seq<u8>, i: int) -> Option<(Option<i64>, int)> {
    if 0 <= i < t.len() && t[i] == 123 {
        let j = skip_ws(t, i + 1);
        if j < t.len() && t[j] == 125 {
            Some((None, j + 1))
        } else {
            match spec_parse_string(t, j) {
                Some((key, j2)) => if key == last_update_key() {
                    let j3 = skip_ws(t, j2);
                    if j3 < t.len() && t[j3] == 58 {
                        match spec_parse_int(t, skip_ws(t, j3 + 1)) {
                            Some((v, j4)) => {
                                let j5 = skip_ws(t, j4);
                                if j5 < t.len() && t[j5] == 125 {
                                    Some((Some(v), j5 + 1))
                                } else {
                                    None
                                }
                            },
                            None => None,
                        }
                    } else {
                        None
                    }
                } else {
                    None
                },
                None => None,
            }
        }
    } else {
        None
    }
}

/// One `"Name": { ... }` pair, `i` at the opening quote.  An unknown name
/// yields no entry; its object is still consumed.
pub open spec fn spec_parse_entry(t: Seq<u8>, i: int) -> Option<
    (Option<(Feed, Option<i64>)>, int),
> {
    match spec_parse_string(t, i) {
        Some((name, j)) => {
            let k = skip_ws(t, j);
            if k < t.len() && t[k] == 58 {
                match spec_parse_obj(t, skip_ws(t, k + 1)) {
                    Some((w, e)) => Some(
                        (
                            match spec_feed_of_name(name) {
                                Some(f) => Some((f, w)),
                                None => None,
                            },
                            e,
                        ),
                    ),
                    None => None,
                }
            } else {
                None
            }
        },
        None => None,
    }
}

pub open spec fn pairs_has(s: Seq<(Feed, Option<i64>)>, f: Feed) -> bool {
    exists|i: int| 0 <= i < s.len() && (#[trigger] s[i]).0 == f
}

/// A later occurrence of a key replaces an earlier one, at the earlier
/// position, as a JSON object reader would take it.
pub open spec fn pairs_upsert(s: Seq<(Feed, Option<i64>)>, f: Feed, w: Option<i64>) -> Seq<
    (Feed, Option<i64>),
> {
    if pairs_has(s, f) {
        s.map(|i: int, p: (Feed, Option<i64>)| if p.0 == f {
            (f, w)
        } else {
            p
        })
    } else {
        s.push((f, w))
    }
}

pub proof fn lemma_parse_string_bounds(t: Seq<u8>, i: int)
    ensures
        spec_parse_string(t, i) matches Some((s, j)) ==> 0 <= i && i + 2 <= j <= t.len(),
{
    if spec_parse_string(t, i) is Some {
        lemma_plain_end_bounds(t, i + 1);
    }
}

pub proof fn lemma_parse_int_bounds(t: Seq<u8>, i: int)
    ensures
        spec_parse_int(t, i) matches Some((v, e)) ==> i < e <= t.len(),
{
    if spec_parse_int(t, i) is Some {
        let neg = 0 <= i < t.len() && t[i] == 45;
        let j = if neg {
            i + 1
        } else {
            i
        };
        if !(0 <= j <= t.len()) {
            assert(digit_run_end(t, j) == j);
        } else {
            lemma_digit_run_bounds(t, j);
        }
    }
}

pub proof fn lemma_parse_obj_bounds(t: Seq<u8>, i: int)
    ensures
        spec_parse_obj(t, i) matches Some((w, e)) ==> 0 <= i < e <= t.len(),
{
    if spec_parse_obj(t, i) is Some {
        lemma_skip_ws_bounds(t, i + 1);
        let j = skip_ws(t, i + 1);
        if j < t.len() && t[j] == 125 {
        } else {
            lemma_parse_string_bounds(t, j);
            match spec_parse_string(t, j) {
                Some((key, j2)) => {
                    lemma_skip_ws_bounds(t, j2);
                    let j3 = skip_ws(t, j2);
                    if j3 < t.len() && t[j3] == 58 {
                        lemma_skip_ws_bounds(t, j3 + 1);
                        lemma_parse_int_bounds(t, skip_ws(t, j3 + 1));
                        match spec_parse_int(t, skip_ws(t, j3 + 1)) {
                            Some((v, j4)) => {
                                lemma_skip_ws_bounds(t, j4);
                            },
                            None => {},
                        }
                    }
                },
                None => {},
            }
        }
    }
}

pub proof fn lemma_parse_entry_bounds(t: Seq<u8>, i: int)
    ensures
        spec_parse_entry(t, i) matches Some((ent, e)) ==> 0 <= i < e <= t.len(),
{
    if spec_parse_entry(t, i) is Some {
        lemma_parse_string_bounds(t, i);
        match spec_parse_string(t, i) {
            Some((name, j)) => {
                lemma_skip_ws_bounds(t, j);
                let k = skip_ws(t, j);
                if k < t.len() && t[k] == 58 {
                    lemma_skip_ws_bounds(t, k + 1);
                    lemma_parse_obj_bounds(t, skip_ws(t, k + 1));
                }
            },
            None => {},
        }
    }
}

/// The entry list from `i` (at the first entry's opening quote) through the
/// document's closing brace, accumulated onto `acc`.
pub open spec fn spec_parse_entries(
    t: Seq<u8>,
    i: int,
    acc: Seq<(Feed, Option<i64>)>,
) -> Option<(Seq<(Feed, Option<i64>)>, int)>
    decreases t.len() - i
        via spec_parse_entries_decreases
{
    match spec_parse_entry(t, i) {
        Some((ent, j)) => {
            let acc2 = match ent {
                Some(p) => pairs_upsert(acc, p.0, p.1),
                None => acc,
            };
            let k = skip_ws(t, j);
            if k < t.len() && t[k] == 44 {
                spec_parse_entries(t, skip_ws(t, k + 1), acc2)
            } else if k < t.len() && t[k] == 125 {
                Some((acc2, k + 1))
            } else {
                None
            }
        },
        None => None,
    }
}

#[via_fn]
proof fn spec_parse_entries_decreases(t: Seq<u8>, i: int, acc: Seq<(Feed, Option<i64>)>) {
    match spec_parse_entry(t, i) {
        Some((ent, j)) => {
            lemma_parse_entry_bounds(t, i);
            lemma_skip_ws_bounds(t, j);
            let k = skip_ws(t, j);
            if k < t.len() && t[k] == 44 {
                lemma_skip_ws_bounds(t, k + 1);
            }
        },
        None => {},
    }
}

/// A persisted state document: one JSON object from feed name to state
/// object, with arbitrary blank space between tokens and nothing but blank
/// space after it.  Yields the entries in file order.
pub open spec fn spec_parse_states(t: Seq<u8>) -> Option<Seq<(Feed, Option<i64>)>> {
    let i = skip_ws(t, 0);
    if i < t.len() && t[i] == 123 {
        let j = skip_ws(t, i + 1);
        if j < t.len() && t[j] == 125 {
            if skip_ws(t, j + 1) == t.len() {
                Some(Seq::empty())
            } else {
                None
            }
        } else {
            match spec_parse_entries(t, j, Seq::empty()) {
                Some((es, e)) => if skip_ws(t, e) == t.len() {
                    Some(es)
                } else {
                    None
                },
                None => None,
            }
        }
    } else {
        None
    }
}

// --------------------------------------------------------------------------
// The canonical rendering.
// --------------------------------------------------------------------------

/// Rendered watermark number.
pub open spec fn spec_render_int(v: i64) -> Seq<u8> {
    if v < 0 {
        seq![45u8] + dec_digits((-(v as int)) as nat)
    } else {
        dec_digits(v as nat)
    }
}

/// Rendered state object.
pub open spec fn spec_render_obj(w: Option<i64>) -> Seq<u8> {
    match w {
        None => seq![123u8, 125u8],
        Some(v) => seq![123u8, 10u8, 32u8, 32u8, 32u8, 32u8, 34u8] + last_update_key() + seq![
            34u8,
            58u8,
            32u8,
        ] + spec_render_int(v) + seq![10u8, 32u8, 32u8, 125u8],
    }
}

/// Rendered entry: two spaces of indent, the quoted name, and the object.
pub open spec fn spec_render_entry(f: Feed, w: Option<i64>) -> Seq<u8> {
    seq![32u8, 32u8, 34u8] + spec_name_bytes(f) + seq![34u8, 58u8, 32u8] + spec_render_obj(w)
}

/// Rendered entry list, comma-and-newline separated.
pub open spec fn spec_render_entries(es: Seq<(Feed, Option<i64>)>) -> Seq<u8>
    decreases es.len(),
{
    if es.len() == 0 {
        Seq::empty()
    } else if es.len() == 1 {
        spec_render_entry(es[0].0, es[0].1)
    } else {
        spec_render_entries(es.drop_last()) + seq![44u8, 10u8] + spec_render_entry(
            es.last().0,
            es.last().1,
        )
    }
}

/// The canonical, pretty-printed rendering of a state collection.
pub open spec fn spec_render_states(es: Seq<(Feed, Option<i64>)>) -> Seq<u8> {
    if es.len() == 0 {
        seq![123u8, 125u8]
    } else {
        seq![123u8, 10u8] + spec_render_entries(es) + seq![10u8, 125u8]
    }
}

// --------------------------------------------------------------------------
// Executable scanners, each the image of its specification.
// --------------------------------------------------------------------------

/// The bytes of a digit run are digits.
pub proof fn lemma_digit_run_digits(t: Seq<u8>, i: int)
    requires
        0 <= i <= t.len(),
    ensures
        forall|m: int| i <= m < digit_run_end(t, i) ==> is_digit(#[trigger] t[m]),
    decreases t.len() - i,
{
    if i < t.len() && is_digit(t[i]) {
        lemma_digit_run_digits(t, i + 1);
        lemma_digit_run_bounds(t, i + 1);
    }
}

fn skip_ws_at(t: &[u8], i: usize) -> (r: usize)
    requires
        i <= t@.len(),
    ensures
        r as int == skip_ws(t@, i as int),
        i <= r <= t@.len(),
    decreases t@.len() - i,
{
    if i < t.len() {
        let b = t[i];
        if b == 32 || b == 9 || b == 10 || b == 13 {
            return skip_ws_at(t, i + 1);
        }
    }
    i
}

fn digit_run_at(t: &[u8], i: usize) -> (r: usize)
    requires
        i <= t@.len(),
    ensures
        r as int == digit_run_end(t@, i as int),
        i <= r <= t@.len(),
    decreases t@.len() - i,
{
    if i < t.len() {
        let b = t[i];
        if 48 <= b && b <= 57 {
            return digit_run_at(t, i + 1);
        }
    }
    i
}

fn plain_end_at(t: &[u8], i: usize) -> (r: usize)
    requires
        i <= t@.len(),
    ensures
        r as int == plain_end(t@, i as int),
        i <= r <= t@.len(),
    decreases t@.len() - i,
{
    if i < t.len() {
        let b = t[i];
        if b != 34 && b != 92 {
            return plain_end_at(t, i + 1);
        }
    }
    i
}

fn parse_int_at(t: &[u8], i: usize) -> (r: Option<(i64, usize)>)
    requires
        i <= t@.len(),
    ensures
        match r {
            Some((v, e)) => spec_parse_int(t@, i as int) == Some((v, e as int)),
            None => spec_parse_int(t@, i as int) is None,
        },
{
    let neg = i < t.len() && t[i] == 45;
    let j = if neg {
        i + 1
    } else {
        i
    };
    let e = digit_run_at(t, j);
    if e == j {
        return None;
    }
    if t[j] == 48 && e > j + 1 {
        return None;
    }
    let ghost run = t@.subrange(j as int, e as int);
    proof {
        lemma_digit_run_digits(t@, j as int);
        assert(forall|m: int| 0 <= m < run.len() ==> is_digit(#[trigger] run[m]));
    }
    if e - j > 19 {
        proof {
            crate::dec::lemma_digits_value_lower(run);
            crate::dec::lemma_pow10_mono(19, (run.len() - 1) as nat);
            assert(pow10(19) == 10000000000000000000) by {
                reveal_with_fuel(pow10, 20);
            }
        }
        return None;
    }
    let mut acc: u64 = 0;
    let mut k = j;
    proof {
        assert(t@.subrange(j as int, j as int) =~= Seq::<u8>::empty());
        assert(digits_value(Seq::<u8>::empty()) == 0);
    }
    while k < e
        invariant
            j <= k <= e <= t@.len(),
            e - j <= 19,
            e as int == digit_run_end(t@, j as int),
            acc as nat == digits_value(t@.subrange(j as int, k as int)),
            acc < pow10((k - j) as nat),
        decreases e - k,
    {
        proof {
            lemma_digit_run_digits(t@, j as int);
            assert(is_digit(t@[k as int]));
            crate::dec::lemma_pow10_mono((k - j) as nat, 18);
            assert(pow10(18) == 1000000000000000000) by {
                reveal_with_fuel(pow10, 19);
            }
            assert(t@.subrange(j as int, k + 1).drop_last() =~= t@.subrange(j as int, k as int));
        }
        let d = t[k] - 48;
        acc = acc * 10 + (d as u64);
        k = k + 1;
    }
    proof {
        assert(pow10(19) == 10000000000000000000) by {
            reveal_with_fuel(pow10, 20);
        }
        crate::dec::lemma_pow10_mono((e - j) as nat, 19);
    }
    if neg {
        if acc > 9223372036854775808u64 {
            return None;
        }
        let v: i64 = if acc == 9223372036854775808u64 {
            i64::MIN
        } else {
            -(acc as i64)
        };
        Some((v, e))
    } else {
        if acc > 9223372036854775807u64 {
            return None;
        }
        Some((acc as i64, e))
    }
}

/// A quoted key at `i`, by position: yields the content's byte range, the
/// position after the closing quote being one past the range's end.
fn parse_string_at(t: &[u8], i: usize) -> (r: Option<(usize, usize)>)
    requires
        i <= t@.len(),
    ensures
        match r {
            Some((s, e)) => i as int + 1 == s as int && s <= e < t@.len() && spec_parse_string(
                t@,
                i as int,
            ) == Some((t@.subrange(s as int, e as int), e as int + 1)),
            None => spec_parse_string(t@, i as int) is None,
        },
{
    if i < t.len() && t[i] == 34 {
        let e = plain_end_at(t, i + 1);
        if e < t.len() && t[e] == 34 {
            Some((i + 1, e))
        } else {
            None
        }
    } else {
        None
    }
}

/// Does the byte range name a known feed?
fn feed_of_range(t: &[u8], s: usize, e: usize) -> (r: Option<Feed>)
    requires
        s <= e <= t@.len(),
    ensures
        r == spec_feed_of_name(t@.subrange(s as int, e as int)),
{
    let ghost sub = t@.subrange(s as int, e as int);
    if e - s == 6 && t[s] == 78 && t[s + 1] == 101 && t[s + 2] == 116 && t[s + 3] == 99 && t[s + 4]
        == 117 && t[s + 5] == 112 {
        proof {
            assert(sub =~= spec_name_bytes(Feed::Netcup));
        }
        Some(Feed::Netcup)
    } else {
        proof {
            if sub == spec_name_bytes(Feed::Netcup) {
                assert(sub.len() == 6);
                assert(sub[0] == 78 && sub[1] == 101 && sub[2] == 116 && sub[3] == 99 && sub[4]
                    == 117 && sub[5] == 112);
                assert(t@[s as int] == sub[0] && t@[s + 1] == sub[1] && t@[s + 2] == sub[2] && t@[s
                    + 3] == sub[3] && t@[s + 4] == sub[4] && t@[s + 5] == sub[5]);
            }
        }
        None
    }
}

/// Is the byte range the `last_update` field name?
fn key_is_last_update(t: &[u8], s: usize, e: usize) -> (r: bool)
    requires
        s <= e <= t@.len(),
    ensures
        r == (t@.subrange(s as int, e as int) == last_update_key()),
{
    let ghost sub = t@.subrange(s as int, e as int);
    if e - s == 11 && t[s] == 108 && t[s + 1] == 97 && t[s + 2] == 115 && t[s + 3] == 116 && t[s
        + 4] == 95 && t[s + 5] == 117 && t[s + 6] == 112 && t[s + 7] == 100 && t[s + 8] == 97 && t[s
        + 9] == 116 && t[s + 10] == 101 {
        proof {
            assert(sub =~= last_update_key());
        }
        true
    } else {
        proof {
            if sub == last_update_key() {
                assert(sub.len() == 11);
                assert(sub[0] == 108 && sub[1] == 97 && sub[2] == 115 && sub[3] == 116 && sub[4]
                    == 95 && sub[5] == 117 && sub[6] == 112 && sub[7] == 100 && sub[8] == 97
                    && sub[9] == 116 && sub[10] == 101);
                assert(t@[s as int] == sub[0] && t@[s + 1] == sub[1] && t@[s + 2] == sub[2] && t@[s
                    + 3] == sub[3] && t@[s + 4] == sub[4] && t@[s + 5] == sub[5] && t@[s + 6]
                    == sub[6] && t@[s + 7] == sub[7] && t@[s + 8] == sub[8] && t@[s + 9] == sub[9]
                    && t@[s + 10] == sub[10]);
            }
        }
        false
    }
}

/// One state object at `i`.
fn parse_obj_at(t: &[u8], i: usize) -> (r: Option<(Option<i64>, usize)>)
    requires
        i <= t@.len(),
    ensures
        match r {
            Some((w, e)) => spec_parse_obj(t@, i as int) == Some((w, e as int)) && i < e <= t@.len(),
            None => spec_parse_obj(t@, i as int) is None,
        },
{
    if i < t.len() && t[i] == 123 {
        let j = skip_ws_at(t, i + 1);
        if j < t.len() && t[j] == 125 {
            Some((None, j + 1))
        } else {
            match parse_string_at(t, j) {
                Some((s, e)) => {
                    if key_is_last_update(t, s, e) {
                        let j3 = skip_ws_at(t, e + 1);
                        if j3 < t.len() && t[j3] == 58 {
                            let j3w = skip_ws_at(t, j3 + 1);
                            match parse_int_at(t, j3w) {
                                Some((v, j4)) => {
                                    proof {
                                        lemma_parse_int_bounds(t@, j3w as int);
                                    }
                                    let j5 = skip_ws_at(t, j4);
                                    if j5 < t.len() && t[j5] == 125 {
                                        Some((Some(v), j5 + 1))
                                    } else {
                                        None
                                    }
                                },
                                None => None,
                            }
                        } else {
                            None
                        }
                    } else {
                        None
                    }
                },
                None => None,
            }
        }
    } else {
        None
    }
}

/// One `"Name": { ... }` pair at `i`.
fn parse_entry_at(t: &[u8], i: usize) -> (r: Option<(Option<(Feed, Option<i64>)>, usize)>)
    requires
        i <= t@.len(),
    ensures
        match r {
            Some((ent, e)) => spec_parse_entry(t@, i as int) == Some((ent, e as int)) && i < e
                <= t@.len(),
            None => spec_parse_entry(t@, i as int) is None,
        },
{
    let n = t.len();
    match parse_string_at(t, i) {
        Some((s, e)) => {
            let k = skip_ws_at(t, e + 1);
            if k < n && t[k] == 58 {
                let kw = skip_ws_at(t, k + 1);
                match parse_obj_at(t, kw) {
                    Some((w, e2)) => {
                        let ent = match feed_of_range(t, s, e) {
                            Some(f) => Some((f, w)),
                            None => None,
                        };
                        Some((ent, e2))
                    },
                    None => None,
                }
            } else {
                None
            }
        },
        None => None,
    }
}

// --------------------------------------------------------------------------
// Entry lists.
// --------------------------------------------------------------------------

/// At most one entry per feed.
pub open spec fn pairs_unique(s: Seq<(Feed, Option<i64>)>) -> bool {
    forall|i: int, j: int|
        0 <= i < j < s.len() ==> (#[trigger] s[i]).0 != (#[trigger] s[j]).0
}

/// An upsert never introduces a duplicate key.
pub proof fn lemma_pairs_upsert_unique(s: Seq<(Feed, Option<i64>)>, f: Feed, w: Option<i64>)
    requires
        pairs_unique(s),
    ensures
        pairs_unique(pairs_upsert(s, f, w)),
{
    let m = pairs_upsert(s, f, w);
    if pairs_has(s, f) {
        assert forall|i: int, j: int| 0 <= i < j < m.len() implies (#[trigger] m[i]).0 != (
        #[trigger] m[j]).0 by {
            assert(s[i].0 != s[j].0);
        }
    } else {
        assert forall|i: int, j: int| 0 <= i < j < m.len() implies (#[trigger] m[i]).0 != (
        #[trigger] m[j]).0 by {
            if j == s.len() {
                assert(m[i] == s[i]);
                assert(!(exists|q: int| 0 <= q < s.len() && (#[trigger] s[q]).0 == f));
            } else {
                assert(s[i].0 != s[j].0);
            }
        }
    }
}

/// A parsed entry list has unique keys when the accumulator does.
pub proof fn lemma_parse_entries_unique(t: Seq<u8>, i: int, acc: Seq<(Feed, Option<i64>)>)
    requires
        pairs_unique(acc),
    ensures
        spec_parse_entries(t, i, acc) matches Some((es, e)) ==> pairs_unique(es) && e <= t.len(),
    decreases t.len() - i,
{
    match spec_parse_entry(t, i) {
        Some((ent, j)) => {
            lemma_parse_entry_bounds(t, i);
            lemma_skip_ws_bounds(t, j);
            let acc2 = match ent {
                Some(p) => pairs_upsert(acc, p.0, p.1),
                None => acc,
            };
            match ent {
                Some(p) => {
                    lemma_pairs_upsert_unique(acc, p.0, p.1);
                },
                None => {},
            }
            let k = skip_ws(t, j);
            if k < t.len() && t[k] == 44 {
                lemma_skip_ws_bounds(t, k + 1);
                lemma_parse_entries_unique(t, skip_ws(t, k + 1), acc2);
            }
        },
        None => {},
    }
}

/// Replace the entry for `f`, or append one.
fn upsert_pairs(acc: &mut Vec<(Feed, Option<i64>)>, f: Feed, w: Option<i64>)
    requires
        pairs_unique(old(acc)@),
    ensures
        final(acc)@ == pairs_upsert(old(acc)@, f, w),
{
    let n = acc.len();
    let mut k: usize = 0;
    while k < n
        invariant
            n == acc@.len(),
            k <= n,
            acc@ == old(acc)@,
            pairs_unique(acc@),
            forall|m: int| 0 <= m < k ==> (#[trigger] acc@[m]).0 != f,
        decreases n - k,
    {
        if acc[k].0 == f {
            proof {
                assert(pairs_has(old(acc)@, f));
                assert forall|m: int| 0 <= m < old(acc)@.len() && m != k implies (#[trigger] old(
                    acc,
                )@[m]).0 != f by {
                    if m < k {
                    } else {
                        assert(old(acc)@[k as int].0 != old(acc)@[m].0);
                    }
                }
                assert(pairs_upsert(old(acc)@, f, w) =~= old(acc)@.update(k as int, (f, w)));
            }
            acc[k] = (f, w);
            return ;
        }
        k = k + 1;
    }
    proof {
        assert(!pairs_has(old(acc)@, f));
    }
    acc.push((f, w));
}

/// The entry list from `i` through the document's closing brace.
fn parse_entries_at(t: &[u8], i: usize, acc: Vec<(Feed, Option<i64>)>) -> (r: Option<
    (Vec<(Feed, Option<i64>)>, usize),
>)
    requires
        i <= t@.len(),
        pairs_unique(acc@),
    ensures
        match r {
            Some((v, e)) => spec_parse_entries(t@, i as int, acc@) == Some((v@, e as int))
                && pairs_unique(v@) && e <= t@.len(),
            None => spec_parse_entries(t@, i as int, acc@) is None,
        },
    decreases t@.len() - i,
{
    let n = t.len();
    match parse_entry_at(t, i) {
        Some((ent, j)) => {
            let mut acc2 = acc;
            match ent {
                Some(p) => {
                    upsert_pairs(&mut acc2, p.0, p.1);
                    proof {
                        lemma_pairs_upsert_unique(acc@, p.0, p.1);
                    }
                },
                None => {},
            }
            let k = skip_ws_at(t, j);
            if k < n && t[k] == 44 {
                let kw = skip_ws_at(t, k + 1);
                parse_entries_at(t, kw, acc2)
            } else if k < n && t[k] == 125 {
                Some((acc2, k + 1))
            } else {
                None
            }
        },
        None => None,
    }
}

/// Parse a persisted state document.  Yields the entries in file order, or
/// `None` when the text is not a valid document.
pub fn parse_states(t: &[u8]) -> (r: Option<Vec<(Feed, Option<i64>)>>)
    ensures
        match r {
            Some(v) => spec_parse_states(t@) == Some(v@) && pairs_unique(v@),
            None => spec_parse_states(t@) is None,
        },
{
    let n = t.len();
    let i = skip_ws_at(t, 0);
    if i < n && t[i] == 123 {
        let j = skip_ws_at(t, i + 1);
        if j < n && t[j] == 125 {
            if skip_ws_at(t, j + 1) == n {
                let v: Vec<(Feed, Option<i64>)> = Vec::new();
                proof {
                    assert(v@ =~= Seq::<(Feed, Option<i64>)>::empty());
                }
                Some(v)
            } else {
                None
            }
        } else {
            let acc: Vec<(Feed, Option<i64>)> = Vec::new();
            proof {
                assert(acc@ =~= Seq::<(Feed, Option<i64>)>::empty());
            }
            match parse_entries_at(t, j, acc) {
                Some((v, e)) => {
                    if skip_ws_at(t, e) == n {
                        Some(v)
                    } else {
                        None
                    }
                },
                None => None,
            }
        }
    } else {
        None
    }
}

// --------------------------------------------------------------------------
// Executable rendering.
// --------------------------------------------------------------------------

fn push_int(out: &mut Vec<u8>, v: i64)
    ensures
        final(out)@ == old(out)@ + spec_render_int(v),
{
    if v < 0 {
        out.push(45);
        let m: u64 = if v == i64::MIN {
            9223372036854775808u64
        } else {
            (-v) as u64
        };
        crate::dec::push_dec_digits(out, m);
        proof {
            assert(final(out)@ =~= old(out)@ + spec_render_int(v));
        }
    } else {
        crate::dec::push_dec_digits(out, v as u64);
    }
}

fn push_name(out: &mut Vec<u8>, f: &Feed)
    ensures
        final(out)@ == old(out)@ + spec_name_bytes(*f),
{
    match f {
        Feed::Netcup => {
            out.push(78);
            out.push(101);
            out.push(116);
            out.push(99);
            out.push(117);
            out.push(112);
        },
    }
    proof {
        assert(final(out)@ =~= old(out)@ + spec_name_bytes(*f));
    }
}

fn push_obj(out: &mut Vec<u8>, w: Option<i64>)
    ensures
        final(out)@ == old(out)@ + spec_render_obj(w),
{
    match w {
        None => {
            out.push(123);
            out.push(125);
            proof {
                assert(final(out)@ =~= old(out)@ + spec_render_obj(w));
            }
        },
        Some(v) => {
            out.push(123);
            out.push(10);
            out.push(32);
            out.push(32);
            out.push(32);
            out.push(32);
            out.push(34);
            out.push(108);
            out.push(97);
            out.push(115);
            out.push(116);
            out.push(95);
            out.push(117);
            out.push(112);
            out.push(100);
            out.push(97);
            out.push(116);
            out.push(101);
            out.push(34);
            out.push(58);
            out.push(32);
            proof {
                assert(out@ =~= old(out)@ + seq![123u8, 10u8, 32u8, 32u8, 32u8, 32u8, 34u8]
                    + last_update_key() + seq![34u8, 58u8, 32u8]);
            }
            push_int(out, v);
            out.push(10);
            out.push(32);
            out.push(32);
            out.push(125);
            proof {
                assert(final(out)@ =~= old(out)@ + spec_render_obj(w));
            }
        },
    }
}

fn push_entry(out: &mut Vec<u8>, f: &Feed, w: Option<i64>)
    ensures
        final(out)@ == old(out)@ + spec_render_entry(*f, w),
{
    out.push(32);
    out.push(32);
    out.push(34);
    push_name(out, f);
    out.push(34);
    out.push(58);
    out.push(32);
    proof {
        assert(out@ =~= old(out)@ + seq![32u8, 32u8, 34u8] + spec_name_bytes(*f) + seq![
            34u8,
            58u8,
            32u8,
        ]);
    }
    push_obj(out, w);
    proof {
        assert(final(out)@ =~= old(out)@ + spec_render_entry(*f, w));
    }
}

/// Render a state collection as the canonical pretty-printed document.
pub fn render_states(pairs: &Vec<(Feed, Option<i64>)>) -> (out: Vec<u8>)
    ensures
        out@ == spec_render_states(pairs@),
{
    let mut out: Vec<u8> = Vec::new();
    let n = pairs.len();
    if n == 0 {
        out.push(123);
        out.push(125);
        proof {
            assert(out@ =~= spec_render_states(pairs@));
        }
        return out;
    }
    out.push(123);
    out.push(10);
    let mut k: usize = 0;
    while k < n
        invariant
            n == pairs@.len(),
            1 <= n,
            k <= n,
            k == 0 ==> out@ == seq![123u8, 10u8],
            k >= 1 ==> out@ == seq![123u8, 10u8] + spec_render_entries(pairs@.take(k as int)),
        decreases n - k,
    {
        if k > 0 {
            out.push(44);
            out.push(10);
        }
        let p = pairs[k];
        push_entry(&mut out, &p.0, p.1);
        proof {
            assert(pairs@.take(k + 1).drop_last() =~= pairs@.take(k as int));
            assert(pairs@.take(k + 1).last() == pairs@[k as int]);
            if k == 0 {
                assert(out@ =~= seq![123u8, 10u8] + spec_render_entries(pairs@.take(1)));
            } else {
                assert(out@ =~= seq![123u8, 10u8] + spec_render_entries(pairs@.take(k + 1)));
            }
        }
        k = k + 1;
    }
    out.push(10);
    out.push(125);
    proof {
        assert(pairs@.take(n as int) =~= pairs@);
        assert(out@ =~= spec_render_states(pairs@));
    }
    out
}

// --------------------------------------------------------------------------
// The rendering parses back to what was rendered.
// --------------------------------------------------------------------------

/// Feed names contain no quote and no backslash, and each one names its
/// feed back.
proof fn lemma_name_bytes_facts(f: Feed)
    ensures
        forall|q: int|
            0 <= q < spec_name_bytes(f).len() ==> (#[trigger] spec_name_bytes(f)[q]) != 34
                && spec_name_bytes(f)[q] != 92,
        spec_name_bytes(f).len() >= 1,
        spec_feed_of_name(spec_name_bytes(f)) == Some(f),
{
    match f {
        Feed::Netcup => {
            let nb = spec_name_bytes(f);
            assert(nb.len() == 6);
            assert(nb[0] == 78 && nb[1] == 101 && nb[2] == 116 && nb[3] == 99 && nb[4] == 117
                && nb[5] == 112);
            assert forall|q: int| 0 <= q < nb.len() implies (#[trigger] nb[q]) != 34 && nb[q]
                != 92 by {
                assert(q == 0 || q == 1 || q == 2 || q == 3 || q == 4 || q == 5);
            }
        },
    }
}

/// The field name contains no quote and no backslash.
proof fn lemma_key_facts()
    ensures
        forall|q: int|
            0 <= q < last_update_key().len() ==> (#[trigger] last_update_key()[q]) != 34
                && last_update_key()[q] != 92,
        last_update_key().len() == 11,
{
    let kb = last_update_key();
    assert(kb.len() == 11);
    assert(kb[0] == 108 && kb[1] == 97 && kb[2] == 115 && kb[3] == 116 && kb[4] == 95 && kb[5]
        == 117 && kb[6] == 112 && kb[7] == 100 && kb[8] == 97 && kb[9] == 116 && kb[10] == 101);
    assert forall|q: int| 0 <= q < kb.len() implies (#[trigger] kb[q]) != 34 && kb[q] != 92 by {
        assert(q == 0 || q == 1 || q == 2 || q == 3 || q == 4 || q == 5 || q == 6 || q == 7 || q
            == 8 || q == 9 || q == 10);
    }
}

/// A rendered quoted key parses back to its content.
proof fn lemma_parse_string_round(pre: Seq<u8>, name: Seq<u8>, suf: Seq<u8>)
    requires
        forall|q: int| 0 <= q < name.len() ==> (#[trigger] name[q]) != 34 && name[q] != 92,
    ensures
        spec_parse_string(pre + (seq![34u8] + name + seq![34u8]) + suf, pre.len() as int) == Some(
            (name, pre.len() as int + name.len() + 2),
        ),
{
    let t = pre + (seq![34u8] + name + seq![34u8]) + suf;
    let p = pre.len() as int;
    assert(t[p] == 34);
    assert forall|k: int| p + 1 <= k < p + 1 + name.len() implies (#[trigger] t[k]) != 34 && t[k]
        != 92 by {
        assert(t[k] == name[k - p - 1]);
    }
    assert(t[p + 1 + name.len()] == 34);
    lemma_plain_end_run(t, p + 1, p + 1 + name.len());
    assert(t.subrange(p + 1, p + 1 + name.len()) =~= name);
}

/// A rendered integer parses back to its value, given that what follows is
/// not a digit.
proof fn lemma_parse_int_round(pre: Seq<u8>, v: i64, suf: Seq<u8>)
    requires
        suf.len() > 0,
        !is_digit(suf[0]),
    ensures
        spec_parse_int(pre + spec_render_int(v) + suf, pre.len() as int) == Some(
            (v, pre.len() as int + spec_render_int(v).len()),
        ),
{
    let t = pre + spec_render_int(v) + suf;
    let p = pre.len() as int;
    let mag: nat = if v < 0 {
        (-(v as int)) as nat
    } else {
        v as nat
    };
    let dd = dec_digits(mag);
    crate::dec::lemma_dec_digits_shape(mag);
    crate::dec::lemma_digits_value_roundtrip(mag);
    if v < 0 {
        assert(spec_render_int(v) == seq![45u8] + dd);
        assert(t[p] == 45);
        let j = p + 1;
        assert forall|k: int| j <= k < j + dd.len() implies is_digit(#[trigger] t[k]) by {
            assert(t[k] == dd[k - j]);
        }
        assert(t[j + dd.len()] == suf[0]);
        lemma_digit_run_run(t, j, j + dd.len());
        assert(t.subrange(j, j + dd.len()) =~= dd);
        assert(t[j] == dd[0]);
        assert(dd[0] != 48);
    } else {
        assert(spec_render_int(v) == dd);
        assert(t[p] == dd[0]);
        assert(is_digit(dd[0]));
        assert(t[p] != 45);
        let j = p;
        assert forall|k: int| j <= k < j + dd.len() implies is_digit(#[trigger] t[k]) by {
            assert(t[k] == dd[k - j]);
        }
        assert(t[j + dd.len()] == suf[0]);
        lemma_digit_run_run(t, j, j + dd.len());
        assert(t.subrange(j, j + dd.len()) =~= dd);
        if v >= 1 {
            assert(dd[0] != 48);
        } else {
            assert(mag < 10);
            assert(dd.len() == 1);
        }
    }
}

/// A rendered state object parses back to its watermark.
#[verifier::rlimit(60)]
proof fn lemma_parse_obj_round(pre: Seq<u8>, w: Option<i64>, suf: Seq<u8>)
    ensures
        spec_parse_obj(pre + spec_render_obj(w) + suf, pre.len() as int) == Some(
            (w, pre.len() as int + spec_render_obj(w).len()),
        ),
{
    let t = pre + spec_render_obj(w) + suf;
    let p = pre.len() as int;
    match w {
        None => {
            assert(t[p] == 123);
            assert(t[p + 1] == 125);
            lemma_skip_ws_run(t, p + 1, p + 1);
        },
        Some(v) => {
            let key = last_update_key();
            let ri = spec_render_int(v);
            let li = ri.len() as int;
            lemma_key_facts();
            let pre2 = pre + seq![123u8, 10u8, 32u8, 32u8, 32u8, 32u8];
            let suf2 = seq![58u8, 32u8] + ri + seq![10u8, 32u8, 32u8, 125u8] + suf;
            assert(t =~= pre2 + (seq![34u8] + key + seq![34u8]) + suf2);
            lemma_parse_string_round(pre2, key, suf2);
            assert(t[p] == 123);
            assert(t[p + 1] == 10 && t[p + 2] == 32 && t[p + 3] == 32 && t[p + 4] == 32 && t[p + 5]
                == 32);
            assert(t[p + 6] == 34);
            lemma_skip_ws_run(t, p + 1, p + 6);
            assert(t[p + 19] == 58);
            lemma_skip_ws_run(t, p + 19, p + 19);
            assert(!is_ws(ri[0])) by {
                if v < 0 {
                    assert(ri[0] == 45);
                } else {
                    crate::dec::lemma_dec_digits_shape(v as nat);
                    assert(ri[0] == dec_digits(v as nat)[0]);
                    assert(is_digit(ri[0]));
                }
            }
            assert(t[p + 20] == 32);
            assert(t[p + 21] == ri[0]);
            lemma_skip_ws_run(t, p + 20, p + 21);
            let pre3 = pre2 + (seq![34u8] + key + seq![34u8]) + seq![58u8, 32u8];
            let suf3 = seq![10u8, 32u8, 32u8, 125u8] + suf;
            assert(t =~= pre3 + ri + suf3);
            assert(pre3.len() == p + 21);
            assert(suf3[0] == 10);
            lemma_parse_int_round(pre3, v, suf3);
            assert(t[p + 21 + li] == 10 && t[p + 22 + li] == 32 && t[p + 23 + li] == 32);
            assert(t[p + 24 + li] == 125);
            lemma_skip_ws_run(t, p + 21 + li, p + 24 + li);
            assert(spec_render_obj(w).len() == 25 + li);
        },
    }
}

/// A rendered entry parses back to its feed and watermark, starting after
/// its two spaces of indent.
proof fn lemma_parse_entry_round(pre: Seq<u8>, f: Feed, w: Option<i64>, suf: Seq<u8>)
    ensures
        spec_parse_entry(pre + spec_render_entry(f, w) + suf, pre.len() as int + 2) == Some(
            (Some((f, w)), pre.len() as int + spec_render_entry(f, w).len()),
        ),
{
    let t = pre + spec_render_entry(f, w) + suf;
    let p = pre.len() as int;
    let nb = spec_name_bytes(f);
    let nl = nb.len() as int;
    lemma_name_bytes_facts(f);
    let pre2 = pre + seq![32u8, 32u8];
    let suf2 = seq![58u8, 32u8] + spec_render_obj(w) + suf;
    assert(t =~= pre2 + (seq![34u8] + nb + seq![34u8]) + suf2);
    lemma_parse_string_round(pre2, nb, suf2);
    let j = p + 4 + nl;
    assert(t[j] == 58);
    lemma_skip_ws_run(t, j, j);
    assert(spec_render_obj(w)[0] == 123) by {
        match w {
            None => {
            },
            Some(v) => {
            },
        }
    }
    assert(t[j + 1] == 32);
    assert(t[j + 2] == 123);
    lemma_skip_ws_run(t, j + 1, j + 2);
    let pre3 = pre2 + (seq![34u8] + nb + seq![34u8]) + seq![58u8, 32u8];
    assert(t =~= pre3 + spec_render_obj(w) + suf);
    assert(pre3.len() == j + 2);
    lemma_parse_obj_round(pre3, w, suf);
    assert(spec_render_entry(f, w).len() == 6 + nl + spec_render_obj(w).len());
}

/// The entry list can be peeled from the front as well.
proof fn lemma_render_entries_front(es: Seq<(Feed, Option<i64>)>)
    requires
        es.len() >= 2,
    ensures
        spec_render_entries(es) == spec_render_entry(es[0].0, es[0].1) + seq![44u8, 10u8]
            + spec_render_entries(es.drop_first()),
    decreases es.len(),
{
    if es.len() == 2 {
        reveal_with_fuel(spec_render_entries, 3);
        assert(es.drop_last().len() == 1);
        assert(es.drop_last()[0] == es[0]);
        assert(es.drop_first().len() == 1);
        assert(es.drop_first()[0] == es[1]);
        assert(es.last() == es[1]);
        assert(spec_render_entries(es) =~= spec_render_entry(es[0].0, es[0].1) + seq![44u8, 10u8]
            + spec_render_entries(es.drop_first()));
    } else {
        lemma_render_entries_front(es.drop_last());
        assert(es.drop_last().drop_first() =~= es.drop_first().drop_last());
        assert(es.drop_last()[0] == es[0]);
        assert(es.drop_first().last() == es.last());
        assert(es.drop_first().len() == es.len() - 1);
        assert(spec_render_entries(es) =~= spec_render_entry(es[0].0, es[0].1) + seq![44u8, 10u8]
            + spec_render_entries(es.drop_first()));
    }
}

/// A rendered entry list begins with an entry's indent and opening quote.
proof fn lemma_render_entries_head(es: Seq<(Feed, Option<i64>)>)
    requires
        es.len() >= 1,
    ensures
        spec_render_entries(es).len() >= 3,
        spec_render_entries(es)[0] == 32,
        spec_render_entries(es)[1] == 32,
        spec_render_entries(es)[2] == 34,
{
    if es.len() >= 2 {
        lemma_render_entries_front(es);
    }
}

/// A rendered entry list followed by the closing newline-and-brace parses
/// back to exactly those entries, appended to the accumulator.
#[verifier::rlimit(90)]
proof fn lemma_parse_entries_round(
    pre: Seq<u8>,
    es: Seq<(Feed, Option<i64>)>,
    acc: Seq<(Feed, Option<i64>)>,
    suf: Seq<u8>,
)
    requires
        es.len() >= 1,
        pairs_unique(acc + es),
        suf.len() >= 2,
        suf[0] == 10,
        suf[1] == 125,
    ensures
        spec_parse_entries(pre + spec_render_entries(es) + suf, pre.len() as int + 2, acc) == Some(
            (acc + es, pre.len() as int + spec_render_entries(es).len() + 2),
        ),
    decreases es.len(),
{
    let t = pre + spec_render_entries(es) + suf;
    let p = pre.len() as int;
    let e0 = es[0];
    assert((acc + es)[acc.len() as int] == e0);
    assert(!pairs_has(acc, e0.0)) by {
        assert forall|q: int| 0 <= q < acc.len() implies (#[trigger] acc[q]).0 != e0.0 by {
            assert((acc + es)[q] == acc[q]);
        }
    }
    if es.len() == 1 {
        assert(spec_render_entries(es) == spec_render_entry(e0.0, e0.1));
        lemma_parse_entry_round(pre, e0.0, e0.1, suf);
        let el = spec_render_entry(e0.0, e0.1).len() as int;
        assert(pairs_upsert(acc, e0.0, e0.1) =~= acc + es);
        assert(t[p + el] == 10);
        assert(t[p + el + 1] == 125);
        lemma_skip_ws_run(t, p + el, p + el + 1);
    } else {
        lemma_render_entries_front(es);
        let rest = es.drop_first();
        let el = spec_render_entry(e0.0, e0.1).len() as int;
        let suf1 = seq![44u8, 10u8] + spec_render_entries(rest) + suf;
        assert(t =~= pre + spec_render_entry(e0.0, e0.1) + suf1);
        lemma_parse_entry_round(pre, e0.0, e0.1, suf1);
        let acc2 = pairs_upsert(acc, e0.0, e0.1);
        assert(acc2 =~= acc.push(e0));
        assert(t[p + el] == 44);
        lemma_skip_ws_run(t, p + el, p + el);
        lemma_render_entries_head(rest);
        assert(t[p + el + 1] == 10 && t[p + el + 2] == 32 && t[p + el + 3] == 32);
        assert(t[p + el + 4] == 34);
        lemma_skip_ws_run(t, p + el + 1, p + el + 4);
        let pre4 = pre + spec_render_entry(e0.0, e0.1) + seq![44u8, 10u8];
        assert(t =~= pre4 + spec_render_entries(rest) + suf);
        assert(pre4.len() == p + el + 2);
        assert(acc2 + rest =~= acc + es);
        lemma_parse_entries_round(pre4, rest, acc2, suf);
        assert(spec_render_entries(es).len() == el + 2 + spec_render_entries(rest).len());
    }
}

/// Law: the canonical rendering of a key-unique entry list parses back to
/// exactly that list, so a saved state file re-loads as what was saved.
pub proof fn lemma_render_parse_round_trip(es: Seq<(Feed, Option<i64>)>)
    requires
        pairs_unique(es),
    ensures
        spec_parse_states(spec_render_states(es)) == Some(es),
{
    let t = spec_render_states(es);
    if es.len() == 0 {
        assert(t == seq![123u8, 125u8]);
        assert(t[0] == 123 && t[1] == 125);
        lemma_skip_ws_run(t, 0, 0);
        lemma_skip_ws_run(t, 1, 1);
        lemma_skip_ws_run(t, 2, 2);
        assert(Seq::<(Feed, Option<i64>)>::empty() =~= es);
    } else {
        lemma_render_entries_head(es);
        let eb = spec_render_entries(es);
        assert(t == seq![123u8, 10u8] + eb + seq![10u8, 125u8]);
        assert(t[0] == 123);
        lemma_skip_ws_run(t, 0, 0);
        assert(t[1] == 10 && t[2] == 32 && t[3] == 32 && t[4] == 34);
        lemma_skip_ws_run(t, 1, 4);
        assert(Seq::<(Feed, Option<i64>)>::empty() + es =~= es);
        lemma_parse_entries_round(seq![123u8, 10u8], es, Seq::empty(), seq![10u8, 125u8]);
        assert(t.len() == 2 + eb.len() + 2);
        lemma_skip_ws_run(t, t.len() as int, t.len() as int);
    }
}

} // verus!
