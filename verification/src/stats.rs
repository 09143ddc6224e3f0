//! Reading statistics derived on-device from [`ProgressStore`].
//!
//! - **tracked** — every chapter with a progress row. Opening a chapter creates
//!   one, so "tracked" is "started or finished".
//! - **finished** — [`ReadingProgress::is_finished`], i.e. the last page was
//!   reached (`current_page + 1 >= total_pages`, `total_pages > 0`).
//! - **pages read** — `min(current_page + 1, total_pages)` summed over tracked
//!   chapters. `current_page` is a zero-based index, so the `+ 1` counts the
//!   page the reader is *on*. The clamp matters because `total_pages` is
//!   whatever the file reported when progress was last saved: if a chapter is
//!   later replaced by a shorter re-release, an old `current_page` must not
//!   inflate the total. When `total_pages` is 0 (a row written before the page
//!   count was known) the clamp is skipped.
//! - **series** — the chapter key's top-level directory (`"Series/vol3.cbz"` →
//!   `"Series"`, a loose root file is its own series).
//! - **a day's pages** — a chapter's whole page count is attributed to the day
//!   it was *last read*. Progress rows carry one timestamp, not a session log,
//!   so this is the only attribution available.
//!
//! # Why local calendar days
//!
//! Streaks and the heatmap are about *the reader's* days. Bucketing by UTC
//! would silently break both for anyone west of Greenwich: an evening reading
//! session at 21:00 in UTC-05:00 lands on the *next* UTC day, so a reader who
//! reads every single evening sees their streak reset and their heatmap
//! smeared across the wrong squares. So every timestamp is converted to a local
//! calendar day before it is counted — see [`LocalTimeZone`].

use std::collections::BTreeMap;

use vstd::laws_cmp::{obeys_cmp, obeys_cmp_ord, obeys_cmp_partial_ord,
    obeys_partial_cmp_spec_properties};
use vstd::prelude::*;
use vstd::std_specs::cmp::OrdSpec;
use vstd::std_specs::iter::IteratorSpec;

pub use crate::calendar::{civil_from_days, days_from_civil, weekday};
use crate::calendar::weekday_of;
use crate::progress::{clock_seconds, row_views, seconds_or_zero, ProgressStore, ReadingProgress};
use crate::strmap::StringMap;
use crate::text::{pieces, split_text, texts};
pub use crate::timezone::{LocalTimeZone, SECS_PER_DAY};

verus! {

proof fn lemma_day_keys_ordered()
    ensures
        obeys_cmp::<i64>(),
        obeys_cmp::<&i64>(),
{
    broadcast use vstd::laws_cmp::group_laws_cmp;
    broadcast use vstd::laws_eq::group_laws_eq;

    reveal(obeys_cmp_partial_ord);
    reveal(obeys_cmp_ord);
    reveal(obeys_partial_cmp_spec_properties);
    reveal(vstd::laws_eq::obeys_eq_spec_properties);
}

proof fn lemma_increasing(s: Seq<&i64>)
    requires
        vstd::std_specs::btree::increasing_seq(s),
    ensures
        forall|i: int, j: int| 0 <= i < j < s.len() ==> *s[i] < *s[j],
{
    broadcast use vstd::std_specs::btree::group_btree_axioms;

    lemma_day_keys_ordered();
    assert forall|i: int, j: int| 0 <= i < j < s.len() implies *s[i] < *s[j] by {
        assert(OrdSpec::cmp_spec(&s[i], &s[j]) is Less);
    }
}

/// The days of a day table, in ascending order.
fn days_in_order(by_day: &BTreeMap<i64, usize>) -> (res: Vec<i64>)
    ensures
        forall|i: int, j: int| 0 <= i < j < res@.len() ==> res@[i] < res@[j],
        res@.to_set() == by_day@.dom(),
{
    broadcast use vstd::std_specs::btree::group_btree_axioms;

    proof {
        lemma_day_keys_ordered();
    }
    let mut res: Vec<i64> = Vec::new();
    let ghost all = by_day.keys().remaining();
    for day in it: by_day.keys()
        invariant
            it.seq() == all,
            res@ == all.take(it.index()).unref(),
    {
        res.push(*day);
        assert(res@ =~= all.take(it.index() + 1).unref());
    }
    proof {
        lemma_increasing(all);
        assert(all.take(all.len() as int) =~= all);
    }
    res
}

/// How many days a day table has.
fn day_count(by_day: &BTreeMap<i64, usize>) -> (res: usize)
    ensures
        res == by_day@.dom().len(),
        by_day@.dom().finite(),
{
    broadcast use vstd::std_specs::btree::group_btree_axioms;

    proof {
        lemma_day_keys_ordered();
    }
    by_day.len()
}

/// Whether a day table has an entry for `day`.
fn has_day(by_day: &BTreeMap<i64, usize>, day: i64) -> (res: bool)
    ensures
        res == by_day@.contains_key(day),
{
    broadcast use vstd::std_specs::btree::group_btree_axioms;

    proof {
        lemma_day_keys_ordered();
    }
    by_day.contains_key(&day)
}

/// The pages that a day table has for `day`.
pub open spec fn table_pages(by_day: Map<i64, usize>, day: i64) -> usize {
    if by_day.contains_key(day) {
        by_day[day]
    } else {
        0
    }
}

fn pages_in_table(by_day: &BTreeMap<i64, usize>, day: i64) -> (res: usize)
    ensures
        res == table_pages(by_day@, day),
{
    broadcast use vstd::std_specs::btree::group_btree_axioms;

    proof {
        lemma_day_keys_ordered();
    }
    match by_day.get(&day) {
        Some(pages) => *pages,
        None => 0,
    }
}

fn set_pages(by_day: &mut BTreeMap<i64, usize>, day: i64, pages: usize)
    ensures
        final(by_day)@ == old(by_day)@.insert(day, pages),
{
    broadcast use vstd::std_specs::btree::group_btree_axioms;

    proof {
        lemma_day_keys_ordered();
    }
    by_day.insert(day, pages);
}

/// The series key a chapter key belongs to: its top-level directory, or the
/// whole key for a loose file in the library root.
pub open spec fn series_key(chapter_key: Seq<char>) -> Seq<char> {
    pieces(chapter_key, '/')[0]
}

/// The series key a chapter key belongs to: its top-level directory
/// (`"Series/vol3.cbz"` → `"Series"`), or the whole key for a loose file in the
/// library root.
pub fn series_key_of(chapter_key: &str) -> (res: String)
    ensures
        res@ == series_key(chapter_key@),
{
    let parts = split_text(chapter_key, '/');
    assert(texts(parts@)[0] == parts@[0]@);
    parts[0].clone()
}

/// Pages attributed to one progress row.
pub open spec fn row_pages(p: ReadingProgress) -> int {
    let read = if p.current_page < usize::MAX {
        p.current_page + 1
    } else {
        usize::MAX as int
    };
    if p.total_pages > 0 && p.total_pages < read {
        p.total_pages as int
    } else {
        read
    }
}

/// Pages attributed to one progress row — see the module docs.
pub fn pages_of(p: &ReadingProgress) -> (res: usize)
    ensures
        res == row_pages(*p),
{
    let read: usize = p.current_page.saturating_add(1);
    if p.total_pages > 0 && p.total_pages < read {
        p.total_pages
    } else {
        read
    }
}

/// The pages of some progress rows.
pub open spec fn pages_total(rows: Seq<(Seq<char>, ReadingProgress)>) -> int
    decreases rows.len(),
{
    if rows.len() == 0 {
        0
    } else {
        pages_total(rows.drop_last()) + row_pages(rows.last().1)
    }
}

/// How many of some progress rows are finished.
pub open spec fn finished_total(rows: Seq<(Seq<char>, ReadingProgress)>) -> int
    decreases rows.len(),
{
    if rows.len() == 0 {
        0
    } else {
        finished_total(rows.drop_last()) + if rows.last().1.finished() {
            1int
        } else {
            0int
        }
    }
}

/// The local day that a progress row counts for.
pub open spec fn row_day(tz: &LocalTimeZone, p: ReadingProgress) -> int {
    tz.local_day((p.last_read_at as i64) as int)
}

/// The pages of those rows that count for `day`.
pub open spec fn day_total(
    rows: Seq<(Seq<char>, ReadingProgress)>,
    tz: &LocalTimeZone,
    day: int,
) -> int
    decreases rows.len(),
{
    if rows.len() == 0 {
        0
    } else {
        day_total(rows.drop_last(), tz, day) + if row_day(tz, rows.last().1) == day {
            row_pages(rows.last().1)
        } else {
            0
        }
    }
}

/// Whether some row counts for `day`.
pub open spec fn is_active_day(
    rows: Seq<(Seq<char>, ReadingProgress)>,
    tz: &LocalTimeZone,
    day: int,
) -> bool {
    exists|i: int| 0 <= i < rows.len() && row_day(tz, (#[trigger] rows[i]).1) == day
}

/// The series that some rows belong to.
pub open spec fn series_set(rows: Seq<(Seq<char>, ReadingProgress)>) -> Set<Seq<char>> {
    rows.map_values(|r: (Seq<char>, ReadingProgress)| series_key(r.0)).to_set()
}

/// Whether a day table holds, for each day with reading, its pages.
pub open spec fn is_day_table(
    by_day: Map<i64, usize>,
    rows: Seq<(Seq<char>, ReadingProgress)>,
    tz: &LocalTimeZone,
) -> bool {
    &&& forall|day: i64| #[trigger]
        by_day.contains_key(day) <==> is_active_day(rows, tz, day as int)
    &&& forall|day: i64| #[trigger]
        by_day.contains_key(day) ==> by_day[day] == day_total(rows, tz, day as int)
}

/// Whether the table has a day.
pub open spec fn reads_on(by_day: Map<i64, usize>, day: int) -> bool {
    i64::MIN <= day <= i64::MAX && by_day.contains_key(day as i64)
}

/// Whether there was reading on each of the `n` days that end with `last`.
pub open spec fn is_run(by_day: Map<i64, usize>, last: int, n: int) -> bool {
    forall|day: int| last - n < day <= last ==> #[trigger] reads_on(by_day, day)
}

/// The day that the current streak ends on, if there is one: today, or
/// yesterday when today has no reading yet.
pub open spec fn streak_end(by_day: Map<i64, usize>, today: int) -> int {
    if reads_on(by_day, today) {
        today
    } else {
        today - 1
    }
}

/// Whether `n` is the length of the current streak: the days of that many up to
/// its end have reading, and the day before them has not.
pub open spec fn is_current_streak(by_day: Map<i64, usize>, today: int, n: int) -> bool {
    let last = streak_end(by_day, today);
    n >= 0 && is_run(by_day, last, n) && !reads_on(by_day, last - n)
}

/// Whether the current streak goes back to the very first day that can be
/// counted.
pub open spec fn is_beginningless(by_day: Map<i64, usize>, today: int) -> bool {
    let last = streak_end(by_day, today);
    is_run(by_day, last, last - i64::MIN + 1)
}

/// Whether `n` is the length of the longest run of consecutive days with
/// reading.
pub open spec fn is_longest_streak(by_day: Map<i64, usize>, n: int) -> bool {
    &&& n >= 0
    &&& exists|last: int| #[trigger] is_run(by_day, last, n)
    &&& forall|last: int, m: int| #[trigger] is_run(by_day, last, m) ==> m <= n
}

/// Whether `day` is the first day of the table.
pub open spec fn is_first_day(by_day: Map<i64, usize>, day: int) -> bool {
    reads_on(by_day, day) && forall|d: int| #[trigger] reads_on(by_day, d) ==> day <= d
}

/// A run is no longer than the table has days.
proof fn lemma_run_len(by_day: Map<i64, usize>, last: int, n: int)
    requires
        by_day.dom().finite(),
        n >= 0,
        is_run(by_day, last, n),
    ensures
        n <= by_day.dom().len(),
    decreases n,
{
    if n > 0 {
        assert(reads_on(by_day, last));
        let rest = by_day.remove(last as i64);
        assert forall|day: int| last - 1 - (n - 1) < day <= last - 1 implies #[trigger] reads_on(
            rest,
            day,
        ) by {
            assert(reads_on(by_day, day));
        }
        lemma_run_len(rest, last - 1, n - 1);
        assert(rest.dom() =~= by_day.dom().remove(last as i64));
    }
}

/// Current and longest runs of consecutive active days.
///
/// The current streak walks back from `today`, or from yesterday when today
/// has no reading yet: a reader who read every day for a month should not see
/// "0" the moment midnight passes. Two days in a row means the day indices
/// differ by exactly 1 — which is why bucketing had to happen in local time
/// first; subtracting timestamps would get this wrong across a DST change.
pub fn streaks(by_day: &BTreeMap<i64, usize>, today: i64) -> (res: (usize, usize))
    requires
        today > i64::MIN || by_day@.contains_key(today),
        !is_beginningless(by_day@, today as int),
    ensures
        is_current_streak(by_day@, today as int, res.0 as int),
        is_longest_streak(by_day@, res.1 as int),
{
    let days = days_in_order(by_day);
    let longest: usize = longest_run(by_day, &days);

    let count: usize = day_count(by_day);
    let last: i64 = if has_day(by_day, today) {
        today
    } else {
        today - 1
    };
    let mut cursor: i64 = last;
    let mut current: usize = 0;
    while has_day(by_day, cursor)
        invariant
            !is_beginningless(by_day@, today as int),
            last == streak_end(by_day@, today as int),
            by_day@.dom().finite(),
            count == by_day@.dom().len(),
            cursor == last - current,
            is_run(by_day@, last as int, current as int),
        decreases cursor - i64::MIN,
    {
        proof {
            assert(reads_on(by_day@, cursor as int));
            assert(is_run(by_day@, last as int, current + 1));
            lemma_run_len(by_day@, last as int, current + 1);
        }
        current = current + 1;
        cursor = cursor - 1;
    }
    (current, longest)
}

fn longest_run(by_day: &BTreeMap<i64, usize>, days: &Vec<i64>) -> (longest: usize)
    requires
        forall|i: int, j: int| 0 <= i < j < days@.len() ==> days@[i] < days@[j],
        days@.to_set() == by_day@.dom(),
    ensures
        is_longest_streak(by_day@, longest as int),
{
    let ghost table = by_day@;
    let mut longest: usize = 0;
    let mut run: usize = 0;
    let mut i: usize = 0;
    let ghost mut best: int = 0;
    while i < days.len()
        invariant
            table == by_day@,
            forall|i: int, j: int| 0 <= i < j < days@.len() ==> days@[i] < days@[j],
            days@.to_set() == table.dom(),
            i <= days@.len(),
            run <= i,
            longest <= i,
            i == 0 ==> longest == 0,
            i > 0 ==> {
                let prev = days@[i - 1] as int;
                &&& is_run(table, prev, run as int)
                &&& !reads_on(table, prev - run)
            },
            is_run(table, best, longest as int),
            forall|last: int, m: int|
                i > 0 && last <= days@[i - 1] && #[trigger] is_run(table, last, m) && m > 0 ==> m
                    <= longest,
        decreases days@.len() - i,
    {
        let day: i64 = days[i];
        let ghost prev_run = run;
        let ghost prev_longest = longest;
        proof {
            assert(days@.contains(day));
            assert(days@.to_set().contains(day));
            assert(reads_on(table, day as int));
        }
        run = if i > 0 && days[i - 1] == day - 1 {
            run + 1
        } else {
            1
        };
        proof {
            let next_run = run as int;
            if i > 0 && days@[i - 1] == day - 1 {
                assert(is_run(table, day as int, next_run));
                assert(day - next_run == days@[i - 1] - prev_run);
            } else {
                assert(is_run(table, day as int, 1));
                if reads_on(table, day - 1) {
                    let d = (day - 1) as i64;
                    assert(days@.to_set().contains(d));
                    let k = choose|k: int| 0 <= k < days@.len() && days@[k] == d;
                    assert(k < i) by {
                        if k > i {
                            assert(days@[i as int] < days@[k]);
                        }
                    }
                    if k < i - 1 {
                        assert(days@[k] < days@[i - 1]);
                        assert(days@[i - 1] < days@[i as int]);
                    }
                }
            }
        }
        if longest < run {
            longest = run;
            proof {
                best = day as int;
            }
        }
        proof {
            assert forall|last: int, m: int|
                last <= days@[i as int] && #[trigger] is_run(table, last, m) && m > 0 implies m
                <= longest by {
                assert(reads_on(table, last));
                if last == day {
                    if m > run {
                        assert(reads_on(table, day - run));
                    }
                } else {
                    let d = last as i64;
                    assert(days@.to_set().contains(d));
                    let k = choose|k: int| 0 <= k < days@.len() && days@[k] == d;
                    if k >= i {
                        if k > i {
                            assert(days@[i as int] < days@[k]);
                        }
                    }
                    if k < i - 1 {
                        assert(days@[k] < days@[i - 1]);
                    }
                    assert(m <= prev_longest);
                }
            }
        }
        i = i + 1;
    }
    proof {
        assert forall|last: int, m: int| #[trigger] is_run(table, last, m) implies m <= longest by {
            if m > 0 {
                assert(reads_on(table, last));
                let d = last as i64;
                assert(days@.to_set().contains(d));
                let k = choose|k: int| 0 <= k < days@.len() && days@[k] == d;
                if k < i - 1 {
                    assert(days@[k] < days@[i - 1]);
                }
            }
        }
    }
    longest
}

/// Everything the stats screen needs, computed in one pass over the store.
#[derive(Debug, Clone, PartialEq, Eq)]
pub struct ReadingStats {
    /// Chapters with a progress row (started or finished).
    pub chapters_tracked: usize,
    /// Chapters whose last page was reached.
    pub chapters_finished: usize,
    /// Total pages read across all tracked chapters.
    pub pages_read: usize,
    /// Distinct series (top-level directories) touched.
    pub series_count: usize,
    /// Number of distinct local days with any reading.
    pub active_days: usize,
    /// Day index of the earliest active day, `None` for an empty store.
    ///
    /// A *day index* (days since 1970-01-01, local), not a timestamp — feed it
    /// to [`civil_from_days`] to render "since 3 Mar 2026". It is `u64` to
    /// match the store's other public time-ish fields; a negative index (only
    /// reachable from a device whose clock is set before the epoch) saturates
    /// to 0.
    pub first_day: Option<u64>,
    /// Consecutive local days with reading ending today, or ending yesterday
    /// if today has no reading yet — so the streak does not appear to break
    /// every morning before the reader has opened a chapter.
    pub current_streak: usize,
    /// The longest run of consecutive local days ever recorded.
    pub longest_streak: usize,
    /// Local day index → pages read that day. Sorted, so the first key is
    /// [`Self::first_day`] and iteration draws left-to-right.
    pub by_day: BTreeMap<i64, usize>,
    /// The local day the statistics were computed on. Anchors both the current
    /// streak and the right-hand edge of [`Self::heatmap`], and keeps the whole
    /// struct a pure function of its inputs.
    pub today: i64,
}

/// Whether the sums over some rows fit their types.
pub open spec fn rows_fit(rows: Seq<(Seq<char>, ReadingProgress)>) -> bool {
    &&& rows.len() <= usize::MAX
    &&& pages_total(rows) <= usize::MAX
    &&& forall|i: int|
        0 <= i < rows.len() ==> ((#[trigger] rows[i]).1.total_pages > 0 ==> rows[i].1.current_page
            < usize::MAX)
}

proof fn lemma_pages_nonnegative(rows: Seq<(Seq<char>, ReadingProgress)>, tz: &LocalTimeZone, day: int)
    ensures
        0 <= day_total(rows, tz, day) <= pages_total(rows),
    decreases rows.len(),
{
    if rows.len() > 0 {
        lemma_pages_nonnegative(rows.drop_last(), tz, day);
    }
}

proof fn lemma_pages_of_prefix(rows: Seq<(Seq<char>, ReadingProgress)>, n: int)
    requires
        0 <= n <= rows.len(),
    ensures
        pages_total(rows.take(n)) <= pages_total(rows),
    decreases rows.len(),
{
    if n < rows.len() {
        lemma_pages_of_prefix(rows.drop_last(), n);
        assert(rows.drop_last().take(n) =~= rows.take(n));
    } else {
        assert(rows.take(n) =~= rows);
    }
}

proof fn lemma_finished_bound(rows: Seq<(Seq<char>, ReadingProgress)>)
    ensures
        0 <= finished_total(rows) <= rows.len(),
    decreases rows.len(),
{
    if rows.len() > 0 {
        lemma_finished_bound(rows.drop_last());
    }
}

proof fn lemma_active_step(
    rows: Seq<(Seq<char>, ReadingProgress)>,
    tz: &LocalTimeZone,
    n: int,
    day: int,
)
    requires
        0 <= n < rows.len(),
    ensures
        is_active_day(rows.take(n + 1), tz, day) <==> is_active_day(rows.take(n), tz, day)
            || row_day(tz, rows[n].1) == day,
        day_total(rows.take(n + 1), tz, day) == day_total(rows.take(n), tz, day) + if row_day(
            tz,
            rows[n].1,
        ) == day {
            row_pages(rows[n].1)
        } else {
            0
        },
{
    let a = rows.take(n);
    let b = rows.take(n + 1);
    assert(b.drop_last() =~= a);
    assert(b.last() == rows[n]);
    if is_active_day(a, tz, day) {
        let i = choose|i: int| 0 <= i < a.len() && row_day(tz, (#[trigger] a[i]).1) == day;
        assert(b[i] == a[i]);
    }
    if row_day(tz, rows[n].1) == day {
        assert(b[n] == rows[n]);
    }
    if is_active_day(b, tz, day) {
        let i = choose|i: int| 0 <= i < b.len() && row_day(tz, (#[trigger] b[i]).1) == day;
        if i < n {
            assert(a[i] == b[i]);
        }
    }
}

proof fn lemma_inactive_day(rows: Seq<(Seq<char>, ReadingProgress)>, tz: &LocalTimeZone, day: int)
    requires
        !is_active_day(rows, tz, day),
    ensures
        day_total(rows, tz, day) == 0,
    decreases rows.len(),
{
    if rows.len() > 0 {
        let r = rows.drop_last();
        if is_active_day(r, tz, day) {
            let i = choose|i: int| 0 <= i < r.len() && row_day(tz, (#[trigger] r[i]).1) == day;
            assert(rows[i] == r[i]);
        }
        assert(rows[rows.len() - 1] == rows.last());
        lemma_inactive_day(r, tz, day);
    }
}

proof fn lemma_day_in_range(tz: &LocalTimeZone, unix: i64)
    ensures
        i64::MIN < tz.local_day(unix as int) < i64::MAX,
{
}

/// Whether the sums over some rows fit their types, so that statistics of them
/// can be computed.
pub fn sums_fit(entries: &[(&str, ReadingProgress)]) -> (res: bool)
    ensures
        res == rows_fit(row_views(entries@)),
{
    let ghost rows = row_views(entries@);
    let n: usize = entries.len();
    let mut pages: usize = 0;
    let mut i: usize = 0;
    assert(rows.take(0) =~= Seq::<(Seq<char>, ReadingProgress)>::empty());
    while i < n
        invariant
            i <= n == entries@.len(),
            rows == row_views(entries@),
            pages == pages_total(rows.take(i as int)),
            forall|k: int|
                0 <= k < i ==> ((#[trigger] rows[k]).1.total_pages > 0 ==> rows[k].1.current_page
                    < usize::MAX),
        decreases n - i,
    {
        let row = entries[i].1;
        proof {
            assert(rows[i as int].1 == row);
            assert(rows.take(i + 1).drop_last() =~= rows.take(i as int));
            assert(rows.take(i + 1).last() == rows[i as int]);
            lemma_pages_of_prefix(rows, i + 1);
        }
        if row.total_pages > 0 && row.current_page == usize::MAX {
            return false;
        }
        match pages.checked_add(pages_of(&row)) {
            Some(sum) => {
                pages = sum;
            },
            None => return false,
        }
        i = i + 1;
    }
    assert(rows.take(n as int) =~= rows);
    true
}

/// The levels that a heatmap shades by: none for no pages, and else the
/// fraction of the busiest day in quarters, rounded up.
pub open spec fn level(pages: int, max: int) -> int {
    if pages == 0 || max == 0 {
        0
    } else {
        let quarters = (4 * pages + max - 1) / max;
        if quarters < 4 {
            quarters
        } else {
            4
        }
    }
}

/// Intensity level `0..=4` for `pages` against the busiest day's `max`.
pub fn quantise(pages: usize, max: usize) -> (res: u8)
    ensures
        res == level(pages as int, max as int),
{
    if pages == 0 || max == 0 {
        return 0;
    }
    // ceil(pages * 4 / max), capped — integer arithmetic, no float rounding.
    let whole: u128 = max as u128;
    let quadruple: u128 = pages as u128 * 4;
    let ghost q = quadruple as int;
    let ghost m = max as int;
    let down: u128 = quadruple / whole;
    let up: u128 = if quadruple % whole == 0 {
        down
    } else if down < 4 {
        down + 1
    } else {
        down
    };
    proof {
        assert(0 <= q % m < m && q == m * (q / m) + q % m) by (nonlinear_arith)
            requires
                m > 0,
                q >= 0,
        ;
        assert((q + m - 1) / m == q / m + if q % m == 0 {
            0int
        } else {
            1int
        }) by (nonlinear_arith)
            requires
                m > 0,
                q >= 0,
                0 <= q % m < m,
                q == m * (q / m) + q % m,
        ;
        assert(q / m >= 0) by (nonlinear_arith)
            requires
                m > 0,
                q >= 0,
        ;
    }
    if up < 4 {
        up as u8
    } else {
        4
    }
}

/// Whether `max` is the busiest day's page count, 0 if there is no day.
pub open spec fn is_busiest(by_day: Map<i64, usize>, max: int) -> bool {
    &&& forall|day: i64| #[trigger] by_day.contains_key(day) ==> by_day[day] <= max
    &&& max == 0 || exists|day: i64| #[trigger] by_day.contains_key(day) && by_day[day] == max
    &&& max >= 0
}

/// The busiest day's page count, 0 if there is no day.
pub open spec fn busiest(by_day: Map<i64, usize>) -> int {
    choose|max: int| is_busiest(by_day, max)
}

/// The first day of a heatmap of the last `weeks` weeks: the window starts
/// `weeks * 7 - 1` days before today and is then rounded *back* to the
/// preceding Sunday.
pub open spec fn heatmap_first_day(today: int, weeks: int) -> int {
    let span = if weeks > 0 {
        weeks * 7 - 1
    } else {
        0
    };
    today - span - weekday_of(today - span)
}

/// Whether the first day of a heatmap can be computed: the days of the window can
/// be counted, the Sunday that it is rounded back to has an index, and so have
/// the days by which the weekday is found.
pub open spec fn heatmap_start_fits(today: int, weeks: int) -> bool {
    let span = if weeks > 0 {
        weeks * 7 - 1
    } else {
        0
    };
    &&& weeks * 7 <= i64::MAX
    &&& i64::MIN <= heatmap_first_day(today, weeks)
    &&& today - span + 4 <= i64::MAX
}

/// Whether the columns of a heatmap can be counted through: the Sunday after
/// today has an index too.
pub open spec fn heatmap_fits(today: int, weeks: int) -> bool {
    &&& heatmap_start_fits(today, weeks)
    &&& today - weekday_of(today) + 7 <= i64::MAX
}

impl ReadingStats {
    /// Whether these are the statistics of `rows` in the zone `tz` as of
    /// `now_unix`.
    pub open spec fn are_of(
        &self,
        rows: Seq<(Seq<char>, ReadingProgress)>,
        tz: &LocalTimeZone,
        now_unix: int,
    ) -> bool {
        &&& self.chapters_tracked == rows.len()
        &&& self.chapters_finished == finished_total(rows)
        &&& self.pages_read == pages_total(rows)
        &&& self.series_count == series_set(rows).len()
        &&& is_day_table(self.by_day@, rows, tz)
        &&& self.active_days == self.by_day@.dom().len()
        &&& self.today == tz.local_day(now_unix)
        &&& is_current_streak(self.by_day@, self.today as int, self.current_streak as int)
        &&& is_longest_streak(self.by_day@, self.longest_streak as int)
        &&& rows.len() == 0 ==> self.first_day is None
        &&& rows.len() > 0 ==> exists|day: int| #[trigger]
            is_first_day(self.by_day@, day) && self.first_day == Some(
                (if day < 0 {
                    0
                } else {
                    day
                }) as u64,
            )
    }

    /// Compute statistics for `store` in the zone `tz`, as of now.
    pub fn from_store(store: &ProgressStore, tz: &LocalTimeZone) -> (res: Self)
        requires
            rows_fit(store.rows_in_order()),
        ensures
            exists|now_unix: i64| #[trigger]
                res.are_of(store.rows_in_order(), tz, now_unix as int),
    {
        let now: u64 = seconds_or_zero(clock_seconds());
        let now_unix: i64 = #[verifier::truncate] (now as i64);
        let entries = store.entries();
        let res = Self::compute(entries.as_slice(), tz, now_unix);
        assert(res.are_of(store.rows_in_order(), tz, now_unix as int));
        res
    }

    /// Compute statistics from raw `(chapter_key, progress)` pairs against an
    /// explicit zone and "now"; [`Self::from_store`] supplies the real ones.
    pub fn compute(
        entries: &[(&str, ReadingProgress)],
        tz: &LocalTimeZone,
        now_unix: i64,
    ) -> (res: Self)
        requires
            rows_fit(row_views(entries@)),
        ensures
            res.are_of(row_views(entries@), tz, now_unix as int),
    {
        let ghost rows = row_views(entries@);
        let mut chapters_finished: usize = 0;
        let mut pages_read: usize = 0;
        let mut series: StringMap<()> = StringMap::new();
        let mut by_day: BTreeMap<i64, usize> = BTreeMap::new();
        let n: usize = entries.len();
        let mut i: usize = 0;
        proof {
            assert(rows.take(0) =~= Seq::<(Seq<char>, ReadingProgress)>::empty());
            assert(series_set(rows.take(0)) =~= Set::<Seq<char>>::empty());
        }
        while i < n
            invariant
                i <= n == entries@.len(),
                rows == row_views(entries@),
                rows_fit(rows),
                chapters_finished == finished_total(rows.take(i as int)),
                pages_read == pages_total(rows.take(i as int)),
                series@.dom() == series_set(rows.take(i as int)),
                is_day_table(by_day@, rows.take(i as int), tz),
            decreases n - i,
        {
            let progress: ReadingProgress = entries[i].1;
            let ghost before = rows.take(i as int);
            let ghost after = rows.take(i + 1);
            proof {
                assert(rows[i as int] == (entries@[i as int].0@, progress));
                assert(after.drop_last() =~= before);
                assert(after.last() == rows[i as int]);
                lemma_pages_of_prefix(rows, i + 1);
                lemma_finished_bound(before);
            }
            series.insert(series_key_of(entries[i].0), ());
            proof {
                let keys = |r: (Seq<char>, ReadingProgress)| series_key(r.0);
                assert(after =~= before.push(rows[i as int]));
                assert(after.map_values(keys) =~= before.map_values(keys).push(
                    series_key(rows[i as int].0),
                ));
                lemma_push_to_set(before.map_values(keys), series_key(rows[i as int].0));
                assert(series@.dom() =~= series_set(after));
            }
            let pages: usize = pages_of(&progress);
            pages_read = pages_read + pages;
            if progress.is_finished() {
                chapters_finished = chapters_finished + 1;
            }
            let day: i64 = tz.day_index(#[verifier::truncate] (progress.last_read_at as i64));
            let ghost table = by_day@;
            let so_far: usize = pages_in_table(&by_day, day);
            proof {
                lemma_active_step(rows, tz, i as int, day as int);
                lemma_pages_nonnegative(after, tz, day as int);
                if !table.contains_key(day) {
                    lemma_inactive_day(before, tz, day as int);
                }
            }
            set_pages(&mut by_day, day, so_far + pages);
            proof {
                assert forall|d: i64| #[trigger] by_day@.contains_key(d) <==> is_active_day(
                    after,
                    tz,
                    d as int,
                ) by {
                    lemma_active_step(rows, tz, i as int, d as int);
                    assert(table.contains_key(d) <==> is_active_day(before, tz, d as int));
                }
                assert forall|d: i64| #[trigger] by_day@.contains_key(d) implies by_day@[d]
                    == day_total(after, tz, d as int) by {
                    lemma_active_step(rows, tz, i as int, d as int);
                    if d != day {
                        assert(table.contains_key(d));
                    }
                }
            }
            i = i + 1;
        }
        assert(rows.take(n as int) =~= rows);

        let today: i64 = tz.day_index(now_unix);
        proof {
            lemma_day_in_range(tz, now_unix);
            if is_beginningless(by_day@, today as int) {
                assert(reads_on(by_day@, i64::MIN as int));
                let k = choose|k: int|
                    0 <= k < rows.len() && row_day(tz, (#[trigger] rows[k]).1) == i64::MIN;
                lemma_day_in_range(tz, rows[k].1.last_read_at as i64);
            }
        }
        let (current_streak, longest_streak) = streaks(&by_day, today);
        let days = days_in_order(&by_day);
        let first_day: Option<u64> = if days.len() > 0 {
            let first: i64 = days[0];
            Some(
                if first < 0 {
                    0
                } else {
                    first as u64
                },
            )
        } else {
            None
        };
        proof {
            if days@.len() > 0 {
                let first = days@[0] as int;
                assert(days@.to_set().contains(days@[0]));
                assert(reads_on(by_day@, first));
                assert forall|d: int| #[trigger] reads_on(by_day@, d) implies first <= d by {
                    assert(days@.to_set().contains(d as i64));
                    let k = choose|k: int| 0 <= k < days@.len() && days@[k] == d as i64;
                    if k > 0 {
                        assert(days@[0] < days@[k]);
                    }
                }
                assert(is_first_day(by_day@, first));
                if rows.len() == 0 {
                    assert(is_active_day(rows, tz, first));
                }
            } else if rows.len() > 0 {
                let d = row_day(tz, rows[0].1);
                lemma_day_in_range(tz, rows[0].1.last_read_at as i64);
                assert(is_active_day(rows, tz, d));
                assert(by_day@.contains_key(d as i64));
                assert(days@.to_set().contains(d as i64));
            }
        }
        ReadingStats {
            chapters_tracked: n,
            chapters_finished,
            pages_read,
            series_count: series.len(),
            active_days: day_count(&by_day),
            first_day,
            current_streak,
            longest_streak,
            by_day,
            today,
        }
    }
}

proof fn lemma_busiest(by_day: Map<i64, usize>, max: int)
    requires
        is_busiest(by_day, max),
    ensures
        busiest(by_day) == max,
{
    let other = busiest(by_day);
    assert(is_busiest(by_day, other));
}

impl ReadingStats {
    /// The busiest day's page count, the denominator the heatmap shades
    /// against. 0 for an empty store.
    pub fn max_day(&self) -> (res: usize)
        ensures
            is_busiest(self.by_day@, res as int),
            res == busiest(self.by_day@),
    {
        let ghost table = self.by_day@;
        let days = days_in_order(&self.by_day);
        let mut max: usize = 0;
        let mut i: usize = 0;
        while i < days.len()
            invariant
                i <= days@.len(),
                table == self.by_day@,
                days@.to_set() == table.dom(),
                forall|k: int| 0 <= k < i ==> table_pages(table, #[trigger] days@[k]) <= max,
                max == 0 || exists|day: i64| #[trigger]
                    table.contains_key(day) && table[day] == max,
            decreases days@.len() - i,
        {
            let pages: usize = pages_in_table(&self.by_day, days[i]);
            proof {
                assert(days@.to_set().contains(days@[i as int]));
                assert(table.contains_key(days@[i as int]));
            }
            if pages > max {
                max = pages;
            }
            i = i + 1;
        }
        proof {
            assert forall|day: i64| #[trigger] table.contains_key(day) implies table[day] <= max by {
                assert(days@.to_set().contains(day));
                let k = choose|k: int| 0 <= k < days@.len() && days@[k] == day;
                assert(table_pages(table, days@[k]) <= max);
            }
            lemma_busiest(table, max as int);
        }
        max
    }

    /// Pages read on a given local day index.
    pub fn pages_on(&self, day_index: i64) -> (res: usize)
        ensures
            res == table_pages(self.by_day@, day_index),
    {
        pages_in_table(&self.by_day, day_index)
    }

    /// The level of the heatmap cell for `day`: 0 after today.
    pub open spec fn cell(&self, day: int) -> int {
        if day > self.today {
            0
        } else {
            level(table_pages(self.by_day@, day as i64) as int, busiest(self.by_day@))
        }
    }

    /// The last `weeks` weeks as a GitHub-style intensity grid: one entry per
    /// week column, each holding seven levels in `0..=4`, index 0 = Sunday.
    ///
    /// The window starts `weeks * 7 - 1` days before today and is then rounded
    /// *back* to the preceding Sunday, so columns are whole weeks and the last
    /// column holds today. Cells after today are level 0 — the caller draws the
    /// trailing ones as padding if it wants to, using [`Self::heatmap_start`]
    /// to work out which dates the cells stand for.
    ///
    /// 0 pages is level 0, anything else is `ceil(pages / max_day * 4)` capped
    /// at 4 — a relative scale, so the busiest day is always the darkest square
    /// no matter how much the reader reads. Integer `ceil` here, not floating
    /// point, so the levels are bit-identical on every device.
    pub fn heatmap(&self, weeks: usize) -> (grid: Vec<[u8; 7]>)
        requires
            heatmap_fits(self.today as int, weeks as int),
        ensures
            ({
                let start = heatmap_first_day(self.today as int, weeks as int);
                &&& grid@.len() == (self.today - start) / 7 + 1
                &&& forall|c: int, d: int|
                    0 <= c < grid@.len() && 0 <= d < 7 ==> #[trigger] grid@[c]@[d] == self.cell(
                        start + 7 * c + d,
                    )
            }),
    {
        let max: usize = self.max_day();
        let start: i64 = self.heatmap_start(weeks);
        let mut grid: Vec<[u8; 7]> = Vec::new();
        let mut col_start: i64 = start;
        while col_start <= self.today
            invariant
                heatmap_fits(self.today as int, weeks as int),
                start == heatmap_first_day(self.today as int, weeks as int),
                max == busiest(self.by_day@),
                col_start == start + 7 * grid@.len(),
                start <= self.today,
                col_start <= self.today + 7,
                forall|c: int, d: int|
                    0 <= c < grid@.len() && 0 <= d < 7 ==> #[trigger] grid@[c]@[d] == self.cell(
                        start + 7 * c + d,
                    ),
            decreases self.today + 7 - col_start,
        {
            let mut col: [u8; 7] = [0u8; 7];
            let mut d: usize = 0;
            assert(col_start <= self.today - weekday_of(self.today as int));
            while d < 7
                invariant
                    d <= 7,
                    heatmap_fits(self.today as int, weeks as int),
                    start == heatmap_first_day(self.today as int, weeks as int),
                    start <= col_start <= self.today - weekday_of(self.today as int),
                    max == busiest(self.by_day@),
                    forall|k: int| 0 <= k < d ==> #[trigger] col@[k] == self.cell(col_start + k),
                decreases 7 - d,
            {
                let day: i64 = col_start + d as i64;
                let value: u8 = if day > self.today {
                    0
                } else {
                    quantise(self.pages_on(day), max)
                };
                col[d] = value;
                d = d + 1;
            }
            grid.push(col);
            col_start = col_start + 7;
        }
        grid
    }

    /// The local day index of the first cell (a Sunday) of a `weeks`-wide
    /// [`Self::heatmap`] grid, for labelling months and tooltips.
    pub fn heatmap_start(&self, weeks: usize) -> (res: i64)
        requires
            heatmap_start_fits(self.today as int, weeks as int),
        ensures
            res == heatmap_first_day(self.today as int, weeks as int),
    {
        let span: i64 = if weeks > 0 {
            weeks as i64 * 7 - 1
        } else {
            0
        };
        let start: i64 = self.today - span;
        start - weekday(start) as i64
    }
}

/// A heatmap begins on a Sunday, at or before the first day of its window, and
/// its last column holds today.
pub proof fn heatmap_covers_its_window(today: int, weeks: int)
    requires
        weeks >= 0,
    ensures
        ({
            let start = heatmap_first_day(today, weeks);
            let columns = (today - start) / 7 + 1;
            &&& weekday_of(start) == 0
            &&& start <= today
            &&& weeks > 0 ==> start <= today - (weeks * 7 - 1) < start + 7
            &&& start + 7 * (columns - 1) <= today < start + 7 * columns
        }),
{
}

/// A heatmap has a column per week, and one more when a partial leading week
/// adds it.
pub proof fn heatmap_column_count(today: int, weeks: int)
    requires
        weeks > 0,
    ensures
        (today - heatmap_first_day(today, weeks)) / 7 + 1 == if weekday_of(
            today - (weeks * 7 - 1),
        ) == 0 {
            weeks
        } else {
            weeks + 1
        },
{
}

/// Levels lie in `0..=4`; no reading is level 0.
pub proof fn levels_are_in_range(pages: int, max: int)
    requires
        0 <= pages,
        0 <= max,
    ensures
        0 <= level(pages, max) <= 4,
        pages == 0 ==> level(pages, max) == 0,
{
    if pages > 0 && max > 0 {
        assert((4 * pages + max - 1) / max >= 0) by (nonlinear_arith)
            requires
                pages > 0,
                max > 0,
        ;
    }
}

/// Any reading at all shades the day.
pub proof fn reading_always_shows(pages: int, max: int)
    requires
        0 < pages,
        0 < max,
    ensures
        level(pages, max) >= 1,
{
    assert((4 * pages + max - 1) / max >= 1) by (nonlinear_arith)
        requires
            pages > 0,
            max > 0,
    ;
}

/// The busiest day is always the darkest, no matter how much was read.
pub proof fn busiest_day_is_darkest(max: int)
    requires
        0 < max,
    ensures
        level(max, max) == 4,
{
    assert((4 * max + max - 1) / max == 4) by (nonlinear_arith)
        requires
            max > 0,
    ;
}

/// More pages never shade a day lighter.
pub proof fn levels_grow_with_pages(a: int, b: int, max: int)
    requires
        0 <= a <= b,
        0 <= max,
    ensures
        level(a, max) <= level(b, max),
{
    levels_are_in_range(b, max);
    if a > 0 && max > 0 {
        assert((4 * a + max - 1) / max <= (4 * b + max - 1) / max) by (nonlinear_arith)
            requires
                a <= b,
                max > 0,
        ;
    }
}

/// The current streak is never longer than the longest one.
pub proof fn current_streak_is_bounded(
    by_day: Map<i64, usize>,
    today: int,
    current: int,
    longest: int,
)
    requires
        is_current_streak(by_day, today, current),
        is_longest_streak(by_day, longest),
    ensures
        current <= longest,
{
}

/// No streak is longer than the number of days with reading.
pub proof fn longest_streak_is_bounded(by_day: Map<i64, usize>, longest: int)
    requires
        by_day.dom().finite(),
        is_longest_streak(by_day, longest),
    ensures
        longest <= by_day.dom().len(),
{
    let last = choose|last: int| #[trigger] is_run(by_day, last, longest);
    lemma_run_len(by_day, last, longest);
}

/// Streak lengths are fully determined by the days with reading.
pub proof fn streaks_are_unique(by_day: Map<i64, usize>, today: int, a: int, b: int, c: int, d: int)
    requires
        is_current_streak(by_day, today, a),
        is_current_streak(by_day, today, b),
        is_longest_streak(by_day, c),
        is_longest_streak(by_day, d),
    ensures
        a == b,
        c == d,
{
    let last = streak_end(by_day, today);
    if a < b {
        assert(reads_on(by_day, last - a));
    } else if b < a {
        assert(reads_on(by_day, last - b));
    }
    let x = choose|last: int| #[trigger] is_run(by_day, last, c);
    let y = choose|last: int| #[trigger] is_run(by_day, last, d);
    assert(is_run(by_day, x, c) && is_run(by_day, y, d));
}

/// The pages of some days together.
pub open spec fn days_total(
    rows: Seq<(Seq<char>, ReadingProgress)>,
    tz: &LocalTimeZone,
    days: Seq<int>,
) -> int
    decreases days.len(),
{
    if days.len() == 0 {
        0
    } else {
        days_total(rows, tz, days.drop_last()) + day_total(rows, tz, days.last())
    }
}

proof fn lemma_days_total_step(
    rows: Seq<(Seq<char>, ReadingProgress)>,
    tz: &LocalTimeZone,
    days: Seq<int>,
)
    requires
        rows.len() > 0,
        days.no_duplicates(),
    ensures
        days_total(rows, tz, days) == days_total(rows.drop_last(), tz, days) + if days.contains(
            row_day(tz, rows.last().1),
        ) {
            row_pages(rows.last().1)
        } else {
            0
        },
    decreases days.len(),
{
    if days.len() > 0 {
        let fewer = days.drop_last();
        let day = row_day(tz, rows.last().1);
        lemma_days_total_step(rows, tz, fewer);
        if fewer.contains(day) {
            let i = choose|i: int| 0 <= i < fewer.len() && fewer[i] == day;
            assert(days[i] == day);
            assert(days[days.len() - 1] != day);
        } else if days.contains(day) {
            let i = choose|i: int| 0 <= i < days.len() && days[i] == day;
            if i < fewer.len() {
                assert(fewer[i] == day);
            }
        }
    }
}

/// The pages of all days together are the pages read: no reading is lost or
/// counted twice.
pub proof fn days_add_up(
    rows: Seq<(Seq<char>, ReadingProgress)>,
    tz: &LocalTimeZone,
    days: Seq<int>,
)
    requires
        days.no_duplicates(),
        forall|i: int| 0 <= i < rows.len() ==> days.contains(row_day(tz, (#[trigger] rows[i]).1)),
    ensures
        days_total(rows, tz, days) == pages_total(rows),
    decreases rows.len(),
{
    if rows.len() > 0 {
        let r = rows.drop_last();
        assert forall|i: int| 0 <= i < r.len() implies days.contains(
            row_day(tz, (#[trigger] r[i]).1),
        ) by {
            assert(r[i] == rows[i]);
        }
        days_add_up(r, tz, days);
        assert(rows[rows.len() - 1] == rows.last());
        lemma_days_total_step(rows, tz, days);
    } else {
        lemma_no_rows(tz, days);
        assert(rows =~= Seq::<(Seq<char>, ReadingProgress)>::empty());
    }
}

proof fn lemma_no_rows(tz: &LocalTimeZone, days: Seq<int>)
    ensures
        days_total(Seq::<(Seq<char>, ReadingProgress)>::empty(), tz, days) == 0,
    decreases days.len(),
{
    if days.len() > 0 {
        lemma_no_rows(tz, days.drop_last());
    }
}

proof fn lemma_push_to_set(s: Seq<Seq<char>>, x: Seq<char>)
    ensures
        s.push(x).to_set() == s.to_set().insert(x),
{
    assert forall|y: Seq<char>| s.push(x).to_set().contains(y) <==> s.to_set().insert(x).contains(
        y,
    ) by {
        if s.to_set().contains(y) {
            let i = choose|i: int| 0 <= i < s.len() && s[i] == y;
            assert(s.push(x)[i] == y);
        }
        if y == x {
            assert(s.push(x)[s.len() as int] == x);
        }
        if s.push(x).to_set().contains(y) && y != x {
            let i = choose|i: int| 0 <= i < s.push(x).len() && s.push(x)[i] == y;
            assert(s[i] == y);
        }
    }
    assert(s.push(x).to_set() =~= s.to_set().insert(x));
}

proof fn lemma_take_out(
    rows: Seq<(Seq<char>, ReadingProgress)>,
    tz: &LocalTimeZone,
    i: int,
    day: int,
)
    requires
        0 <= i < rows.len(),
    ensures
        pages_total(rows) == pages_total(rows.remove(i)) + row_pages(rows[i].1),
        finished_total(rows) == finished_total(rows.remove(i)) + if rows[i].1.finished() {
            1int
        } else {
            0int
        },
        day_total(rows, tz, day) == day_total(rows.remove(i), tz, day) + if row_day(tz, rows[i].1)
            == day {
            row_pages(rows[i].1)
        } else {
            0
        },
    decreases rows.len(),
{
    let rest = rows.drop_last();
    if i == rows.len() - 1 {
        assert(rows.remove(i) =~= rest);
    } else {
        lemma_take_out(rest, tz, i, day);
        assert(rows.remove(i).drop_last() =~= rest.remove(i));
        assert(rows.remove(i).last() == rows.last());
    }
}

proof fn lemma_sums_ignore_order(
    a: Seq<(Seq<char>, ReadingProgress)>,
    b: Seq<(Seq<char>, ReadingProgress)>,
    tz: &LocalTimeZone,
    day: int,
)
    requires
        a.to_multiset() == b.to_multiset(),
    ensures
        a.len() == b.len(),
        pages_total(a) == pages_total(b),
        finished_total(a) == finished_total(b),
        day_total(a, tz, day) == day_total(b, tz, day),
    decreases b.len(),
{
    a.to_multiset_ensures();
    b.to_multiset_ensures();
    if b.len() > 0 {
        let last = b.last();
        assert(b.contains(last));
        assert(b.to_multiset().count(last) > 0);
        assert(a.contains(last));
        let i = choose|i: int| 0 <= i < a.len() && a[i] == last;
        let n = b.len() - 1;
        a.to_multiset_ensures();
        assert(a.remove(i).to_multiset() =~= a.to_multiset().remove(last));
        assert(b.remove(n).to_multiset() =~= b.to_multiset().remove(last));
        assert(b.remove(n) =~= b.drop_last());
        lemma_take_out(a, tz, i, day);
        lemma_sums_ignore_order(a.remove(i), b.drop_last(), tz, day);
    }
}

proof fn lemma_active_in_either_order(
    a: Seq<(Seq<char>, ReadingProgress)>,
    b: Seq<(Seq<char>, ReadingProgress)>,
    tz: &LocalTimeZone,
    day: int,
)
    requires
        a.to_multiset() == b.to_multiset(),
        is_active_day(a, tz, day),
    ensures
        is_active_day(b, tz, day),
{
    a.to_multiset_ensures();
    b.to_multiset_ensures();
    let i = choose|i: int| 0 <= i < a.len() && row_day(tz, (#[trigger] a[i]).1) == day;
    assert(a.contains(a[i]));
    assert(a.to_multiset().count(a[i]) > 0);
    assert(b.contains(a[i]));
    let k = choose|k: int| 0 <= k < b.len() && b[k] == a[i];
    assert(row_day(tz, b[k].1) == day);
}

proof fn lemma_series_in_either_order(
    a: Seq<(Seq<char>, ReadingProgress)>,
    b: Seq<(Seq<char>, ReadingProgress)>,
    key: Seq<char>,
)
    requires
        a.to_multiset() == b.to_multiset(),
        series_set(a).contains(key),
    ensures
        series_set(b).contains(key),
{
    a.to_multiset_ensures();
    b.to_multiset_ensures();
    let ka = a.map_values(|r: (Seq<char>, ReadingProgress)| series_key(r.0));
    let kb = b.map_values(|r: (Seq<char>, ReadingProgress)| series_key(r.0));
    let i = choose|i: int| 0 <= i < ka.len() && ka[i] == key;
    assert(a.contains(a[i]));
    assert(a.to_multiset().count(a[i]) > 0);
    assert(b.contains(a[i]));
    let k = choose|k: int| 0 <= k < b.len() && b[k] == a[i];
    assert(kb[k] == key);
}

/// The order in which rows are given does not matter: statistics of some rows
/// are statistics of the same rows in any other order.
pub proof fn order_of_rows_does_not_matter(
    stats: ReadingStats,
    a: Seq<(Seq<char>, ReadingProgress)>,
    b: Seq<(Seq<char>, ReadingProgress)>,
    tz: &LocalTimeZone,
    now_unix: int,
)
    requires
        a.to_multiset() == b.to_multiset(),
        stats.are_of(a, tz, now_unix),
    ensures
        stats.are_of(b, tz, now_unix),
{
    lemma_sums_ignore_order(a, b, tz, 0);
    assert forall|key: Seq<char>| series_set(a).contains(key) <==> series_set(b).contains(key) by {
        if series_set(a).contains(key) {
            lemma_series_in_either_order(a, b, key);
        }
        if series_set(b).contains(key) {
            lemma_series_in_either_order(b, a, key);
        }
    }
    assert(series_set(a) =~= series_set(b));
    assert forall|day: i64| is_active_day(a, tz, day as int) <==> #[trigger] is_active_day(
        b,
        tz,
        day as int,
    ) by {
        if is_active_day(a, tz, day as int) {
            lemma_active_in_either_order(a, b, tz, day as int);
        }
        if is_active_day(b, tz, day as int) {
            lemma_active_in_either_order(b, a, tz, day as int);
        }
    }
    assert forall|day: i64| #[trigger] stats.by_day@.contains_key(day) implies stats.by_day@[day]
        == day_total(b, tz, day as int) by {
        lemma_sums_ignore_order(a, b, tz, day as int);
    }
    assert(is_day_table(stats.by_day@, b, tz));
}

/// A chapter counts for the page that the reader is on and those before it, but
/// for no more than it has, where that is known.
pub proof fn pages_are_counted_up_to_the_last(p: ReadingProgress)
    requires
        p.current_page < usize::MAX,
    ensures
        p.total_pages == 0 ==> row_pages(p) == p.current_page + 1,
        p.total_pages > 0 && p.current_page < p.total_pages ==> row_pages(p) == p.current_page + 1,
        p.total_pages > 0 && p.current_page >= p.total_pages ==> row_pages(p) == p.total_pages,
{
}

/// Sums over rows take each row in once: its pages, whether its last page was
/// reached, the local day of its time, and its series.
pub proof fn sums_take_each_row_in(
    rows: Seq<(Seq<char>, ReadingProgress)>,
    key: Seq<char>,
    p: ReadingProgress,
    tz: &LocalTimeZone,
    day: int,
)
    ensures
        pages_total(Seq::empty()) == 0,
        finished_total(Seq::empty()) == 0,
        day_total(Seq::empty(), tz, day) == 0,
        series_set(Seq::empty()) == Set::<Seq<char>>::empty(),
        pages_total(rows.push((key, p))) == pages_total(rows) + row_pages(p),
        p.total_pages > 0 && p.current_page + 1 >= p.total_pages ==> finished_total(
            rows.push((key, p)),
        ) == finished_total(rows) + 1,
        p.total_pages == 0 || p.current_page + 1 < p.total_pages ==> finished_total(
            rows.push((key, p)),
        ) == finished_total(rows),
        tz.local_day(p.last_read_at as i64 as int) == day ==> day_total(
            rows.push((key, p)),
            tz,
            day,
        ) == day_total(rows, tz, day) + row_pages(p),
        tz.local_day(p.last_read_at as i64 as int) != day ==> day_total(
            rows.push((key, p)),
            tz,
            day,
        ) == day_total(rows, tz, day),
        series_set(rows.push((key, p))) == series_set(rows).insert(series_key(key)),
{
    let more = rows.push((key, p));
    let keys = |r: (Seq<char>, ReadingProgress)| series_key(r.0);
    assert(more.drop_last() =~= rows);
    assert(more.map_values(keys) =~= rows.map_values(keys).push(series_key(key)));
    lemma_push_to_set(rows.map_values(keys), series_key(key));
    let none = Seq::<(Seq<char>, ReadingProgress)>::empty();
    assert(none.map_values(keys) =~= Seq::<Seq<char>>::empty());
    assert(series_set(none) =~= Set::<Seq<char>>::empty());
}

/// A chapter belongs to the top-level directory of its key; a loose file is its
/// own series.
pub proof fn series_is_the_top_level_directory(top: Seq<char>, rest: Seq<char>)
    requires
        !top.contains('/'),
    ensures
        series_key(top) == top,
        series_key(top + seq!['/'] + rest) == top,
{
    crate::text::separators_cut(top, rest, '/');
}

/// The table of days has a day exactly when some row was last read on it, and it
/// has the pages of those rows.
pub proof fn days_have_their_reading(
    stats: ReadingStats,
    rows: Seq<(Seq<char>, ReadingProgress)>,
    tz: &LocalTimeZone,
    now_unix: int,
    day: i64,
)
    requires
        stats.are_of(rows, tz, now_unix),
    ensures
        stats.by_day@.contains_key(day) <==> exists|i: int|
            0 <= i < rows.len() && tz.local_day((#[trigger] rows[i]).1.last_read_at as i64 as int)
                == day,
        stats.by_day@.contains_key(day) ==> stats.by_day@[day] == day_total(rows, tz, day as int),
        stats.active_days == stats.by_day@.dom().len(),
        stats.today == tz.local_day(now_unix),
        stats.chapters_tracked == rows.len(),
        stats.chapters_finished == finished_total(rows),
        stats.pages_read == pages_total(rows),
        stats.series_count == series_set(rows).len(),
{
    if is_active_day(rows, tz, day as int) {
        assert(stats.by_day@.contains_key(day));
    }
    if exists|i: int|
        0 <= i < rows.len() && tz.local_day((#[trigger] rows[i]).1.last_read_at as i64 as int)
            == day {
        let i = choose|i: int|
            0 <= i < rows.len() && tz.local_day((#[trigger] rows[i]).1.last_read_at as i64 as int)
                == day;
        assert(row_day(tz, rows[i].1) == day);
    }
}

/// The current streak ends today or, where today has no reading yet, yesterday;
/// each of its days has reading, and the day before it has not.
pub proof fn current_streak_is_unbroken(
    stats: ReadingStats,
    rows: Seq<(Seq<char>, ReadingProgress)>,
    tz: &LocalTimeZone,
    now_unix: int,
    back: int,
)
    requires
        stats.are_of(rows, tz, now_unix),
        i64::MIN <= stats.today - 1 - back,
        0 <= back <= stats.current_streak,
    ensures
        stats.by_day@.contains_key(stats.today) && back < stats.current_streak
            ==> stats.by_day@.contains_key((stats.today - back) as i64),
        stats.by_day@.contains_key(stats.today) && back == stats.current_streak
            ==> !stats.by_day@.contains_key((stats.today - back) as i64),
        !stats.by_day@.contains_key(stats.today) && back < stats.current_streak
            ==> stats.by_day@.contains_key((stats.today - 1 - back) as i64),
        !stats.by_day@.contains_key(stats.today) && back == stats.current_streak
            ==> !stats.by_day@.contains_key((stats.today - 1 - back) as i64),
        stats.by_day@.contains_key(stats.today) ==> stats.current_streak > 0,
{
    let table = stats.by_day@;
    let last = streak_end(table, stats.today as int);
    assert(reads_on(table, stats.today as int) == table.contains_key(stats.today));
    if back < stats.current_streak {
        assert(reads_on(table, last - back));
    } else {
        assert(!reads_on(table, last - back));
    }
}

/// Days in a row with reading are a streak, and the longest one is as long as the
/// longest of them: `n` days from `first` on that have reading make it at least
/// `n` days long, and there are as many days in a row as it is long.
pub proof fn longest_streak_is_the_longest(
    stats: ReadingStats,
    rows: Seq<(Seq<char>, ReadingProgress)>,
    tz: &LocalTimeZone,
    now_unix: int,
    first: int,
    n: int,
) -> (start: int)
    requires
        stats.are_of(rows, tz, now_unix),
        i64::MIN <= first,
        0 <= n,
        first + n <= i64::MAX,
    ensures
        (forall|day: i64| first <= day < first + n ==> #[trigger] stats.by_day@.contains_key(day))
            ==> n <= stats.longest_streak,
        stats.longest_streak > 0 ==> i64::MIN <= start && start + stats.longest_streak - 1
            <= i64::MAX,
        forall|day: i64|
            start <= day < start + stats.longest_streak ==> #[trigger] stats.by_day@.contains_key(
                day,
            ),
{
    let table = stats.by_day@;
    if forall|day: i64| first <= day < first + n ==> #[trigger] table.contains_key(day) {
        assert forall|day: int| first - 1 < day <= first + n - 1 implies #[trigger] reads_on(
            table,
            day,
        ) by {
            assert(table.contains_key(day as i64));
        }
        assert(is_run(table, first + n - 1, n));
    }
    let longest = stats.longest_streak as int;
    let last = choose|last: int| #[trigger] is_run(table, last, longest);
    let start = last - longest + 1;
    assert forall|day: i64| start <= day < start + longest implies #[trigger] table.contains_key(
        day,
    ) by {
        assert(reads_on(table, day as int));
    }
    if longest > 0 {
        assert(reads_on(table, start));
        assert(reads_on(table, last));
    }
    start
}

/// The first day is the earliest day with reading, or 0 where that is negative;
/// there is none exactly when there is no row.
pub proof fn first_day_is_the_earliest(
    stats: ReadingStats,
    rows: Seq<(Seq<char>, ReadingProgress)>,
    tz: &LocalTimeZone,
    now_unix: int,
    day: i64,
)
    requires
        stats.are_of(rows, tz, now_unix),
        stats.by_day@.contains_key(day),
    ensures
        stats.first_day is Some,
        day >= 0 ==> stats.first_day->0 <= day,
        day < 0 ==> stats.first_day == Some(0u64),
        stats.first_day->0 > 0 ==> stats.by_day@.contains_key(stats.first_day->0 as i64),
        stats.first_day == Some(0u64) ==> exists|d: i64| #[trigger]
            stats.by_day@.contains_key(d) && d <= 0,
{
    assert(is_active_day(rows, tz, day as int));
    let first = choose|first: int| #[trigger]
        is_first_day(stats.by_day@, first) && stats.first_day == Some(
            (if first < 0 {
                0
            } else {
                first
            }) as u64,
        );
    assert(reads_on(stats.by_day@, first));
    assert(reads_on(stats.by_day@, day as int));
    assert(stats.by_day@.contains_key(first as i64));
}

/// Without rows there is nothing to tell.
pub proof fn nothing_read_is_nothing_told(
    stats: ReadingStats,
    tz: &LocalTimeZone,
    now_unix: int,
)
    requires
        stats.are_of(Seq::empty(), tz, now_unix),
    ensures
        stats.chapters_tracked == 0,
        stats.chapters_finished == 0,
        stats.pages_read == 0,
        stats.series_count == 0,
        stats.active_days == 0,
        stats.first_day is None,
        stats.current_streak == 0,
        stats.longest_streak == 0,
        forall|day: i64| !#[trigger] stats.by_day@.contains_key(day),
{
    let none = Seq::<(Seq<char>, ReadingProgress)>::empty();
    let table = stats.by_day@;
    assert forall|day: i64| !#[trigger] table.contains_key(day) by {
        assert(table.contains_key(day) <==> is_active_day(none, tz, day as int));
    }
    assert(table.dom() =~= Set::<i64>::empty());
    let keys = |r: (Seq<char>, ReadingProgress)| series_key(r.0);
    assert(none.map_values(keys) =~= Seq::<Seq<char>>::empty());
    assert(series_set(none) =~= Set::<Seq<char>>::empty());
    let last = streak_end(table, stats.today as int);
    if stats.current_streak > 0 {
        assert(reads_on(table, last));
    }
    if stats.longest_streak > 0 {
        let end = choose|end: int| #[trigger] is_run(table, end, stats.longest_streak as int);
        assert(reads_on(table, end));
    }
}

/// A level is the number of quarters of the busiest day that the pages reach
/// into: one more would be out of reach, one less is exceeded.
pub proof fn levels_are_quarters(pages: int, max: int)
    requires
        0 < pages <= max,
    ensures
        (level(pages, max) - 1) * max < 4 * pages <= level(pages, max) * max,
        level(0, max) == 0,
        level(pages, 0) == 0,
{
    let q = (4 * pages + max - 1) / max;
    assert((q - 1) * max < 4 * pages <= q * max && q <= 4) by (nonlinear_arith)
        requires
            q == (4 * pages + max - 1) / max,
            0 < pages <= max,
    ;
}

/// The busiest day's page count is that of some day and no day exceeds it.
pub proof fn busiest_day_is_the_maximum(by_day: Map<i64, usize>, max: int, day: i64)
    requires
        is_busiest(by_day, max),
    ensures
        busiest(by_day) == max,
        by_day.contains_key(day) ==> by_day[day] <= max,
        max > 0 ==> exists|d: i64| #[trigger] by_day.contains_key(d) && by_day[d] == max,
        max >= 0,
{
    lemma_busiest(by_day, max);
}

/// A day has the pages that the table has for it, and none where it has no entry.
pub proof fn days_without_reading_have_no_pages(by_day: Map<i64, usize>, day: i64)
    ensures
        by_day.contains_key(day) ==> table_pages(by_day, day) == by_day[day],
        !by_day.contains_key(day) ==> table_pages(by_day, day) == 0,
{
}

/// A heatmap cell shades its day by the day's pages against the busiest day; what
/// is after today or has no reading stays blank.
pub proof fn cells_shade_their_days(stats: ReadingStats, max: int, day: i64)
    requires
        is_busiest(stats.by_day@, max),
    ensures
        day > stats.today ==> stats.cell(day as int) == 0,
        !stats.by_day@.contains_key(day) ==> stats.cell(day as int) == 0,
        day <= stats.today && stats.by_day@.contains_key(day) && stats.by_day@[day] > 0 ==> {
            let pages = stats.by_day@[day] as int;
            let shade = stats.cell(day as int);
            1 <= shade <= 4 && (shade - 1) * max < 4 * pages <= shade * max
        },
{
    lemma_busiest(stats.by_day@, max);
    if stats.by_day@.contains_key(day) && stats.by_day@[day] > 0 {
        let pages = stats.by_day@[day] as int;
        levels_are_quarters(pages, max);
        reading_always_shows(pages, max);
        levels_are_in_range(pages, max);
    }
}

/// A heatmap without weeks is the week of today.
pub proof fn no_weeks_are_this_week(today: int)
    ensures
        heatmap_first_day(today, 0) <= today < heatmap_first_day(today, 0) + 7,
        weekday_of(heatmap_first_day(today, 0)) == 0,
{
}

/// A heatmap can be drawn unless day indices run out, and sums can be computed
/// unless they run over.
pub proof fn only_machine_limits_stand_in_the_way(
    today: int,
    weeks: int,
    rows: Seq<(Seq<char>, ReadingProgress)>,
)
    requires
        0 <= weeks,
    ensures
        weeks * 7 <= i64::MAX && i64::MIN + 6 <= today - weeks * 7 && today <= i64::MAX - 7
            ==> heatmap_start_fits(today, weeks) && heatmap_fits(today, weeks),
        rows.len() <= usize::MAX && pages_total(rows) <= usize::MAX && (forall|i: int|
            0 <= i < rows.len() ==> (#[trigger] rows[i]).1.current_page < usize::MAX) ==> rows_fit(
            rows,
        ),
{
}

} // verus!
