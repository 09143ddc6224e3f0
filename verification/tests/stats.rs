use gideon_core::stats::{
    civil_from_days, days_from_civil, pages_of, quantise, series_key_of, streaks, sums_fit, weekday,
    LocalTimeZone, ReadingStats, SECS_PER_DAY,
};
use gideon_core::timezone::system_tzif_paths;
use gideon_core::{ProgressStore, ReadingProgress};
use std::collections::BTreeMap;

/// UTC-05:00 — a zone where UTC bucketing visibly breaks, which is the
/// whole point of the local-day work.
fn tz_new_york_winter() -> LocalTimeZone {
    LocalTimeZone::fixed(-5 * 3600)
}

/// Unix seconds for a local wall-clock instant in a fixed-offset zone.
fn local(tz: &LocalTimeZone, y: i32, m: u32, d: u32, hour: u32) -> u64 {
    let secs = days_from_civil(y, m, d) * SECS_PER_DAY + hour as i64 * 3600;
    (secs - tz.offset_at(secs) as i64) as u64
}

fn progress(page: usize, total: usize, at: u64) -> ReadingProgress {
    ReadingProgress {
        current_page: page,
        total_pages: total,
        last_read_at: at,
    }
}

fn stats(rows: &[(&str, ReadingProgress)], tz: &LocalTimeZone, now: u64) -> ReadingStats {
    ReadingStats::compute(rows, tz, now as i64)
}

#[test]
fn civil_date_round_trips_across_leap_years_and_centuries() {
    for &(y, m, d) in &[
        (1970, 1, 1),
        (1969, 12, 31),
        (2000, 2, 29), // leap century
        (1900, 3, 1),  // non-leap century
        (2024, 2, 29),
        (2026, 8, 17),
        (2100, 12, 31),
    ] {
        let days = days_from_civil(y, m, d);
        assert_eq!(civil_from_days(days), (y, m, d), "round trip {y}-{m}-{d}");
    }
    assert_eq!(days_from_civil(1970, 1, 1), 0);
    assert_eq!(days_from_civil(1969, 12, 31), -1);
    // 1970-01-01 was a Thursday (4), 1970-01-04 a Sunday (0).
    assert_eq!(weekday(0), 4);
    assert_eq!(weekday(3), 0);
    assert_eq!(weekday(-1), 3); // Wednesday
}

#[test]
fn consecutive_dates_have_consecutive_days() {
    assert_eq!(days_from_civil(2024, 3, 1) - days_from_civil(2024, 2, 28), 2);
    assert_eq!(days_from_civil(2023, 3, 1) - days_from_civil(2023, 2, 28), 1);
    assert_eq!(days_from_civil(1900, 3, 1) - days_from_civil(1900, 2, 28), 1);
    assert_eq!(days_from_civil(2000, 3, 1) - days_from_civil(2000, 2, 28), 2);
    assert_eq!(days_from_civil(2027, 1, 1) - days_from_civil(2026, 12, 31), 1);
    // Month and day may run past the calendar; the count goes on.
    assert_eq!(days_from_civil(2026, 3, 32), days_from_civil(2026, 4, 1));
    assert_eq!(days_from_civil(-400, 3, 1), -719468 - 146097);
    // Any year will do.
    assert_eq!(days_from_civil(i32::MIN, 2, 29), -784353015774);
    assert_eq!(days_from_civil(i32::MIN, 3, 1), -784353015773);
    for day in -1000..1000 {
        let (y, m, d) = civil_from_days(day);
        assert_eq!(days_from_civil(y, m, d), day);
    }
}

#[test]
fn local_day_bucketing_differs_from_utc_for_an_evening_read() {
    let tz = tz_new_york_winter();
    // 21:00 local on 10 March is 02:00 UTC on 11 March. Bucketing in UTC
    // would put this on the wrong day and break the streak below.
    let ts = local(&tz, 2026, 3, 10, 21) as i64;
    assert_eq!(tz.day_index(ts), days_from_civil(2026, 3, 10));
    assert_eq!(
        LocalTimeZone::utc().day_index(ts),
        days_from_civil(2026, 3, 11),
        "sanity: UTC really does disagree here"
    );
}

#[test]
fn instants_before_the_epoch_land_on_the_day_before() {
    assert_eq!(LocalTimeZone::fixed(0).day_index(-1), -1);
    assert_eq!(LocalTimeZone::fixed(0).day_index(0), 0);
    assert_eq!(LocalTimeZone::fixed(3600).day_index(-3600), 0);
    assert_eq!(LocalTimeZone::fixed(-1).day_index(0), -1);
    assert_eq!(
        LocalTimeZone::fixed(i32::MAX).day_index(i64::MAX),
        ((i64::MAX as i128 + i32::MAX as i128) / 86_400) as i64
    );
}

#[test]
fn empty_store_is_all_zeroes() {
    let tz = tz_new_york_winter();
    let now = local(&tz, 2026, 8, 17, 12);
    let s = stats(&[], &tz, now);

    assert_eq!(s.chapters_tracked, 0);
    assert_eq!(s.chapters_finished, 0);
    assert_eq!(s.pages_read, 0);
    assert_eq!(s.series_count, 0);
    assert_eq!(s.active_days, 0);
    assert_eq!(s.first_day, None);
    assert_eq!(s.current_streak, 0);
    assert_eq!(s.longest_streak, 0);
    assert!(s.by_day.is_empty());
    assert_eq!(s.max_day(), 0);
    // An empty heatmap is still a grid of the right shape, all level 0.
    let grid = s.heatmap(18);
    assert!(grid.iter().all(|c| c.iter().all(|&l| l == 0)));
}

#[test]
fn from_store_matches_a_hand_built_store() {
    // Exercises the ProgressStore wiring itself; the numbers are trivial
    // because the clock is the real one here.
    let mut store = ProgressStore::default();
    store.update("Berserk/vol1.cbz", 9, 20);
    store.update("Berserk/vol2.cbz", 4, 20);
    let s = ReadingStats::from_store(&store, &LocalTimeZone::system(&Vec::new()));
    assert_eq!(s.chapters_tracked, 2);
    assert_eq!(s.pages_read, 15);
    assert_eq!(s.series_count, 1);
    assert_eq!(s.active_days, 1, "both rows were written just now");
    assert_eq!(s.current_streak, 1);
}

#[test]
fn a_single_chapter_counts_one_of_everything() {
    let tz = tz_new_york_winter();
    let now = local(&tz, 2026, 8, 17, 9);
    let read_at = local(&tz, 2026, 8, 17, 8);
    let s = stats(
        &[("One Piece/vol2.cbz", progress(5, 200, read_at))],
        &tz,
        now,
    );

    assert_eq!(s.chapters_tracked, 1);
    assert_eq!(s.chapters_finished, 0);
    assert_eq!(s.pages_read, 6, "current_page is zero-based, so 5 -> 6");
    assert_eq!(s.series_count, 1);
    assert_eq!(s.active_days, 1);
    assert_eq!(s.first_day, Some(days_from_civil(2026, 8, 17) as u64));
    assert_eq!(s.current_streak, 1);
    assert_eq!(s.longest_streak, 1);
    assert_eq!(s.pages_on(days_from_civil(2026, 8, 17)), 6);
}

#[test]
fn finished_pages_are_clamped_and_series_are_top_level_dirs() {
    let tz = LocalTimeZone::fixed(0);
    let day = local(&tz, 2026, 8, 17, 12);
    let s = stats(
        &[
            ("Berserk/vol1.cbz", progress(19, 20, day)), // finished, 20 pages
            ("Berserk/Deluxe/vol2.cbz", progress(3, 10, day)), // same series
            ("One Piece/vol1.cbz", progress(50, 20, day)), // stale total: clamped
            ("loose.cbz", progress(2, 0, day)),          // unknown total: no clamp
        ],
        &tz,
        day,
    );

    assert_eq!(s.chapters_tracked, 4);
    assert_eq!(s.chapters_finished, 2, "the 20/20 and the over-run 51/20");
    assert_eq!(s.pages_read, 20 + 4 + 20 + 3);
    assert_eq!(
        s.series_count, 3,
        "Berserk/Deluxe belongs to Berserk; a root file is its own series"
    );
}

#[test]
fn a_gap_breaks_the_current_streak_but_not_the_longest() {
    let tz = tz_new_york_winter();
    // Read the 1st-4th (four days), skip the 5th and 6th, read the 7th-8th.
    let mut rows = Vec::new();
    for day in [1u32, 2, 3, 4, 7, 8] {
        rows.push((
            "Series/vol.cbz",
            progress(0, 10, local(&tz, 2026, 6, day, 20)),
        ));
    }
    // Distinct keys, otherwise they would be one chapter; the map is keyed
    // by chapter so reuse the day in the key.
    let keys: Vec<String> = (0..rows.len())
        .map(|i| format!("Series/v{i}.cbz"))
        .collect();
    let rows: Vec<(&str, ReadingProgress)> = keys
        .iter()
        .zip(&rows)
        .map(|(k, (_, p))| (k.as_str(), *p))
        .collect();

    let now = local(&tz, 2026, 6, 8, 23);
    let s = stats(&rows, &tz, now);

    assert_eq!(s.active_days, 6);
    assert_eq!(s.longest_streak, 4, "the 1st through the 4th");
    assert_eq!(s.current_streak, 2, "the 7th and 8th, ending today");

    // Two days later, with nothing read since, the current streak is gone
    // while the longest is remembered.
    let later = local(&tz, 2026, 6, 10, 12);
    let s = stats(&rows, &tz, later);
    assert_eq!(s.current_streak, 0);
    assert_eq!(s.longest_streak, 4);

    // The morning after the last read still counts: reading yesterday but
    // not yet today keeps the streak alive.
    let next_morning = local(&tz, 2026, 6, 9, 7);
    assert_eq!(stats(&rows, &tz, next_morning).current_streak, 2);
}

#[test]
fn a_streak_spans_a_month_boundary() {
    let tz = tz_new_york_winter();
    // 28 Feb 2026 (a non-leap year) through 3 Mar: the calendar rolls over
    // both a short month and a month length, which day-index arithmetic
    // handles but naive "same date + 1" logic would not.
    let days = [
        (2026, 2, 27),
        (2026, 2, 28),
        (2026, 3, 1),
        (2026, 3, 2),
        (2026, 3, 3),
    ];
    let rows: Vec<(String, ReadingProgress)> = days
        .iter()
        .enumerate()
        .map(|(i, &(y, m, d))| {
            (
                format!("Series/v{i}.cbz"),
                progress(4, 10, local(&tz, y, m, d, 22)),
            )
        })
        .collect();
    let rows: Vec<(&str, ReadingProgress)> = rows.iter().map(|(k, p)| (k.as_str(), *p)).collect();

    let now = local(&tz, 2026, 3, 3, 23);
    let s = stats(&rows, &tz, now);
    assert_eq!(s.active_days, 5);
    assert_eq!(s.longest_streak, 5, "27 Feb → 3 Mar is unbroken");
    assert_eq!(s.current_streak, 5);
    assert_eq!(s.first_day, Some(days_from_civil(2026, 2, 27) as u64));

    // And across a leap day, where February has 29 days.
    let leap: Vec<(String, ReadingProgress)> = [(2024, 2, 28), (2024, 2, 29), (2024, 3, 1)]
        .iter()
        .enumerate()
        .map(|(i, &(y, m, d))| {
            (
                format!("S/v{i}.cbz"),
                progress(0, 10, local(&tz, y, m, d, 10)),
            )
        })
        .collect();
    let leap: Vec<(&str, ReadingProgress)> = leap.iter().map(|(k, p)| (k.as_str(), *p)).collect();
    let s = stats(&leap, &tz, local(&tz, 2024, 3, 1, 12));
    assert_eq!(s.longest_streak, 3);
}

#[test]
fn heatmap_grid_shape_and_quantisation() {
    let tz = LocalTimeZone::fixed(0);
    let today = days_from_civil(2026, 8, 17); // a Monday
    let now = (today * SECS_PER_DAY + 12 * 3600) as u64;

    // A busiest day of 40 pages makes the level thresholds 1..=10, 11..=20,
    // 21..=30, 31..=40.
    let rows: Vec<(String, ReadingProgress)> =
        [(0i64, 40usize), (1, 30), (2, 21), (3, 11), (4, 1)]
            .iter()
            .enumerate()
            .map(|(i, &(back, pages))| {
                let at = ((today - back) * SECS_PER_DAY + 10 * 3600) as u64;
                (format!("S/v{i}.cbz"), progress(pages - 1, pages, at))
            })
            .collect();
    let rows: Vec<(&str, ReadingProgress)> = rows.iter().map(|(k, p)| (k.as_str(), *p)).collect();
    let s = stats(&rows, &tz, now);
    assert_eq!(s.max_day(), 40);

    const WEEKS: usize = 18;
    let start = s.heatmap_start(WEEKS);
    assert_eq!(weekday(start), 0, "the grid always begins on a Sunday");
    assert!(start <= s.today - (WEEKS as i64 * 7 - 1));

    let grid = s.heatmap(WEEKS);
    assert_eq!(
        grid.len(),
        WEEKS + 1,
        "a partial leading week adds a column"
    );
    assert!(grid.iter().all(|c| c.len() == 7));

    // Look the five active days up by position in the grid.
    let level_at = |day: i64| -> u8 {
        let off = (day - start) as usize;
        grid[off / 7][off % 7]
    };
    assert_eq!(level_at(today), 4, "40/40 -> 4");
    assert_eq!(level_at(today - 1), 3, "30/40 -> ceil(3.0) = 3");
    assert_eq!(level_at(today - 2), 3, "21/40 -> ceil(2.1) = 3");
    assert_eq!(level_at(today - 3), 2, "11/40 -> ceil(1.1) = 2");
    assert_eq!(level_at(today - 4), 1, "1/40 -> ceil(0.1) = 1, never 0");
    assert_eq!(level_at(today - 5), 0, "a day with no reading");

    // Today is a Monday, so the rest of its column is future padding.
    let last = grid.last().unwrap();
    assert_eq!(last[weekday(today) as usize], 4);
    assert!(
        last[(weekday(today) + 1) as usize..]
            .iter()
            .all(|&l| l == 0),
        "days after today are level 0 padding"
    );

    // Every level stays in range for a pathological single-page maximum.
    let one = stats(&[("S/v.cbz", progress(0, 1, now))], &tz, now);
    assert!(one.heatmap(4).iter().all(|c| c.iter().all(|&l| l <= 4)));
    assert_eq!(quantise(0, 0), 0, "no data means no shading");
    assert_eq!(quantise(7, 7), 4);
}

#[test]
fn a_window_that_starts_on_a_sunday_adds_no_column() {
    let tz = LocalTimeZone::fixed(0);
    // 2026-08-22 is a Saturday, so whole weeks end with it.
    let today = days_from_civil(2026, 8, 22);
    let s = stats(&[], &tz, (today * SECS_PER_DAY) as u64);
    assert_eq!(weekday(today), 6);
    assert_eq!(s.heatmap(3).len(), 3);
    assert_eq!(s.heatmap_start(3), today - 20);
    assert_eq!(s.heatmap(0).len(), 1);
    assert_eq!(s.heatmap_start(0), today - 6);
}

#[test]
fn quantisation_is_monotone_and_caps() {
    assert_eq!(quantise(1, 1000), 1);
    assert_eq!(quantise(250, 1000), 1);
    assert_eq!(quantise(251, 1000), 2);
    assert_eq!(quantise(9, 3), 4);
    assert_eq!(quantise(0, 5), 0);
    assert_eq!(quantise(usize::MAX, usize::MAX), 4, "no matter how much was read");
    assert_eq!(quantise(usize::MAX / 2, usize::MAX), 2);
    for p in 0..40 {
        assert!(quantise(p, 40) <= quantise(p + 1, 40));
    }
}

#[test]
fn streak_lengths_follow_the_days() {
    let table: BTreeMap<i64, usize> = [(1, 5), (2, 1), (3, 1), (7, 2)].into_iter().collect();
    assert_eq!(streaks(&table, 3), (3, 3));
    assert_eq!(streaks(&table, 4), (3, 3));
    assert_eq!(streaks(&table, 5), (0, 3));
    assert_eq!(streaks(&table, 8), (1, 3));
    assert_eq!(streaks(&BTreeMap::new(), 8), (0, 0));
}

#[test]
fn rows_are_attributed_to_series_and_pages() {
    assert_eq!(series_key_of("Series/vol3.cbz"), "Series");
    assert_eq!(series_key_of("loose.cbz"), "loose.cbz");
    assert_eq!(series_key_of("/odd"), "");
    assert_eq!(pages_of(&progress(0, 10, 0)), 1);
    assert_eq!(pages_of(&progress(30, 10, 0)), 10);
    assert_eq!(pages_of(&progress(30, 0, 0)), 31);
    assert_eq!(pages_of(&progress(usize::MAX, 0, 0)), usize::MAX);
}

#[test]
fn the_days_add_up_to_the_pages_read() {
    let tz = LocalTimeZone::fixed(3600);
    let rows = [
        ("a/1", progress(4, 10, 100)),
        ("a/2", progress(0, 10, 90_000)),
        ("b/1", progress(9, 10, 90_500)),
    ];
    let s = stats(&rows, &tz, 100_000);
    assert_eq!(s.pages_read, 16);
    assert_eq!(s.by_day.values().sum::<usize>(), 16);
    assert_eq!(s.max_day(), 11);
    assert_eq!(s.current_streak, 2);
    assert!(s.current_streak <= s.longest_streak && s.longest_streak <= s.active_days);
}

#[test]
fn sums_that_do_not_fit_are_told_apart() {
    assert!(sums_fit(&[]));
    assert!(sums_fit(&[("a", progress(4, 10, 0)), ("b", progress(usize::MAX - 6, 0, 0))]));
    assert!(!sums_fit(&[("a", progress(5, 10, 0)), ("b", progress(usize::MAX - 6, 0, 0))]));
    assert!(!sums_fit(&[("a", progress(usize::MAX, 10, 0))]));
    assert!(sums_fit(&[("a", progress(usize::MAX, 0, 0))]));
}

#[test]
fn a_clock_before_the_epoch_saturates_the_first_day() {
    let tz = LocalTimeZone::fixed(0);
    let s = stats(&[("a/1", progress(0, 1, (-5i64) as u64))], &tz, 0);
    assert_eq!(s.first_day, Some(0));
    assert_eq!(s.pages_on(-1), 1);
}

#[test]
fn tzif_parsing_survives_garbage_and_falls_back_to_utc() {
    assert!(LocalTimeZone::from_tzif(b"").is_none());
    assert!(LocalTimeZone::from_tzif(b"not a tzif file at all").is_none());
    // Right magic, truncated body: still no panic, still None.
    assert!(LocalTimeZone::from_tzif(b"TZif2\0\0\0").is_none());
    assert!(LocalTimeZone::utc().is_utc_fallback());
    assert!(!LocalTimeZone::fixed(0).is_utc_fallback());
}

fn header(version: u8, counts: [u32; 6]) -> Vec<u8> {
    let mut f = Vec::new();
    f.extend_from_slice(b"TZif");
    f.push(version);
    f.extend_from_slice(&[0u8; 15]);
    for count in counts {
        f.extend_from_slice(&count.to_be_bytes()); // isut, isstd, leap, time, type, char
    }
    f
}

#[test]
fn tzif_transitions_pick_the_offset_in_force_at_each_timestamp() {
    // A hand-built v1 TZif with one transition: -05:00 before it, -04:00
    // after — i.e. a DST start. A timestamp from before the transition
    // must still use the winter offset.
    let switch = local(&LocalTimeZone::fixed(-5 * 3600), 2026, 3, 8, 2) as i64;
    let mut f = header(b'1', [0, 0, 0, 1, 2, 0]);
    f.extend_from_slice(&(switch as i32).to_be_bytes());
    f.push(1); // that transition uses type 1
    f.extend_from_slice(&(-5i32 * 3600).to_be_bytes());
    f.extend_from_slice(&[0, 0]); // type 0: standard
    f.extend_from_slice(&(-4i32 * 3600).to_be_bytes());
    f.extend_from_slice(&[1, 0]); // type 1: DST

    let tz = LocalTimeZone::from_tzif(&f).expect("parses");
    assert_eq!(tz.offset_at(switch - 1), -5 * 3600);
    assert_eq!(tz.offset_at(switch), -4 * 3600);
    assert_eq!(tz.offset_at(switch + 86_400), -4 * 3600);
    assert!(!tz.is_utc_fallback());

    // The spring-forward day is only 23 hours of UTC long, so day indices
    // must come from the *local* clock: 22 hours after the 02:00 switch it
    // is 01:00 the next local day, one day index later — while a UTC
    // bucketing would still call it the same day.
    let before = tz.day_index(switch - 3600); // 01:00 local, before the jump
    let after = tz.day_index(switch + 22 * 3600); // 01:00 local, next day
    assert_eq!(after - before, 1);
    assert_eq!(civil_from_days(before), (2026, 3, 8));
    assert_eq!(civil_from_days(after), (2026, 3, 9));
}

/// A version 2 file: a stub first block, then a wide block with two
/// transitions, the first of them beyond 32 bits, and a type index that is out
/// of range in a third.
fn version_two() -> Vec<u8> {
    let mut f = header(b'2', [0, 0, 1, 0, 1, 2]);
    f.extend_from_slice(&[0, 0, 0, 0, 0, 0]); // one type
    f.extend_from_slice(&[b'X', 0]); // designations
    f.extend_from_slice(&[0u8; 8]); // a leap second record
    f.extend_from_slice(&header(b'2', [1, 1, 1, 3, 2, 4]));
    f.extend_from_slice(&(-5_000_000_000i64).to_be_bytes());
    f.extend_from_slice(&0i64.to_be_bytes());
    f.extend_from_slice(&100i64.to_be_bytes());
    f.extend_from_slice(&[1, 0, 9]);
    f.extend_from_slice(&7200i32.to_be_bytes());
    f.extend_from_slice(&[1, 0]);
    f.extend_from_slice(&3600i32.to_be_bytes());
    f.extend_from_slice(&[0, 0]);
    f.extend_from_slice(b"ABC\0");
    f.extend_from_slice(&[0u8; 12]);
    f.extend_from_slice(&[0, 0]);
    f
}

#[test]
fn tzif_later_versions_use_the_wide_block() {
    let tz = LocalTimeZone::from_tzif(&version_two()).expect("parses");
    assert_eq!(tz.offset_at(-5_000_000_001), 3600, "the first type that is not DST");
    assert_eq!(tz.offset_at(-5_000_000_000), 3600);
    assert_eq!(tz.offset_at(-1), 3600);
    assert_eq!(tz.offset_at(0), 7200);
    assert_eq!(tz.offset_at(100), 7200, "a transition to no type is dropped");
    // Every byte counts.
    let mut cut = version_two();
    cut.pop();
    assert!(LocalTimeZone::from_tzif(&cut).is_none());
}

#[test]
fn tzif_first_block_is_discarded_in_later_versions() {
    let mut other = version_two();
    for byte in &mut other[44..60] {
        *byte = 0x5a;
    }
    assert_eq!(
        LocalTimeZone::from_tzif(&other),
        LocalTimeZone::from_tzif(&version_two())
    );
    assert!(LocalTimeZone::from_tzif(&other).is_some());
}

#[test]
fn the_order_of_rows_does_not_matter() {
    let tz = LocalTimeZone::fixed(3600);
    let mut rows = vec![
        ("a/1", progress(4, 10, 100)),
        ("a/2", progress(0, 10, 90_000)),
        ("b/1", progress(9, 10, 90_500)),
    ];
    let forward = stats(&rows, &tz, 100_000);
    rows.reverse();
    assert_eq!(stats(&rows, &tz, 100_000), forward);
    rows.swap(0, 1);
    assert_eq!(stats(&rows, &tz, 100_000), forward);
}

#[test]
fn tzif_transitions_must_be_in_order() {
    let zone = |times: [i32; 2]| {
        let mut f = header(b'1', [0, 0, 0, 2, 1, 0]);
        for time in times {
            f.extend_from_slice(&time.to_be_bytes());
        }
        f.extend_from_slice(&[0, 0]);
        f.extend_from_slice(&60i32.to_be_bytes());
        f.extend_from_slice(&[0, 0]);
        f
    };
    assert!(LocalTimeZone::from_tzif(&zone([100, 200])).is_some());
    assert!(LocalTimeZone::from_tzif(&zone([200, 100])).is_none());
    assert!(LocalTimeZone::system(&vec![zone([200, 100])]).is_utc_fallback());
    let tz = LocalTimeZone::from_tzif(&zone([100, 200])).unwrap();
    assert_eq!(tz.clone(), tz);
}

#[test]
fn heatmaps_reach_to_the_ends_of_time() {
    let mut s = stats(&[], &LocalTimeZone::fixed(0), 0);
    s.today = i64::MAX - 7;
    assert_eq!(s.heatmap(1).len(), (s.today - s.heatmap_start(1)) as usize / 7 + 1);
    s.today = i64::MIN + 12;
    assert_eq!(weekday(s.heatmap_start(1)), 0);
    assert!(s.heatmap_start(1) >= i64::MIN);
}

#[test]
fn tzif_headers_must_be_plausible() {
    assert!(LocalTimeZone::from_tzif(&header(b'1', [0, 0, 0, 0, 0, 0])).is_some());
    assert!(LocalTimeZone::from_tzif(&header(b'1', [0, 0, 0, 0, 0, 1])).is_none());
    assert!(LocalTimeZone::from_tzif(&header(b'1', [0, 0, u32::MAX, 0, 0, 0])).is_none());
    assert!(LocalTimeZone::from_tzif(&header(b'1', [0, 0, 0, u32::MAX, 0, 0])).is_none());
    let only_dst = {
        let mut f = header(b'1', [0, 0, 0, 0, 1, 0]);
        f.extend_from_slice(&60i32.to_be_bytes());
        f.extend_from_slice(&[1, 0]);
        f
    };
    let tz = LocalTimeZone::from_tzif(&only_dst).expect("parses");
    assert_eq!(tz.offset_at(12345), 60, "an hour of skew beats no zone");
}

#[test]
fn the_system_zone_is_the_first_readable_one() {
    let mut east = header(b'1', [0, 0, 0, 0, 1, 0]);
    east.extend_from_slice(&7200i32.to_be_bytes());
    east.extend_from_slice(&[0, 0]);
    let tz = LocalTimeZone::system(&vec![b"junk".to_vec(), east.clone(), version_two()]);
    assert_eq!(tz.offset_at(0), 7200);
    assert!(!tz.is_utc_fallback());
    assert!(LocalTimeZone::system(&vec![b"junk".to_vec()]).is_utc_fallback());
}

#[test]
fn zoneinfo_candidates_come_most_specific_first() {
    assert_eq!(system_tzif_paths(None), vec!["/etc/localtime"]);
    assert_eq!(
        system_tzif_paths(Some("America/New_York")),
        vec!["/usr/share/zoneinfo/America/New_York", "/etc/localtime"]
    );
    assert_eq!(
        system_tzif_paths(Some(":/opt/zone")),
        vec!["/opt/zone", "/etc/localtime"]
    );
    assert_eq!(system_tzif_paths(Some("")), vec!["/etc/localtime"]);
    assert_eq!(system_tzif_paths(Some(":")), vec!["/etc/localtime"]);
    assert_eq!(system_tzif_paths(Some("a/../b")), vec!["/etc/localtime"]);
    assert_eq!(
        system_tzif_paths(Some("a..b")),
        vec!["/usr/share/zoneinfo/a..b", "/etc/localtime"]
    );
}
