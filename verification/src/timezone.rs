//! The device's UTC offset over time.

use vstd::prelude::*;

use crate::calendar::{floor_div, floor_rem};
use crate::text::{chars_of, pieces, same_text, split_text, text_of, texts};
use crate::tzif::{every_typed_transition_is_kept, governing_block, has_type, lemma_block_inside,
    lemma_numbers_fit, parse_zone};

verus! {

/// Seconds in a day. Local days are exactly this long *in local time*; DST
/// jumps are handled by changing the offset, never by stretching a day.
pub const SECS_PER_DAY: i64 = 86_400;

/// The device's UTC offset over time, enough to turn a unix timestamp into a
/// local calendar day.
///
/// Built from the system's TZif (zoneinfo) database — `$TZ` if it names a zone,
/// otherwise `/etc/localtime`. The whole transition table is kept, not just
/// "the offset right now", so a timestamp from last winter is bucketed with
/// last winter's offset instead of today's; otherwise every DST change would
/// shift a slab of history by an hour and could invent or destroy a streak day
/// at the boundary.
///
/// If no zoneinfo can be read this degrades to **UTC**. That fallback is
/// deliberate and observable via [`LocalTimeZone::is_utc_fallback`] so the UI
/// can say "times are UTC" rather than quietly lie.
#[derive(Debug, PartialEq, Eq)]
pub struct LocalTimeZone {
    /// `(transition_unix_time, offset_seconds_east)`, sorted ascending.
    transitions: Vec<(i64, i32)>,
    /// Offset for timestamps before the first transition (and the only offset
    /// when the table is empty).
    fallback: i32,
    /// True when no zoneinfo was found and this is plain UTC.
    utc_fallback: bool,
}

/// Whether the transitions are in ascending order.
pub open spec fn is_ascending(table: Seq<(i64, i32)>) -> bool {
    forall|i: int, j: int|
        0 <= i < j < table.len() ==> (#[trigger] table[i]).0 <= (#[trigger] table[j]).0
}

/// The offset of the last transition at or before `unix`, or `fallback` if
/// there is none.
pub open spec fn offset_in_force(table: Seq<(i64, i32)>, fallback: i32, unix: int) -> i32
    decreases table.len(),
{
    if table.len() == 0 {
        fallback
    } else if table.last().0 <= unix {
        table.last().1
    } else {
        offset_in_force(table.drop_last(), fallback, unix)
    }
}

proof fn lemma_in_force_is(table: Seq<(i64, i32)>, fallback: i32, unix: int, n: int)
    requires
        0 <= n <= table.len(),
        n > 0 ==> table[n - 1].0 <= unix,
        forall|i: int| n <= i < table.len() ==> (#[trigger] table[i]).0 > unix,
    ensures
        offset_in_force(table, fallback, unix) == if n == 0 {
            fallback
        } else {
            table[n - 1].1
        },
    decreases table.len(),
{
    if n < table.len() {
        let t = table.drop_last();
        assert forall|i: int| n <= i < t.len() implies (#[trigger] t[i]).0 > unix by {
            assert(t[i] == table[i]);
        }
        assert(table[table.len() - 1].0 > unix);
        lemma_in_force_is(t, fallback, unix, n);
    }
}

/// In a zone whose transitions ascend, the offset at an instant between two
/// transitions is that of the earlier one, and before the first transition it is
/// the fallback: a timestamp from before a change keeps the offset that was in
/// force then. `n` is how many transitions are at or before the instant.
pub proof fn last_transition_is_in_force(
    table: Seq<(i64, i32)>,
    fallback: i32,
    unix: int,
    n: int,
)
    requires
        is_ascending(table),
        0 <= n <= table.len(),
        n > 0 ==> table[n - 1].0 <= unix,
        n < table.len() ==> unix < table[n].0,
    ensures
        offset_in_force(table, fallback, unix) == if n == 0 {
            fallback
        } else {
            table[n - 1].1
        },
{
    lemma_in_force_is(table, fallback, unix, n);
}

/// Whether some bytes are a complete zoneinfo file whose table is in order.
pub open spec fn is_zone_file(b: Seq<u8>) -> bool {
    governing_block(b) matches Some(block) && is_ascending(
        block.table(b, block.head.timecnt as int),
    )
}

impl Clone for LocalTimeZone {
    fn clone(&self) -> (res: Self)
        ensures
            res.table() == self.table(),
            res.first_offset() == self.first_offset(),
            res.is_fallback() == self.is_fallback(),
    {
        proof {
            use_type_invariant(self);
        }
        let mut transitions: Vec<(i64, i32)> = Vec::new();
        let mut i: usize = 0;
        while i < self.transitions.len()
            invariant
                i <= self.transitions@.len(),
                transitions@ == self.transitions@.take(i as int),
            decreases self.transitions@.len() - i,
        {
            transitions.push(self.transitions[i]);
            assert(transitions@ =~= self.transitions@.take(i + 1));
            i = i + 1;
        }
        assert(transitions@ =~= self.transitions@);
        LocalTimeZone { transitions, fallback: self.fallback, utc_fallback: self.utc_fallback }
    }
}

impl LocalTimeZone {
    /// The transition table.
    pub closed spec fn table(&self) -> Seq<(i64, i32)> {
        self.transitions@
    }

    #[verifier::type_invariant]
    spec fn in_order(&self) -> bool {
        is_ascending(self.transitions@)
    }

    /// The offset before the first transition.
    pub closed spec fn first_offset(&self) -> i32 {
        self.fallback
    }

    /// Whether this is UTC for want of a zone.
    pub closed spec fn is_fallback(&self) -> bool {
        self.utc_fallback
    }

    /// The offset in force at `unix`, in seconds east of UTC.
    pub open spec fn offset(&self, unix: int) -> int {
        offset_in_force(self.table(), self.first_offset(), unix) as int
    }

    /// The local calendar day that contains `unix`.
    pub open spec fn local_day(&self, unix: int) -> int {
        (unix + self.offset(unix)) / 86_400
    }

    /// Whether this is the zone that the zoneinfo file `b` describes.
    pub open spec fn is_zone_of(&self, b: Seq<u8>) -> bool {
        &&& governing_block(b) matches Some(block) && {
            &&& self.table() == block.table(b, block.head.timecnt as int)
            &&& self.first_offset() == block.standard_offset(b, 0)
            &&& !self.is_fallback()
        }
    }

    /// Whether this is [`LocalTimeZone::utc`].
    pub open spec fn is_utc(&self) -> bool {
        self.table().len() == 0 && self.first_offset() == 0 && self.is_fallback()
    }

    /// A fixed-offset zone, `seconds_east` positive east of Greenwich.
    /// Used by callers that already know the offset.
    pub fn fixed(seconds_east: i32) -> (res: Self)
        ensures
            res.table().len() == 0,
            res.first_offset() == seconds_east,
            !res.is_fallback(),
    {
        LocalTimeZone { transitions: Vec::new(), fallback: seconds_east, utc_fallback: false }
    }

    /// UTC, flagged as the fallback zone.
    pub fn utc() -> (res: Self)
        ensures
            res.is_utc(),
    {
        LocalTimeZone { transitions: Vec::new(), fallback: 0, utc_fallback: true }
    }

    /// The system zone, given what the files of [`system_tzif_paths`] that
    /// could be read hold, in that order: the first that is a zoneinfo file,
    /// else [`LocalTimeZone::utc`].
    pub fn system(files: &Vec<Vec<u8>>) -> (res: Self)
        ensures
            match first_zone_file(files@.map_values(|f: Vec<u8>| f@)) {
                Some(i) => res.is_zone_of(files@[i]@),
                None => res.is_utc(),
            },
    {
        let ghost all = files@.map_values(|f: Vec<u8>| f@);
        let mut i: usize = 0;
        while i < files.len()
            invariant
                i <= files@.len(),
                all == files@.map_values(|f: Vec<u8>| f@),
                forall|k: int| 0 <= k < i ==> !is_zone_file(#[trigger] all[k]),
            decreases files@.len() - i,
        {
            assert(all[i as int] == files@[i as int]@);
            if let Some(tz) = Self::from_tzif(files[i].as_slice()) {
                proof {
                    lemma_first_zone_file(all, i as int);
                }
                return tz;
            }
            i = i + 1;
        }
        proof {
            if let Some(k) = first_zone_file(all) {
                lemma_first_zone_file_found(all);
            }
        }
        Self::utc()
    }

    /// Whether this is the "no zoneinfo found" UTC fallback rather than a real
    /// zone that happens to be at offset zero.
    pub fn is_utc_fallback(&self) -> (res: bool)
        ensures
            res == self.is_fallback(),
    {
        self.utc_fallback
    }

    /// Offset east of UTC, in seconds, in effect at `unix`.
    pub fn offset_at(&self, unix: i64) -> (res: i32)
        ensures
            res == self.offset(unix as int),
            is_ascending(self.table()),
    {
        proof {
            use_type_invariant(self);
        }
        let ghost table = self.transitions@;
        let mut low: usize = 0;
        let mut high: usize = self.transitions.len();
        while low < high
            invariant
                low <= high <= table.len(),
                table == self.transitions@,
                is_ascending(table),
                forall|i: int| 0 <= i < low ==> (#[trigger] table[i]).0 <= unix,
                forall|i: int| high <= i < table.len() ==> (#[trigger] table[i]).0 > unix,
            decreases high - low,
        {
            let mid: usize = low + (high - low) / 2;
            if self.transitions[mid].0 <= unix {
                low = mid + 1;
            } else {
                high = mid;
            }
        }
        proof {
            lemma_in_force_is(table, self.fallback, unix as int, low as int);
        }
        if low == 0 {
            self.fallback
        } else {
            self.transitions[low - 1].1
        }
    }

    /// The local calendar day containing `unix`, as days since 1970-01-01.
    ///
    /// Floor division (not truncation) so pre-epoch instants — reachable for a
    /// reader east of UTC on 1970-01-01, or from a device with a dead RTC —
    /// land on the day before, not on day 0.
    pub fn day_index(&self, unix: i64) -> (res: i64)
        ensures
            res == self.local_day(unix as int),
    {
        let offset: i64 = self.offset_at(unix) as i64;
        // Whole days and the rest are taken apart, so that no sum overflows.
        let days: i64 = floor_div(unix, SECS_PER_DAY);
        let rest: i64 = floor_rem(unix, SECS_PER_DAY);
        days + floor_div(rest + offset, SECS_PER_DAY)
    }

    /// Parse a TZif (RFC 8536) file. Returns `None` if it is not a TZif, is
    /// truncated or has its transitions out of order — a malformed zoneinfo must
    /// degrade to UTC, never panic on a user's device.
    pub fn from_tzif(bytes: &[u8]) -> (res: Option<Self>)
        ensures
            res is Some == is_zone_file(bytes@),
            res matches Some(tz) ==> tz.is_zone_of(bytes@) && is_ascending(tz.table()),
    {
        let zone = parse_zone(bytes)?;
        if !in_ascending_order(&zone.transitions) {
            return None;
        }
        Some(
            LocalTimeZone {
                transitions: zone.transitions,
                fallback: zone.fallback,
                utc_fallback: false,
            },
        )
    }
}

/// Whether the transitions are in ascending order.
fn in_ascending_order(table: &Vec<(i64, i32)>) -> (res: bool)
    ensures
        res == is_ascending(table@),
{
    let mut i: usize = 1;
    while i < table.len()
        invariant
            1 <= i,
            table@.len() > 0 ==> i <= table@.len(),
            is_ascending(table@.take(i as int)) || table@.len() == 0,
        decreases table@.len() - i,
    {
        if table[i].0 < table[i - 1].0 {
            return false;
        }
        assert forall|a: int, b: int| 0 <= a < b < i + 1 implies (#[trigger] table@.take(
            i + 1,
        )[a]).0 <= (#[trigger] table@.take(i + 1)[b]).0 by {
            assert(table@.take(i as int)[a] == table@[a]);
            if b < i {
                assert(table@.take(i as int)[b] == table@[b]);
            } else if a < i - 1 {
                assert(table@.take(i as int)[i - 1] == table@[i - 1]);
            }
        }
        i = i + 1;
    }
    if table.len() > 0 {
        assert(table@.take(i as int) =~= table@);
    }
    true
}

/// The place of the first file that is a zoneinfo file.
pub open spec fn first_zone_file(files: Seq<Seq<u8>>) -> Option<int>
    decreases files.len(),
{
    if files.len() == 0 {
        None
    } else {
        match first_zone_file(files.drop_last()) {
            Some(i) => Some(i),
            None => if is_zone_file(files.last()) {
                Some(files.len() - 1)
            } else {
                None
            },
        }
    }
}

proof fn lemma_first_zone_file(files: Seq<Seq<u8>>, i: int)
    requires
        0 <= i < files.len(),
        is_zone_file(files[i]),
        forall|k: int| 0 <= k < i ==> !is_zone_file(#[trigger] files[k]),
    ensures
        first_zone_file(files) == Some(i),
    decreases files.len(),
{
    let rest = files.drop_last();
    if i < rest.len() {
        lemma_first_zone_file(rest, i);
    } else {
        if first_zone_file(rest) is Some {
            lemma_first_zone_file_found(rest);
            let k = first_zone_file(rest)->0;
            assert(rest[k] == files[k]);
        }
    }
}

proof fn lemma_first_zone_file_found(files: Seq<Seq<u8>>)
    requires
        first_zone_file(files) is Some,
    ensures
        0 <= first_zone_file(files)->0 < files.len(),
        is_zone_file(files[first_zone_file(files)->0]),
    decreases files.len(),
{
    let rest = files.drop_last();
    if first_zone_file(rest) is Some {
        lemma_first_zone_file_found(rest);
    }
}

/// What remains of `$TZ` once a leading `:` is dropped.
pub open spec fn zone_name(tz: Seq<char>) -> Seq<char> {
    if tz.len() > 0 && tz[0] == ':' {
        tz.drop_first()
    } else {
        tz
    }
}

/// Whether a zone name may be looked up: it is not empty and does not climb
/// out of a directory.
pub open spec fn is_sane_zone(name: Seq<char>) -> bool {
    name.len() > 0 && !pieces(name, '/').contains(".."@)
}

/// Candidate zoneinfo paths, most specific first, given the value of `$TZ`.
///
/// `$TZ` may be a zone name (`America/New_York`), optionally `:`-prefixed, or
/// an absolute path. A POSIX rule string (`EST5EDT,M3.2.0,M11.1.0`) simply
/// won't resolve to a file and we move on to `/etc/localtime`, which on every
/// system that supports `$TZ` rules describes the same zone anyway.
pub fn system_tzif_paths(tz: Option<&str>) -> (res: Vec<String>)
    ensures
        texts(res@) == match tz {
            Some(value) if is_sane_zone(zone_name(value@)) => {
                let name = zone_name(value@);
                if name[0] == '/' {
                    seq![name, "/etc/localtime"@]
                } else {
                    seq!["/usr/share/zoneinfo/"@ + name, "/etc/localtime"@]
                }
            },
            _ => seq!["/etc/localtime"@],
        },
        texts(res@) == zone_paths(
            match tz {
                Some(value) => Some(value@),
                None => None,
            },
        ),
{
    let mut paths: Vec<String> = Vec::new();
    if let Some(value) = tz {
        let v = chars_of(value);
        let from: usize = if v.len() > 0 && v[0] == ':' {
            1
        } else {
            0
        };
        let name = text_of(&v, from, v.len());
        assert(name@ =~= zone_name(value@));
        // There is no reason to follow "..".
        let parts = split_text(name.as_str(), '/');
        let mut climbs = false;
        let mut i: usize = 0;
        while i < parts.len()
            invariant
                i <= parts@.len(),
                texts(parts@) == pieces(name@, '/'),
                climbs == exists|k: int| 0 <= k < i && #[trigger] texts(parts@)[k] == ".."@,
            decreases parts@.len() - i,
        {
            assert(texts(parts@)[i as int] == parts@[i as int]@);
            if same_text(parts[i].as_str(), "..") {
                climbs = true;
            }
            i = i + 1;
        }
        if from < v.len() && !climbs {
            if v[from] == '/' {
                paths.push(name);
            } else {
                paths.push("/usr/share/zoneinfo/".to_owned().concat(name.as_str()));
            }
        }
    }
    let ghost before = texts(paths@);
    paths.push("/etc/localtime".to_owned());
    assert(texts(paths@) =~= before.push("/etc/localtime"@));
    paths
}

/// A zone that is read from a file has, at any instant, the offset of the last
/// transition of the file at or before it that has a type, however long ago that
/// was: `i` is the place of that transition.
pub proof fn last_transition_of_the_file_counts(
    tz: LocalTimeZone,
    b: Seq<u8>,
    unix: int,
    i: int,
)
    requires
        is_zone_file(b),
        tz.is_zone_of(b),
        ({
            let block = governing_block(b)->0;
            &&& 0 <= i < block.head.timecnt
            &&& has_type(block, b, i)
            &&& block.time(b, i) <= unix
            &&& forall|k: int|
                i < k < block.head.timecnt && #[trigger] has_type(block, b, k) ==> unix
                    < block.time(b, k)
        }),
    ensures
        ({
            let block = governing_block(b)->0;
            tz.offset(unix) == block.offset(b, block.index(b, i))
        }),
{
    let block = governing_block(b)->0;
    let table = tz.table();
    let kept = every_typed_transition_is_kept(block, b, block.head.timecnt as int);
    lemma_block_inside(b);
    let j = choose|j: int| 0 <= j < kept.len() && kept[j] == i;
    lemma_numbers_fit(block, b, i, block.index(b, i));
    assert(table[j].0 == block.time(b, i));
    if j + 1 < table.len() {
        let k = kept[j + 1];
        assert(kept[j] < kept[j + 1]);
        assert(has_type(block, b, k));
        lemma_numbers_fit(block, b, k, block.index(b, k));
        assert(table[j + 1].0 == block.time(b, k));
    }
    last_transition_is_in_force(table, tz.first_offset(), unix, j + 1);
}

/// Before every transition that has a type, a zone that is read from a file has
/// the offset of the first type that is not daylight saving time, or else of the
/// first type.
pub proof fn before_every_transition_standard_time_counts(
    tz: LocalTimeZone,
    b: Seq<u8>,
    unix: int,
)
    requires
        is_zone_file(b),
        tz.is_zone_of(b),
        ({
            let block = governing_block(b)->0;
            forall|k: int|
                0 <= k < block.head.timecnt && #[trigger] has_type(block, b, k) ==> unix
                    < block.time(b, k)
        }),
    ensures
        tz.offset(unix) == governing_block(b)->0.standard_offset(b, 0),
{
    let block = governing_block(b)->0;
    let table = tz.table();
    let kept = every_typed_transition_is_kept(block, b, block.head.timecnt as int);
    lemma_block_inside(b);
    if table.len() > 0 {
        let k = kept[0];
        assert(has_type(block, b, k));
        lemma_numbers_fit(block, b, k, block.index(b, k));
        assert(table[0].0 == block.time(b, k));
    }
    last_transition_is_in_force(table, tz.first_offset(), unix, 0);
}

/// A file describes a zone exactly when it is complete and its transitions that
/// have a type are in order; the zone is then no fallback.
pub proof fn zone_files_are_complete_and_in_order(tz: LocalTimeZone, b: Seq<u8>)
    ensures
        governing_block(b) is None ==> !is_zone_file(b),
        governing_block(b) matches Some(block) ==> (is_zone_file(b) <==> forall|i: int, k: int|
            0 <= i < k < block.head.timecnt && #[trigger] has_type(block, b, i)
                && #[trigger] has_type(block, b, k) ==> block.time(b, i) <= block.time(b, k)),
        tz.is_zone_of(b) ==> !tz.is_fallback() && governing_block(b) is Some,
{
    if let Some(block) = governing_block(b) {
        let n = block.head.timecnt as int;
        let table = block.table(b, n);
        let kept = every_typed_transition_is_kept(block, b, n);
        lemma_block_inside(b);
        if is_ascending(table) {
            assert forall|i: int, k: int|
                0 <= i < k < n && #[trigger] has_type(block, b, i) && #[trigger] has_type(
                    block,
                    b,
                    k,
                ) implies block.time(b, i) <= block.time(b, k) by {
                assert(kept.contains(i) && kept.contains(k));
                let x = choose|x: int| 0 <= x < kept.len() && kept[x] == i;
                let y = choose|y: int| 0 <= y < kept.len() && kept[y] == k;
                if y < x {
                    assert(kept[y] < kept[x]);
                }
                lemma_numbers_fit(block, b, i, block.index(b, i));
                lemma_numbers_fit(block, b, k, block.index(b, k));
                assert(table[x].0 <= table[y].0);
            }
        }
        if forall|i: int, k: int|
            0 <= i < k < n && #[trigger] has_type(block, b, i) && #[trigger] has_type(block, b, k)
                ==> block.time(b, i) <= block.time(b, k) {
            assert forall|x: int, y: int| 0 <= x < y < table.len() implies (#[trigger] table[x]).0
                <= (#[trigger] table[y]).0 by {
                assert(kept[x] < kept[y]);
                assert(has_type(block, b, kept[x]) && has_type(block, b, kept[y]));
                lemma_numbers_fit(block, b, kept[x], block.index(b, kept[x]));
                lemma_numbers_fit(block, b, kept[y], block.index(b, kept[y]));
            }
        }
    }
}

/// An instant lies in its local day: the local clock, which is UTC shifted by the
/// offset in force, stands between that day's midnight and the next.
pub proof fn instants_lie_in_their_local_day(tz: LocalTimeZone, unix: int)
    ensures
        86_400 * tz.local_day(unix) <= unix + tz.offset(unix) < 86_400 * tz.local_day(unix) + 86_400,
        tz.table().len() == 0 ==> tz.offset(unix) == tz.first_offset(),
        tz.is_utc() ==> tz.offset(unix) == 0 && tz.is_fallback(),
{
}

/// The first zoneinfo file of several counts, and none where there is none.
pub proof fn first_zone_file_counts(files: Seq<Seq<u8>>, i: int)
    requires
        0 <= i <= files.len(),
        forall|k: int| 0 <= k < i ==> !is_zone_file(#[trigger] files[k]),
        i < files.len() ==> is_zone_file(files[i]),
    ensures
        i < files.len() ==> first_zone_file(files) == Some(i),
        i == files.len() ==> first_zone_file(files) is None,
{
    if i < files.len() {
        lemma_first_zone_file(files, i);
    } else if first_zone_file(files) is Some {
        lemma_first_zone_file_found(files);
    }
}

/// A zone's name is `$TZ` itself or what stands behind a colon. It is looked up
/// unless it is empty or has `..` for a component.
pub proof fn zone_names_do_not_climb(name: Seq<char>, dir: Seq<char>, rest: Seq<char>)
    ensures
        zone_name(seq![':'] + name) == name,
        name.len() > 0 && name[0] != ':' ==> zone_name(name) == name,
        !is_sane_zone(Seq::empty()),
        name.len() > 0 && !name.contains('.') ==> is_sane_zone(name),
        !is_sane_zone(dir + seq!['/'] + (seq!['.', '.'] + seq!['/'] + rest)),
        !is_sane_zone(seq!['.', '.'] + seq!['/'] + rest),
        !is_sane_zone(dir + seq!['/'] + seq!['.', '.']),
        is_sane_zone(dir) && is_sane_zone(rest) ==> is_sane_zone(dir + seq!['/'] + rest),
{
    let up = seq!['.', '.'];
    reveal_strlit("..");
    assert(".."@ =~= up);
    assert((seq![':'] + name).drop_first() =~= name);
    assert(!up.contains('/'));
    crate::text::separators_cut(up, rest, '/');
    crate::text::separators_cut(dir, up + seq!['/'] + rest, '/');
    crate::text::separators_cut(dir, up, '/');
    crate::text::separators_cut(dir, rest, '/');
    let low = seq![up] + pieces(rest, '/');
    assert(low[0] == up);
    let all = pieces(dir, '/') + low;
    assert(all[pieces(dir, '/').len() as int] == up);
    let end = pieces(dir, '/') + seq![up];
    assert(end[pieces(dir, '/').len() as int] == up);
    if name.len() > 0 && !name.contains('.') {
        lemma_pieces_hold_no_more(name, '/', '.');
        if pieces(name, '/').contains(up) {
            let k = choose|k: int| 0 <= k < pieces(name, '/').len() && pieces(name, '/')[k] == up;
            assert(pieces(name, '/')[k][0] == '.');
            assert(pieces(name, '/')[k].contains('.'));
        }
    }
    if is_sane_zone(dir) && is_sane_zone(rest) {
        let both = pieces(dir, '/') + pieces(rest, '/');
        if both.contains(up) {
            let k = choose|k: int| 0 <= k < both.len() && both[k] == up;
            if k < pieces(dir, '/').len() {
                assert(pieces(dir, '/')[k] == up);
            } else {
                assert(pieces(rest, '/')[k - pieces(dir, '/').len()] == up);
            }
        }
    }
}

proof fn lemma_pieces_hold_no_more(s: Seq<char>, sep: char, c: char)
    requires
        !s.contains(c),
    ensures
        pieces(s, sep).len() > 0,
        forall|k: int| 0 <= k < pieces(s, sep).len() ==> !(#[trigger] pieces(s, sep)[k]).contains(c),
    decreases s.len(),
{
    if s.len() > 0 {
        let r = s.drop_last();
        assert forall|i: int| 0 <= i < r.len() implies r[i] != c by {
            assert(s[i] == r[i]);
            assert(s.contains(s[i]));
        }
        lemma_pieces_hold_no_more(r, sep, c);
        assert(s.contains(s[s.len() - 1]));
        let p = pieces(s, sep);
        let q = pieces(r, sep);
        assert forall|k: int| 0 <= k < p.len() implies !(#[trigger] p[k]).contains(c) by {
            if k < q.len() - 1 {
                assert(p[k] == q[k]);
            } else if s.last() != sep {
                assert(p[k] == q[k].push(s.last()));
                if p[k].contains(c) {
                    let x = choose|x: int| 0 <= x < p[k].len() && p[k][x] == c;
                    assert(q[k][x] == c);
                }
            } else if k == q.len() - 1 {
                assert(p[k] == q[k]);
            }
        }
    }
}

/// The paths at which the zone of `$TZ` is looked for.
pub open spec fn zone_paths(tz: Option<Seq<char>>) -> Seq<Seq<char>> {
    match tz {
        Some(value) if is_sane_zone(zone_name(value)) => {
            let name = zone_name(value);
            if name[0] == '/' {
                seq![name, "/etc/localtime"@]
            } else {
                seq!["/usr/share/zoneinfo/"@ + name, "/etc/localtime"@]
            }
        },
        _ => seq!["/etc/localtime"@],
    }
}

/// The zone of the system is always looked for, and last; before it comes the zone
/// that `$TZ` names, as a path where it is one and else below the directory of
/// zones, unless it may not be looked up.
pub proof fn system_zone_is_the_last_resort(value: Seq<char>)
    ensures
        zone_paths(None) == seq!["/etc/localtime"@],
        !is_sane_zone(zone_name(value)) ==> zone_paths(Some(value)) == seq!["/etc/localtime"@],
        is_sane_zone(zone_name(value)) ==> {
            let paths = zone_paths(Some(value));
            &&& paths.len() == 2
            &&& paths[1] == "/etc/localtime"@
            &&& zone_name(value)[0] == '/' ==> paths[0] == zone_name(value)
            &&& zone_name(value)[0] != '/' ==> paths[0] == "/usr/share/zoneinfo/"@ + zone_name(
                value,
            )
        },
{
}

} // verus!
