//! Reading progress, chapter by chapter.
//!
//! Reading progress is stored out-of-band so the archives themselves are never
//! modified.

use vstd::prelude::*;

use crate::strmap::{ascending, map_of, StringMap};

verus! {

/// Reading progress for a single document.
#[derive(Debug, Clone, Copy, PartialEq, Eq, Structural)]
pub struct ReadingProgress {
    /// Zero-based index of the last page the user was on.
    pub current_page: usize,
    /// Page count at the time progress was recorded.
    pub total_pages: usize,
    /// Unix timestamp (seconds) of the last read.
    pub last_read_at: u64,
}

impl ReadingProgress {
    /// Whether the last page was reached.
    pub open spec fn finished(&self) -> bool {
        self.total_pages > 0 && self.current_page + 1 >= self.total_pages
    }

    /// Whether the last page was reached.
    pub fn is_finished(&self) -> (res: bool)
        requires
            self.total_pages > 0 ==> self.current_page < usize::MAX,
        ensures
            res == self.finished(),
    {
        self.total_pages > 0 && self.current_page + 1 >= self.total_pages
    }
}

/// The rows of `disk` with `mine` folded in, the furthest page winning: per
/// chapter the higher page and the later time win, and the page count is the
/// one that `mine` reports.
pub open spec fn merged_row(mine: ReadingProgress, disk: ReadingProgress) -> ReadingProgress {
    ReadingProgress {
        current_page: if disk.current_page >= mine.current_page {
            disk.current_page
        } else {
            mine.current_page
        },
        total_pages: mine.total_pages,
        last_read_at: if disk.last_read_at >= mine.last_read_at {
            disk.last_read_at
        } else {
            mine.last_read_at
        },
    }
}

/// The rows of `disk` with those of `mine` folded in by [`merged_row`].
pub open spec fn merged_rows(
    mine: Map<Seq<char>, ReadingProgress>,
    disk: Map<Seq<char>, ReadingProgress>,
) -> Map<Seq<char>, ReadingProgress> {
    Map::new(
        |key: Seq<char>| mine.contains_key(key) || disk.contains_key(key),
        |key: Seq<char>|
            if !mine.contains_key(key) {
                disk[key]
            } else if !disk.contains_key(key) {
                mine[key]
            } else {
                merged_row(mine[key], disk[key])
            },
    )
}

/// Store mapping library-relative paths to reading progress.
#[derive(Debug)]
pub struct ProgressStore {
    progress: StringMap<ReadingProgress>,
    /// The last chapter opened per series (series directory → chapter key).
    /// Recorded the instant a chapter opens, so "resume" lands on exactly
    /// where the reader last was — independent of the wall clock and robust to
    /// the app being killed before progress is flushed.
    last_opened: StringMap<String>,
}

impl Default for ProgressStore {
    fn default() -> (res: Self)
        ensures
            res.rows() == Map::<Seq<char>, ReadingProgress>::empty(),
            res.opened() == Map::<Seq<char>, Seq<char>>::empty(),
    {
        let res = ProgressStore { progress: StringMap::new(), last_opened: StringMap::new() };
        assert(res.opened() =~= Map::<Seq<char>, Seq<char>>::empty());
        res
    }
}

/// The time since the unix epoch in seconds: `SystemTime::now` measured by
/// `duration_since(UNIX_EPOCH)`. `None` is a clock set before the epoch.
/// Nothing is claimed of the value, which depends on when it is asked for.
#[verifier::external_body]
pub(crate) fn clock_seconds() -> (res: Option<u64>) {
    std::time::SystemTime::now().duration_since(std::time::UNIX_EPOCH).ok().map(|d| d.as_secs())
}

/// Seconds since the unix epoch, or 0 on a clock set before it.
pub fn seconds_or_zero(clock: Option<u64>) -> (res: u64)
    ensures
        res == match clock {
            Some(t) => t,
            None => 0,
        },
{
    match clock {
        Some(t) => t,
        None => 0,
    }
}

impl ProgressStore {
    /// The progress rows, by chapter key.
    pub closed spec fn rows(&self) -> Map<Seq<char>, ReadingProgress> {
        self.progress@
    }

    /// The progress rows in dictionary order of their keys.
    pub closed spec fn rows_in_order(&self) -> Seq<(Seq<char>, ReadingProgress)> {
        self.progress.listing()
    }

    /// The chapter last opened, by series key.
    pub closed spec fn opened(&self) -> Map<Seq<char>, Seq<char>> {
        self.last_opened@.map_values(|s: String| s@)
    }

    /// Fold this store into what is currently on disk (nothing, if there was no
    /// store to load), giving the store to save. The merge rule is
    /// **furthest-page-wins**: per chapter the higher `current_page` and later
    /// `last_read_at` win, this store's `total_pages` and `last_opened` are
    /// taken as the latest report, and chapters only on disk are preserved. So
    /// a write that landed between this store being loaded and saved (e.g. a
    /// background pull, or a reader session that advanced a page) is never
    /// lost. Only ever *raises* a page — never removes — so it must not be used
    /// for mark-unread.
    pub fn merge_save(&self, disk: Option<ProgressStore>) -> (res: ProgressStore)
        ensures
            res.rows() == merged_rows(self.rows(), stored_rows(disk)),
            res.opened() == stored_opened(disk).union_prefer_right(self.opened()),
            res.opened() == reported_opened(self.opened(), stored_opened(disk)),
    {
        let mut res = disk_or_empty(disk);
        let ghost base = res.rows();
        let ghost l = self.progress.listing();
        let n: usize = self.progress.len();
        let mut i: usize = 0;
        assert(merged_rows(map_of(l.take(0)), base) =~= base);
        while i < n
            invariant
                i <= n == l.len(),
                l == self.progress.listing(),
                ascending(l),
                res.rows() == merged_rows(map_of(l.take(i as int)), base),
                res.opened() == stored_opened(disk),
            decreases n - i,
        {
            let key = self.progress.key_at(i);
            let mine = *self.progress.value_at(i);
            let row = match res.progress.get(key) {
                Some(d) => ReadingProgress {
                    current_page: if d.current_page >= mine.current_page {
                        d.current_page
                    } else {
                        mine.current_page
                    },
                    total_pages: mine.total_pages,
                    last_read_at: if d.last_read_at >= mine.last_read_at {
                        d.last_read_at
                    } else {
                        mine.last_read_at
                    },
                },
                None => mine,
            };
            proof {
                lemma_take_next(l, i as int);
            }
            res.progress.insert(key.to_owned(), row);
            assert(res.rows() =~= merged_rows(map_of(l.take(i + 1)), base));
            i = i + 1;
        }
        assert(l.take(n as int) =~= l);
        self.report_opened(res)
    }

    /// Fold this store into what is currently on disk (nothing, if there was no
    /// store to load), taking **this store's value** for every chapter it knows
    /// (so the reader can move a page up *or* down — a deliberate flip back
    /// must stick), while preserving any chapter a concurrent writer (the
    /// background sync thread) added to disk since this store was loaded.
    pub fn overlay_save(&self, disk: Option<ProgressStore>) -> (res: ProgressStore)
        ensures
            res.rows() == stored_rows(disk).union_prefer_right(self.rows()),
            res.rows() == overlaid_rows(self.rows(), stored_rows(disk)),
            res.opened() == stored_opened(disk).union_prefer_right(self.opened()),
            res.opened() == reported_opened(self.opened(), stored_opened(disk)),
    {
        let mut res = disk_or_empty(disk);
        let ghost base = res.rows();
        let ghost l = self.progress.listing();
        let n: usize = self.progress.len();
        let mut i: usize = 0;
        assert(base.union_prefer_right(map_of(l.take(0))) =~= base);
        while i < n
            invariant
                i <= n == l.len(),
                l == self.progress.listing(),
                ascending(l),
                res.rows() == base.union_prefer_right(map_of(l.take(i as int))),
                res.opened() == stored_opened(disk),
            decreases n - i,
        {
            proof {
                lemma_take_next(l, i as int);
            }
            let key = self.progress.key_at(i);
            let row = *self.progress.value_at(i);
            res.progress.insert(key.to_owned(), row);
            assert(res.rows() =~= base.union_prefer_right(map_of(l.take(i + 1))));
            i = i + 1;
        }
        assert(l.take(n as int) =~= l);
        self.report_opened(res)
    }

    /// `disk` with this store's report of the chapters last opened.
    fn report_opened(&self, disk: ProgressStore) -> (res: ProgressStore)
        ensures
            res.rows() == disk.rows(),
            res.opened() == disk.opened().union_prefer_right(self.opened()),
    {
        let mut res = disk;
        let ghost base = res.last_opened@;
        let ghost l = self.last_opened.listing();
        let n: usize = self.last_opened.len();
        let mut i: usize = 0;
        assert(base.union_prefer_right(map_of(l.take(0))).map_values(|s: String| s@)
            =~= base.map_values(|s: String| s@));
        while i < n
            invariant
                i <= n == l.len(),
                l == self.last_opened.listing(),
                ascending(l),
                res.rows() == disk.rows(),
                res.opened() == base.union_prefer_right(map_of(l.take(i as int))).map_values(
                    |s: String| s@,
                ),
            decreases n - i,
        {
            proof {
                lemma_take_next(l, i as int);
            }
            let ghost before = res.last_opened@;
            let key = self.last_opened.key_at(i);
            let chapter = self.last_opened.value_at(i).clone();
            res.last_opened.insert(key.to_owned(), chapter);
            proof {
                assert(res.opened() =~= before.map_values(|s: String| s@).insert(key@, chapter@));
                assert(res.opened() =~= base.union_prefer_right(map_of(l.take(i + 1))).map_values(
                    |s: String| s@,
                ));
            }
            i = i + 1;
        }
        assert(l.take(n as int) =~= l);
        assert(res.opened() =~= disk.opened().union_prefer_right(self.opened()));
        res
    }

    /// The progress of the chapter `key`.
    pub fn get(&self, key: &str) -> (res: Option<ReadingProgress>)
        ensures
            res == if self.rows().contains_key(key@) {
                Some(self.rows()[key@])
            } else {
                None
            },
    {
        match self.progress.get(key) {
            Some(row) => Some(*row),
            None => None,
        }
    }

    /// Every `(chapter_key, progress)` pair, in dictionary order of the keys —
    /// used by sync to push the device's local progress to the backend.
    pub fn entries(&self) -> (res: Vec<(&str, ReadingProgress)>)
        ensures
            row_views(res@) == self.rows_in_order(),
            ascending(row_views(res@)),
            map_of(row_views(res@)) == self.rows(),
    {
        let ghost l = self.progress.listing();
        let n: usize = self.progress.len();
        let mut res: Vec<(&str, ReadingProgress)> = Vec::new();
        let mut i: usize = 0;
        while i < n
            invariant
                i <= n == l.len(),
                l == self.progress.listing(),
                row_views(res@) == l.take(i as int),
            decreases n - i,
        {
            let ghost before = row_views(res@);
            res.push((self.progress.key_at(i), *self.progress.value_at(i)));
            assert(row_views(res@) =~= before.push(l[i as int]));
            assert(l.take(i + 1) =~= l.take(i as int).push(l[i as int]));
            i = i + 1;
        }
        assert(l.take(n as int) =~= l);
        res
    }

    /// Every `(series_key, chapter_key)` pair of [`Self::last_opened`], in
    /// dictionary order of the series keys.
    pub fn opened_entries(&self) -> (res: Vec<(&str, &str)>)
        ensures
            ascending(opened_views(res@)),
            map_of(opened_views(res@)) == self.opened(),
    {
        let ghost l = self.last_opened.listing();
        let ghost m = l.map_values(|e: (Seq<char>, String)| (e.0, e.1@));
        let n: usize = self.last_opened.len();
        let mut res: Vec<(&str, &str)> = Vec::new();
        let mut i: usize = 0;
        while i < n
            invariant
                i <= n == l.len(),
                l == self.last_opened.listing(),
                m == l.map_values(|e: (Seq<char>, String)| (e.0, e.1@)),
                opened_views(res@) == m.take(i as int),
            decreases n - i,
        {
            let ghost before = opened_views(res@);
            res.push((self.last_opened.key_at(i), self.last_opened.value_at(i).as_str()));
            assert(opened_views(res@) =~= before.push(m[i as int]));
            assert(m.take(i + 1) =~= m.take(i as int).push(m[i as int]));
            i = i + 1;
        }
        assert(m.take(n as int) =~= m);
        proof {
            lemma_map_values(l);
        }
        res
    }

    /// Record that the user is on `current_page` of `total_pages`, as of now.
    pub fn update(&mut self, key: &str, current_page: usize, total_pages: usize)
        ensures
            exists|last_read_at: u64|
                final(self).rows() == old(self).rows().insert(
                    key@,
                    #[trigger] progress_row(current_page, total_pages, last_read_at),
                ),
            final(self).opened() == old(self).opened(),
    {
        let last_read_at: u64 = seconds_or_zero(clock_seconds());
        self.update_at(key, current_page, total_pages, last_read_at);
        assert(self.rows() == old(self).rows().insert(
            key@,
            progress_row(current_page, total_pages, last_read_at),
        ));
    }

    /// Record that the user was on `current_page` of `total_pages` at the time
    /// `last_read_at`.
    pub fn update_at(
        &mut self,
        key: &str,
        current_page: usize,
        total_pages: usize,
        last_read_at: u64,
    )
        ensures
            final(self).rows() == old(self).rows().insert(
                key@,
                progress_row(current_page, total_pages, last_read_at),
            ),
            final(self).opened() == old(self).opened(),
    {
        self.progress.insert(
            key.to_owned(),
            ReadingProgress { current_page, total_pages, last_read_at },
        );
    }

    /// Record `chapter_key` as the chapter the user most recently opened in
    /// `series_key` (its top-level directory). Called the moment the reader
    /// opens a chapter.
    pub fn set_last_opened(&mut self, series_key: &str, chapter_key: &str)
        ensures
            final(self).rows() == old(self).rows(),
            final(self).opened() == old(self).opened().insert(series_key@, chapter_key@),
    {
        let ghost before = self.last_opened@;
        self.last_opened.insert(series_key.to_owned(), chapter_key.to_owned());
        assert(self.opened() =~= before.map_values(|s: String| s@).insert(
            series_key@,
            chapter_key@,
        ));
    }

    /// The chapter most recently opened in `series_key`, if recorded.
    pub fn last_opened(&self, series_key: &str) -> (res: Option<&str>)
        ensures
            res is Some <==> self.opened().contains_key(series_key@),
            res matches Some(chapter) ==> chapter@ == self.opened()[series_key@],
    {
        match self.last_opened.get(series_key) {
            Some(chapter) => Some(chapter.as_str()),
            None => None,
        }
    }

    /// How many chapters have progress.
    pub fn len(&self) -> (res: usize)
        ensures
            res == self.rows().len(),
            self.rows().dom().finite(),
    {
        self.progress.len()
    }

    /// Forget a chapter's progress entirely — used to "mark as unread" when the
    /// user opened/finished something by accident. Returns whether anything was
    /// removed. A later sync may pull the row back from another device, which is
    /// the correct furthest-page-wins behaviour; this clears it locally now.
    pub fn remove(&mut self, key: &str) -> (res: bool)
        ensures
            res == old(self).rows().contains_key(key@),
            final(self).rows() == old(self).rows().remove(key@),
            final(self).opened() == old(self).opened(),
    {
        self.progress.remove(key).is_some()
    }

    /// Whether no chapter has progress.
    pub fn is_empty(&self) -> (res: bool)
        ensures
            res == (self.rows() == Map::<Seq<char>, ReadingProgress>::empty()),
    {
        self.progress.is_empty()
    }
}

/// A progress row.
pub open spec fn progress_row(
    current_page: usize,
    total_pages: usize,
    last_read_at: u64,
) -> ReadingProgress {
    ReadingProgress { current_page, total_pages, last_read_at }
}

/// Rows with their keys as texts.
pub open spec fn row_views(v: Seq<(&str, ReadingProgress)>) -> Seq<(Seq<char>, ReadingProgress)> {
    v.map_values(|e: (&str, ReadingProgress)| (e.0@, e.1))
}

/// Pairs of texts.
pub open spec fn opened_views(v: Seq<(&str, &str)>) -> Seq<(Seq<char>, Seq<char>)> {
    v.map_values(|e: (&str, &str)| (e.0@, e.1@))
}

/// The rows of a store that may not be there.
pub open spec fn stored_rows(disk: Option<ProgressStore>) -> Map<Seq<char>, ReadingProgress> {
    match disk {
        Some(store) => store.rows(),
        None => Map::empty(),
    }
}

/// The chapters last opened, of a store that may not be there.
pub open spec fn stored_opened(disk: Option<ProgressStore>) -> Map<Seq<char>, Seq<char>> {
    match disk {
        Some(store) => store.opened(),
        None => Map::empty(),
    }
}

/// Merging never loses a chapter and never lowers a page: every chapter that
/// either side knows is there, at least as far along and at least as recently
/// read as on both sides.
pub proof fn merge_never_lowers_a_page(
    mine: Map<Seq<char>, ReadingProgress>,
    disk: Map<Seq<char>, ReadingProgress>,
    key: Seq<char>,
)
    ensures
        merged_rows(mine, disk).contains_key(key) <==> mine.contains_key(key)
            || disk.contains_key(key),
        mine.contains_key(key) ==> {
            let row = merged_rows(mine, disk)[key];
            &&& row.current_page >= mine[key].current_page
            &&& row.last_read_at >= mine[key].last_read_at
            &&& row.total_pages == mine[key].total_pages
        },
        disk.contains_key(key) ==> {
            let row = merged_rows(mine, disk)[key];
            &&& row.current_page >= disk[key].current_page
            &&& row.last_read_at >= disk[key].last_read_at
        },
{
}

/// A chapter that only one side knows comes out of a merge unchanged, so a
/// concurrent write to another chapter is preserved.
pub proof fn merge_preserves_other_chapters(
    mine: Map<Seq<char>, ReadingProgress>,
    disk: Map<Seq<char>, ReadingProgress>,
    key: Seq<char>,
)
    ensures
        disk.contains_key(key) && !mine.contains_key(key) ==> merged_rows(mine, disk)[key]
            == disk[key],
        mine.contains_key(key) && !disk.contains_key(key) ==> merged_rows(mine, disk)[key]
            == mine[key],
{
}

/// Merging the same store a second time changes nothing.
pub proof fn merge_is_idempotent(
    mine: Map<Seq<char>, ReadingProgress>,
    disk: Map<Seq<char>, ReadingProgress>,
)
    ensures
        merged_rows(mine, merged_rows(mine, disk)) == merged_rows(mine, disk),
{
    assert(merged_rows(mine, merged_rows(mine, disk)) =~= merged_rows(mine, disk));
}

/// Two writers that merge into one store reach the same pages and times,
/// whichever of them comes first.
pub proof fn merge_order_does_not_matter(
    a: Map<Seq<char>, ReadingProgress>,
    b: Map<Seq<char>, ReadingProgress>,
    disk: Map<Seq<char>, ReadingProgress>,
)
    ensures
        ({
            let x = merged_rows(a, merged_rows(b, disk));
            let y = merged_rows(b, merged_rows(a, disk));
            &&& x.dom() == y.dom()
            &&& forall|key: Seq<char>| #[trigger]
                x.contains_key(key) ==> x[key].current_page == y[key].current_page
                    && x[key].last_read_at == y[key].last_read_at
        }),
{
    let x = merged_rows(a, merged_rows(b, disk));
    let y = merged_rows(b, merged_rows(a, disk));
    assert(x.dom() =~= y.dom());
}

/// The reader is authoritative for its own chapters, even moving back, and a
/// chapter that only the disk knows is preserved.
pub proof fn overlay_is_authoritative(
    mine: Map<Seq<char>, ReadingProgress>,
    disk: Map<Seq<char>, ReadingProgress>,
    key: Seq<char>,
)
    ensures
        mine.contains_key(key) ==> disk.union_prefer_right(mine).contains_key(key)
            && disk.union_prefer_right(mine)[key] == mine[key],
        disk.contains_key(key) && !mine.contains_key(key) ==> disk.union_prefer_right(
            mine,
        ).contains_key(key) && disk.union_prefer_right(mine)[key] == disk[key],
        !mine.contains_key(key) && !disk.contains_key(key) ==> !disk.union_prefer_right(
            mine,
        ).contains_key(key),
{
}

/// Overlaying the same store a second time changes nothing.
pub proof fn overlay_is_idempotent(
    mine: Map<Seq<char>, ReadingProgress>,
    disk: Map<Seq<char>, ReadingProgress>,
)
    ensures
        disk.union_prefer_right(mine).union_prefer_right(mine) == disk.union_prefer_right(mine),
{
    assert(disk.union_prefer_right(mine).union_prefer_right(mine) =~= disk.union_prefer_right(mine));
}

fn disk_or_empty(disk: Option<ProgressStore>) -> (res: ProgressStore)
    ensures
        res.rows() == stored_rows(disk),
        res.opened() == stored_opened(disk),
{
    match disk {
        Some(store) => store,
        None => ProgressStore::default(),
    }
}

proof fn lemma_take_next<V>(l: Seq<(Seq<char>, V)>, i: int)
    requires
        ascending(l),
        0 <= i < l.len(),
    ensures
        map_of(l.take(i + 1)) == map_of(l.take(i)).insert(l[i].0, l[i].1),
        !map_of(l.take(i)).contains_key(l[i].0),
{
    crate::strmap::lemma_prefix(l, i);
}

proof fn lemma_map_values(l: Seq<(Seq<char>, String)>)
    requires
        ascending(l),
    ensures
        ascending(l.map_values(|e: (Seq<char>, String)| (e.0, e.1@))),
        map_of(l.map_values(|e: (Seq<char>, String)| (e.0, e.1@))) == map_of(l).map_values(
            |s: String| s@,
        ),
{
    let m = l.map_values(|e: (Seq<char>, String)| (e.0, e.1@));
    assert forall|i: int, j: int| 0 <= i < j < m.len() implies crate::text::text_rank(
        (#[trigger] m[i]).0,
        (#[trigger] m[j]).0,
    ) == crate::order::Rank::Less by {
        assert(m[i].0 == l[i].0 && m[j].0 == l[j].0);
    }
    assert forall|k: Seq<char>| #[trigger] map_of(m).contains_key(k) <==> map_of(l).contains_key(k) by {
        if map_of(m).contains_key(k) {
            let i = choose|i: int| 0 <= i < m.len() && (#[trigger] m[i]).0 == k;
            assert(l[i].0 == k);
        }
        if map_of(l).contains_key(k) {
            let i = choose|i: int| 0 <= i < l.len() && (#[trigger] l[i]).0 == k;
            assert(m[i].0 == k);
        }
    }
    assert forall|k: Seq<char>| #[trigger] map_of(m).contains_key(k) implies map_of(m)[k] == map_of(
        l,
    )[k]@ by {
        let i = choose|i: int| 0 <= i < m.len() && (#[trigger] m[i]).0 == k;
        crate::strmap::lemma_listed(m, i);
        crate::strmap::lemma_listed(l, i);
    }
    assert(map_of(m) =~= map_of(l).map_values(|s: String| s@));
}

/// The last page is the one before the page count: being on it or beyond is being
/// finished, being on an earlier one is not, and without a page count nothing is.
pub proof fn last_page_is_the_finish(p: ReadingProgress)
    ensures
        p.total_pages > 0 && p.current_page == p.total_pages - 1 ==> p.finished(),
        p.total_pages > 0 && p.current_page > p.total_pages - 1 ==> p.finished(),
        p.total_pages > 0 && p.current_page < p.total_pages - 1 ==> !p.finished(),
        p.total_pages == 0 ==> !p.finished(),
{
}

/// A merged row takes the further page and the later time of the two, each from
/// one of them, and the page count of the writer.
pub proof fn merged_rows_take_the_furthest(
    mine: Map<Seq<char>, ReadingProgress>,
    disk: Map<Seq<char>, ReadingProgress>,
    key: Seq<char>,
)
    requires
        mine.contains_key(key),
        disk.contains_key(key),
    ensures
        ({
            let row = merged_rows(mine, disk)[key];
            &&& merged_rows(mine, disk).contains_key(key)
            &&& row.current_page == mine[key].current_page || row.current_page
                == disk[key].current_page
            &&& row.current_page >= mine[key].current_page
            &&& row.current_page >= disk[key].current_page
            &&& row.last_read_at == mine[key].last_read_at || row.last_read_at
                == disk[key].last_read_at
            &&& row.last_read_at >= mine[key].last_read_at
            &&& row.last_read_at >= disk[key].last_read_at
            &&& row.total_pages == mine[key].total_pages
        }),
{
}

/// Rows hold what they are made of, a missing store holds nothing, and rows are
/// listed one by one.
pub proof fn rows_are_modelled_faithfully(
    current_page: usize,
    total_pages: usize,
    last_read_at: u64,
    store: ProgressStore,
    v: Seq<(&str, ReadingProgress)>,
    o: Seq<(&str, &str)>,
    i: int,
)
    requires
        0 <= i < v.len(),
        i < o.len(),
    ensures
        progress_row(current_page, total_pages, last_read_at).current_page == current_page,
        progress_row(current_page, total_pages, last_read_at).total_pages == total_pages,
        progress_row(current_page, total_pages, last_read_at).last_read_at == last_read_at,
        stored_rows(Some(store)) == store.rows(),
        stored_opened(Some(store)) == store.opened(),
        stored_rows(None) == Map::<Seq<char>, ReadingProgress>::empty(),
        stored_opened(None) == Map::<Seq<char>, Seq<char>>::empty(),
        row_views(v).len() == v.len(),
        row_views(v)[i] == (v[i].0@, v[i].1),
        opened_views(o).len() == o.len(),
        opened_views(o)[i] == (o[i].0@, o[i].1@),
{
}

/// The rows of `disk` with those of `mine` laid over them.
pub open spec fn overlaid_rows(
    mine: Map<Seq<char>, ReadingProgress>,
    disk: Map<Seq<char>, ReadingProgress>,
) -> Map<Seq<char>, ReadingProgress> {
    disk.union_prefer_right(mine)
}

/// The chapters last opened that `disk` knows, with the report of `mine`.
pub open spec fn reported_opened(
    mine: Map<Seq<char>, Seq<char>>,
    disk: Map<Seq<char>, Seq<char>>,
) -> Map<Seq<char>, Seq<char>> {
    disk.union_prefer_right(mine)
}

/// The writer's word counts for the chapters and series that it knows, and what
/// only the disk knows is kept as it is.
pub proof fn the_writer_has_the_last_word(
    mine: Map<Seq<char>, ReadingProgress>,
    disk: Map<Seq<char>, ReadingProgress>,
    my_opened: Map<Seq<char>, Seq<char>>,
    disk_opened: Map<Seq<char>, Seq<char>>,
    key: Seq<char>,
)
    ensures
        overlaid_rows(mine, disk).contains_key(key) <==> mine.contains_key(key)
            || disk.contains_key(key),
        mine.contains_key(key) ==> overlaid_rows(mine, disk)[key] == mine[key],
        disk.contains_key(key) && !mine.contains_key(key) ==> overlaid_rows(mine, disk)[key]
            == disk[key],
        reported_opened(my_opened, disk_opened).contains_key(key) <==> my_opened.contains_key(key)
            || disk_opened.contains_key(key),
        my_opened.contains_key(key) ==> reported_opened(my_opened, disk_opened)[key]
            == my_opened[key],
        disk_opened.contains_key(key) && !my_opened.contains_key(key) ==> reported_opened(
            my_opened,
            disk_opened,
        )[key] == disk_opened[key],
{
}

} // verus!
