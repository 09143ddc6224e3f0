//! Which source/manga a downloaded series came from. Long-pressing a book on
//! the library shelf uses this to reopen the source's chapter list, so more
//! chapters of the same series can be downloaded from the card.
//!
//! A score is carried along as a value of a type `S` that nothing here looks
//! into.

use vstd::prelude::*;

use crate::json::{text_view, Json, JsonView};
use crate::settings::{listed_names, trimmed_names};
use crate::strmap::{ascending, lemma_prefix, map_of, StringMap};
use crate::text::{join, joined, same_text, texts, trim, trimmed};

verus! {

/// MyAnimeList metadata about a series, cached on the device.
///
/// Every field is optional because MAL itself leaves them out: an
/// unpublished series has no `score` or `rank`, an ongoing one has no final
/// chapter count, and obscure entries can have no genres at all. Treating
/// "absent" as normal (rather than as an error, or as a sentinel like 0)
/// keeps the UI honest — it can show a dash instead of inventing a rating.
#[derive(Debug, Clone, PartialEq)]
pub struct SeriesMeta<S> {
    /// MAL mean score, e.g. 8.74.
    pub score: Option<S>,
    /// Publication status as MAL words it, e.g. "Publishing", "Finished".
    /// Kept as a free-form string rather than an enum: MAL has added status
    /// values before, and an unknown one should display as-is instead of
    /// being flattened into "unknown".
    pub status: Option<String>,
    /// Genre names, in MAL's order.
    pub genres: Vec<String>,
    /// MAL popularity/score rank (1 = highest).
    pub rank: Option<u32>,
    /// Total chapters the series will have, when known. Ongoing series
    /// report 0 on MAL for "not finished yet"; that is stored as `None` so
    /// the UI never renders "chapter 5 of 0".
    pub total_chapters: Option<u32>,
    /// When this metadata was last fetched, as a unix timestamp.
    ///
    /// Stored beside the manga so a re-read costs nothing and a refresh is a
    /// decision rather than a habit. `None` means metadata cached before this
    /// field existed — treated as due, so it refreshes once and then falls
    /// into the normal cadence.
    pub fetched_at: Option<u64>,
}

impl<S> Default for SeriesMeta<S> {
    fn default() -> (res: Self)
        ensures
            res.knows_nothing(),
            res.fetched_at is None,
    {
        SeriesMeta {
            score: None,
            status: None,
            genres: Vec::new(),
            rank: None,
            total_chapters: None,
            fetched_at: None,
        }
    }
}

impl<S> SeriesMeta<S> {
    /// Whether nothing at all is known. A timestamp with nothing attached to
    /// it is not knowledge about the series.
    pub open spec fn knows_nothing(&self) -> bool {
        self.score is None && self.status is None && self.genres@.len() == 0 && self.rank is None
            && self.total_chapters is None
    }

    /// Whether nothing at all is known. Callers use this to avoid attaching
    /// an all-empty `meta` to a series just because a lookup was attempted.
    pub fn is_empty(&self) -> (res: bool)
        ensures
            res == self.knows_nothing(),
    {
        // `fetched_at` deliberately does not count: treating it as knowledge
        // would attach an empty `meta` to everything ever looked up.
        self.score.is_none() && self.status.is_none() && self.genres.len() == 0
            && self.rank.is_none() && self.total_chapters.is_none()
    }

    /// Whether this metadata is old enough to be worth re-checking, `now`
    /// and the age both in seconds. Metadata with no stamp is due.
    pub fn is_stale(&self, now: u64, max_age: u64) -> (res: bool)
        ensures
            res == match self.fetched_at {
                Some(at) => (if now >= at {
                    now - at
                } else {
                    0
                }) >= max_age,
                None => true,
            },
            res == is_due(self.fetched_at, now, max_age),
    {
        match self.fetched_at {
            // A stamp in the future (a clock that was wrong when it was
            // written) reads as "just fetched" rather than as an age of
            // billions of seconds, so a bad clock cannot cause a refresh
            // storm.
            Some(at) => now.saturating_sub(at) >= max_age,
            None => true,
        }
    }
}

/// Where a series came from, and which of its chapters are on disk.
#[derive(Debug, Clone, PartialEq)]
pub struct SeriesRef<S> {
    pub source_id: String,
    pub source_name: String,
    pub manga_id: String,
    pub manga_title: String,
    /// Cover art URL, so a missing cover can be fetched later.
    pub cover_url: Option<String>,
    /// Downloaded chapters: chapter id → CBZ file name in the series dir.
    pub downloaded: StringMap<String>,
    /// MyAnimeList metadata, if it has ever been fetched for this series.
    pub meta: Option<SeriesMeta<S>>,
}

/// The model of [`SeriesRef`].
pub struct OriginView<S> {
    pub source_id: Seq<char>,
    pub source_name: Seq<char>,
    pub manga_id: Seq<char>,
    pub manga_title: Seq<char>,
    pub cover_url: Option<Seq<char>>,
    pub downloaded: Map<Seq<char>, Seq<char>>,
    pub meta: Option<SeriesMeta<S>>,
}

impl<S> View for SeriesRef<S> {
    type V = OriginView<S>;

    open spec fn view(&self) -> OriginView<S> {
        OriginView {
            source_id: self.source_id@,
            source_name: self.source_name@,
            manga_id: self.manga_id@,
            manga_title: self.manga_title@,
            cover_url: text_view(self.cover_url),
            downloaded: self.downloaded@.map_values(|s: String| s@),
            meta: self.meta,
        }
    }
}

impl<S> Default for SeriesRef<S> {
    fn default() -> (res: Self)
        ensures
            res.source_id@.len() == 0,
            res.source_name@.len() == 0,
            res.manga_id@.len() == 0,
            res.manga_title@.len() == 0,
            res.cover_url is None,
            res.downloaded@ == Map::<Seq<char>, String>::empty(),
            res.meta is None,
    {
        SeriesRef {
            source_id: String::new(),
            source_name: String::new(),
            manga_id: String::new(),
            manga_title: String::new(),
            cover_url: None,
            downloaded: StringMap::new(),
            meta: None,
        }
    }
}

/// Metadata worth keeping: what was parsed, unless nothing at all is known.
pub fn known_meta<S>(parsed: Option<SeriesMeta<S>>) -> (res: Option<SeriesMeta<S>>)
    ensures
        res == match parsed {
            Some(meta) if !meta.knows_nothing() => Some(meta),
            _ => None,
        },
        res == kept_meta(parsed),
{
    match parsed {
        Some(meta) => if meta.is_empty() {
            None
        } else {
            Some(meta)
        },
        None => None,
    }
}

/// Lenient `fetched_at` parsing: a whole non-negative number passes through,
/// anything else means "no stamp", which reads as due for a refresh.
pub fn lenient_timestamp(value: &Json) -> (res: Option<u64>)
    ensures
        res == match value@ {
            JsonView::Unsigned(n) => Some(n),
            _ => None,
        },
        res == timestamp(value@),
{
    match value {
        Json::Unsigned(n) => Some(*n),
        _ => None,
    }
}

/// Lenient `status` parsing: a non-empty string passes through (trimmed);
/// anything else means `None`.
pub fn lenient_status(value: &Json) -> (res: Option<String>)
    ensures
        text_view(res) == match value@.text() {
            Some(t) if trimmed(t).len() > 0 => Some(trimmed(t)),
            _ => None,
        },
        text_view(res) == status_text(value@),
{
    if let Json::Text(t) = value {
        let status = trim(t.as_str());
        if status.as_str().unicode_len() > 0 {
            return Some(status);
        }
    }
    None
}

/// Lenient `genres` parsing: non-string and blank entries are dropped, and a
/// wrong-typed value (or `null`) yields an empty list.
pub fn lenient_genres(value: &Json) -> (res: Vec<String>)
    ensures
        texts(res@) == match value@ {
            JsonView::List(items) => listed_names(items),
            _ => Seq::empty(),
        },
        texts(res@) == genre_names(value@),
{
    match value {
        Json::List(items) => trimmed_names(items),
        _ => {
            let res: Vec<String> = Vec::new();
            assert(texts(res@) =~= Seq::<Seq<char>>::empty());
            res
        },
    }
}

/// Lenient count parsing for `rank` / `total_chapters`: a whole number that
/// fits in `u32` passes through, and 0 is treated as "unknown" (MAL reports
/// 0 for an ongoing series' chapter count and for unranked entries).
/// Anything else — a float, a negative, a string, `null` — is `None`.
pub fn lenient_count(value: &Json) -> (res: Option<u32>)
    ensures
        res == match value@.small() {
            Some(n) if n > 0 => Some(n),
            _ => None,
        },
        res == known_count(value@),
{
    match value.small() {
        Some(n) => if n > 0 {
            Some(n)
        } else {
            None
        },
        None => None,
    }
}

/// Map from series directory name (under the library root) to its origin.
#[derive(Debug, Clone)]
pub struct SeriesIndex<S> {
    series: StringMap<SeriesRef<S>>,
}

impl<S> Default for SeriesIndex<S> {
    fn default() -> (res: Self)
        ensures
            res@ == Map::<Seq<char>, OriginView<S>>::empty(),
    {
        let res = SeriesIndex { series: StringMap::new() };
        assert(res@ =~= Map::<Seq<char>, OriginView<S>>::empty());
        res
    }
}

impl<S> View for SeriesIndex<S> {
    type V = Map<Seq<char>, OriginView<S>>;

    closed spec fn view(&self) -> Map<Seq<char>, OriginView<S>> {
        self.series@.map_values(|r: SeriesRef<S>| r@)
    }
}

/// What recording an origin for a directory leaves there: the download history
/// is kept, and so is the metadata unless the new origin carries some.
pub open spec fn recorded<S>(
    index: Map<Seq<char>, OriginView<S>>,
    dir: Seq<char>,
    origin: OriginView<S>,
) -> OriginView<S> {
    if index.contains_key(dir) {
        OriginView {
            downloaded: index[dir].downloaded,
            meta: if origin.meta is Some {
                origin.meta
            } else {
                index[dir].meta
            },
            ..origin
        }
    } else {
        origin
    }
}

/// An origin with a chapter added to its downloads.
pub open spec fn with_download<S>(
    origin: OriginView<S>,
    chapter_id: Seq<char>,
    file_name: Seq<char>,
) -> OriginView<S> {
    OriginView { downloaded: origin.downloaded.insert(chapter_id, file_name), ..origin }
}

/// An origin without the downloads of a file.
pub open spec fn without_file<S>(origin: OriginView<S>, file_name: Seq<char>) -> OriginView<S> {
    OriginView {
        downloaded: Map::new(
            |id: Seq<char>| origin.downloaded.contains_key(id) && origin.downloaded[id]
                != file_name,
            |id: Seq<char>| origin.downloaded[id],
        ),
        ..origin
    }
}

impl<S> SeriesIndex<S> {
    /// The entries in directory order.
    pub closed spec fn listing(&self) -> Seq<(Seq<char>, SeriesRef<S>)> {
        self.series.listing()
    }

    /// The origin of a series directory, if it was downloaded via a source.
    pub fn get(&self, series_dir: &str) -> (res: Option<&SeriesRef<S>>)
        ensures
            res is Some <==> self@.contains_key(series_dir@),
            res matches Some(r) ==> r@ == self@[series_dir@],
    {
        self.series.get(series_dir)
    }

    /// Record (or refresh) a series' origin, keeping any download history
    /// already known for it — and likewise any MyAnimeList metadata, which
    /// the download path doesn't carry: re-recording an origin after every
    /// chapter download must not silently throw the cached metadata away.
    /// An origin that *does* carry metadata wins, so a refresh can update it.
    pub fn record(&mut self, series_dir: &str, origin: SeriesRef<S>)
        ensures
            final(self)@ == old(self)@.insert(
                series_dir@,
                recorded(old(self)@, series_dir@, origin@),
            ),
    {
        let ghost before = self.series@;
        let entry = match self.series.remove(series_dir) {
            Some(existing) => SeriesRef {
                source_id: origin.source_id,
                source_name: origin.source_name,
                manga_id: origin.manga_id,
                manga_title: origin.manga_title,
                cover_url: origin.cover_url,
                downloaded: existing.downloaded,
                meta: match origin.meta {
                    Some(meta) => Some(meta),
                    None => existing.meta,
                },
            },
            None => origin,
        };
        self.series.insert(series_dir.to_owned(), entry);
        assert(self@ =~= before.map_values(|r: SeriesRef<S>| r@).insert(series_dir@, entry@));
    }

    /// Record that a chapter of `series_dir` is on disk.
    pub fn record_download(&mut self, series_dir: &str, chapter_id: &str, file_name: &str)
        ensures
            final(self)@ == if old(self)@.contains_key(series_dir@) {
                old(self)@.insert(
                    series_dir@,
                    with_download(old(self)@[series_dir@], chapter_id@, file_name@),
                )
            } else {
                old(self)@
            },
    {
        let ghost before = self.series@;
        match self.series.remove(series_dir) {
            Some(existing) => {
                let mut entry = existing;
                entry.downloaded.insert(chapter_id.to_owned(), file_name.to_owned());
                proof {
                    assert(entry.downloaded@.map_values(|s: String| s@)
                        =~= existing.downloaded@.map_values(|s: String| s@).insert(
                        chapter_id@,
                        file_name@,
                    ));
                }
                self.series.insert(series_dir.to_owned(), entry);
                assert(self@ =~= before.map_values(|r: SeriesRef<S>| r@).insert(
                    series_dir@,
                    entry@,
                ));
            },
            None => {
                assert(self@ =~= before.map_values(|r: SeriesRef<S>| r@));
            },
        }
    }

    /// Forget a downloaded chapter (e.g. after deleting its file).
    pub fn forget_download(&mut self, series_dir: &str, file_name: &str)
        ensures
            final(self)@ == if old(self)@.contains_key(series_dir@) {
                old(self)@.insert(
                    series_dir@,
                    without_file(old(self)@[series_dir@], file_name@),
                )
            } else {
                old(self)@
            },
    {
        let ghost before = self.series@;
        match self.series.remove(series_dir) {
            Some(existing) => {
                let ghost was = existing@;
                let mut entry = existing;
                entry.downloaded = without_value(&entry.downloaded, file_name);
                assert(entry@.downloaded =~= without_file(was, file_name@).downloaded);
                self.series.insert(series_dir.to_owned(), entry);
                assert(self@ =~= before.map_values(|r: SeriesRef<S>| r@).insert(
                    series_dir@,
                    entry@,
                ));
            },
            None => {
                assert(self@ =~= before.map_values(|r: SeriesRef<S>| r@));
            },
        }
    }

    /// Drop a series entirely (e.g. after deleting its directory).
    pub fn remove(&mut self, series_dir: &str)
        ensures
            final(self)@ == old(self)@.remove(series_dir@),
    {
        let ghost before = self.series@;
        let _ = self.series.remove(series_dir);
        assert(self@ =~= before.map_values(|r: SeriesRef<S>| r@).remove(series_dir@));
    }

    /// Every recorded series directory and its origin, in directory order.
    /// Used by storage accounting to size up what's been downloaded.
    pub fn iter(&self) -> (res: Vec<(&str, &SeriesRef<S>)>)
        ensures
            entry_views(res@) == self.listing(),
            ascending(self.listing()),
            map_of(self.listing()).map_values(|r: SeriesRef<S>| r@) == self@,
    {
        let ghost l = self.series.listing();
        let n: usize = self.series.len();
        let mut res: Vec<(&str, &SeriesRef<S>)> = Vec::new();
        let mut i: usize = 0;
        while i < n
            invariant
                i <= n == l.len(),
                l == self.series.listing(),
                entry_views(res@) == l.take(i as int),
            decreases n - i,
        {
            let ghost before = entry_views(res@);
            res.push((self.series.key_at(i), self.series.value_at(i)));
            assert(entry_views(res@) =~= before.push(l[i as int]));
            assert(l.take(i + 1) =~= l.take(i as int).push(l[i as int]));
            i = i + 1;
        }
        assert(l.take(n as int) =~= l);
        res
    }

    /// The series downloaded from this source/manga, if any: the first one in
    /// directory order.
    pub fn find_manga(&self, source_id: &str, manga_id: &str) -> (res: Option<
        (&str, &SeriesRef<S>),
    >)
        ensures
            ascending(self.listing()),
            map_of(self.listing()).map_values(|r: SeriesRef<S>| r@) == self@,
            match res {
                Some((dir, r)) => exists|i: int|
                    0 <= i < self.listing().len() && #[trigger] self.listing()[i] == (dir@, *r)
                        && is_from(*r, source_id@, manga_id@) && forall|k: int|
                        0 <= k < i ==> !is_from(
                            (#[trigger] self.listing()[k]).1,
                            source_id@,
                            manga_id@,
                        ),
                None => forall|k: int|
                    0 <= k < self.listing().len() ==> !is_from(
                        (#[trigger] self.listing()[k]).1,
                        source_id@,
                        manga_id@,
                    ),
            },
            ({
                let first = first_from(self.listing(), source_id@, manga_id@);
                match res {
                    Some((dir, r)) => first < self.listing().len() && self.listing()[first] == (
                        dir@,
                        *r,
                    ),
                    None => first == self.listing().len(),
                }
            }),
    {
        let ghost l = self.series.listing();
        let n: usize = self.series.len();
        let mut i: usize = 0;
        while i < n
            invariant
                i <= n == l.len(),
                l == self.series.listing(),
                ascending(l),
                forall|k: int|
                    0 <= k < i ==> !is_from((#[trigger] l[k]).1, source_id@, manga_id@),
            decreases n - i,
        {
            let r = self.series.value_at(i);
            if same_text(r.source_id.as_str(), source_id) && same_text(
                r.manga_id.as_str(),
                manga_id,
            ) {
                let dir = self.series.key_at(i);
                assert(self.listing()[i as int] == (dir@, *r));
                proof {
                    first_entry_of_a_manga_counts(l, source_id@, manga_id@, i as int);
                }
                return Some((dir, r));
            }
            i = i + 1;
        }
        proof {
            first_entry_of_a_manga_counts(l, source_id@, manga_id@, n as int);
        }
        None
    }

    /// Where the index lives in a library.
    pub fn path(library: &str) -> (res: String)
        ensures
            res@ == joined(joined(library@, ".gideon"@), "series.json"@),
            res@ == index_path(library@),
    {
        join(join(library, ".gideon").as_str(), "series.json")
    }
}

/// Whether an origin is the given manga of the given source.
pub open spec fn is_from<S>(r: SeriesRef<S>, source_id: Seq<char>, manga_id: Seq<char>) -> bool {
    r.source_id@ == source_id && r.manga_id@ == manga_id
}

/// Entries with their directories as texts.
pub open spec fn entry_views<S>(v: Seq<(&str, &SeriesRef<S>)>) -> Seq<(Seq<char>, SeriesRef<S>)> {
    v.map_values(|e: (&str, &SeriesRef<S>)| (e.0@, *e.1))
}

/// The entries of `map` whose value is not `value`.
fn without_value(map: &StringMap<String>, value: &str) -> (res: StringMap<String>)
    ensures
        res@.map_values(|s: String| s@) == Map::new(
            |key: Seq<char>| map@.contains_key(key) && map@[key]@ != value@,
            |key: Seq<char>| map@[key]@,
        ),
{
    let ghost l = map.listing();
    let n: usize = map.len();
    let mut res: StringMap<String> = StringMap::new();
    let mut i: usize = 0;
    proof {
        assert(map_of(l.take(0)) =~= Map::<Seq<char>, String>::empty());
    }
    while i < n
        invariant
            i <= n == l.len(),
            l == map.listing(),
            ascending(l),
            forall|key: Seq<char>| #[trigger]
                res@.contains_key(key) <==> map_of(l.take(i as int)).contains_key(key) && map_of(
                    l.take(i as int),
                )[key]@ != value@,
            forall|key: Seq<char>| #[trigger]
                res@.contains_key(key) ==> res@[key]@ == map_of(l.take(i as int))[key]@,
        decreases n - i,
    {
        proof {
            lemma_prefix(l, i as int);
        }
        let key = map.key_at(i);
        let file = map.value_at(i);
        if !same_text(file.as_str(), value) {
            res.insert(key.to_owned(), file.clone());
        }
        i = i + 1;
    }
    assert(l.take(n as int) =~= l);
    assert(res@.map_values(|s: String| s@) =~= Map::new(
        |key: Seq<char>| map@.contains_key(key) && map@[key]@ != value@,
        |key: Seq<char>| map@[key]@,
    ));
    res
}

/// Re-recording an origin keeps the download history and, unless the new
/// origin carries metadata, the metadata; a new origin's metadata wins.
pub proof fn recording_keeps_history<S>(
    index: Map<Seq<char>, OriginView<S>>,
    dir: Seq<char>,
    origin: OriginView<S>,
)
    requires
        index.contains_key(dir),
    ensures
        recorded(index, dir, origin).downloaded == index[dir].downloaded,
        origin.meta is None ==> recorded(index, dir, origin).meta == index[dir].meta,
        origin.meta is Some ==> recorded(index, dir, origin).meta == origin.meta,
        recorded(index, dir, origin).source_id == origin.source_id,
        recorded(index, dir, origin).manga_id == origin.manga_id,
{
}

/// Recording the same origin twice is the same as recording it once.
pub proof fn recording_is_idempotent<S>(
    index: Map<Seq<char>, OriginView<S>>,
    dir: Seq<char>,
    origin: OriginView<S>,
)
    ensures
        ({
            let once = index.insert(dir, recorded(index, dir, origin));
            once.insert(dir, recorded(once, dir, origin)) == once
        }),
{
    let once = index.insert(dir, recorded(index, dir, origin));
    assert(once.insert(dir, recorded(once, dir, origin)) =~= once);
}

/// Forgetting a file that was just downloaded as a new chapter leaves the
/// history as it was, provided no other chapter is in that file.
pub proof fn forgetting_undoes_a_download<S>(
    origin: OriginView<S>,
    chapter_id: Seq<char>,
    file_name: Seq<char>,
)
    requires
        !origin.downloaded.contains_key(chapter_id),
        forall|id: Seq<char>| #[trigger]
            origin.downloaded.contains_key(id) ==> origin.downloaded[id] != file_name,
    ensures
        without_file(with_download(origin, chapter_id, file_name), file_name) == origin,
{
    assert(without_file(with_download(origin, chapter_id, file_name), file_name).downloaded
        =~= origin.downloaded);
}

/// Once a file is forgotten, no chapter is in it any more, and every chapter in
/// another file is kept.
pub proof fn forgetting_is_exact<S>(origin: OriginView<S>, file_name: Seq<char>, id: Seq<char>)
    ensures
        ({
            let after = without_file(origin, file_name).downloaded;
            &&& after.contains_key(id) ==> after[id] != file_name
            &&& origin.downloaded.contains_key(id) && origin.downloaded[id] != file_name
                ==> after.contains_key(id) && after[id] == origin.downloaded[id]
        }),
{
}

/// Recording an origin changes what the source says of the series, all of it, and
/// nothing else; an origin for a new directory is taken as it is.
pub proof fn recording_takes_the_origin<S>(
    index: Map<Seq<char>, OriginView<S>>,
    dir: Seq<char>,
    origin: OriginView<S>,
)
    ensures
        !index.contains_key(dir) ==> recorded(index, dir, origin) == origin,
        recorded(index, dir, origin).source_id == origin.source_id,
        recorded(index, dir, origin).source_name == origin.source_name,
        recorded(index, dir, origin).manga_id == origin.manga_id,
        recorded(index, dir, origin).manga_title == origin.manga_title,
        recorded(index, dir, origin).cover_url == origin.cover_url,
{
}

/// Downloads come and go without a trace in the rest of the entry: a download is
/// added under its chapter, and a forgotten file takes with it exactly the
/// chapters in it.
pub proof fn downloads_touch_nothing_else<S>(
    origin: OriginView<S>,
    chapter_id: Seq<char>,
    file_name: Seq<char>,
    id: Seq<char>,
)
    ensures
        ({
            let more = with_download(origin, chapter_id, file_name);
            &&& more.downloaded == origin.downloaded.insert(chapter_id, file_name)
            &&& more.source_id == origin.source_id
            &&& more.source_name == origin.source_name
            &&& more.manga_id == origin.manga_id
            &&& more.manga_title == origin.manga_title
            &&& more.cover_url == origin.cover_url
            &&& more.meta == origin.meta
        }),
        ({
            let less = without_file(origin, file_name);
            &&& less.downloaded.contains_key(id) <==> origin.downloaded.contains_key(id)
                && origin.downloaded[id] != file_name
            &&& less.downloaded.contains_key(id) ==> less.downloaded[id] == origin.downloaded[id]
            &&& less.source_id == origin.source_id
            &&& less.source_name == origin.source_name
            &&& less.manga_id == origin.manga_id
            &&& less.manga_title == origin.manga_title
            &&& less.cover_url == origin.cover_url
            &&& less.meta == origin.meta
        }),
{
}

/// Any one fact about a series is knowledge of it; the time of asking is not.
pub proof fn any_fact_is_knowledge<S>(m: SeriesMeta<S>)
    ensures
        m.score is Some ==> !m.knows_nothing(),
        m.status is Some ==> !m.knows_nothing(),
        m.genres@.len() > 0 ==> !m.knows_nothing(),
        m.rank is Some ==> !m.knows_nothing(),
        m.total_chapters is Some ==> !m.knows_nothing(),
        m.score is None && m.status is None && m.genres@.len() == 0 && m.rank is None
            && m.total_chapters is None ==> m.knows_nothing(),
{
}

/// An origin is modelled by all that it holds, and an entry belongs to a manga
/// when both the source and the manga agree.
pub proof fn origins_are_modelled_faithfully<S>(
    r: SeriesRef<S>,
    source_id: Seq<char>,
    manga_id: Seq<char>,
    id: Seq<char>,
    v: Seq<(&str, &SeriesRef<S>)>,
    i: int,
)
    requires
        0 <= i < v.len(),
    ensures
        r@.source_id == r.source_id@,
        r@.source_name == r.source_name@,
        r@.manga_id == r.manga_id@,
        r@.manga_title == r.manga_title@,
        r.cover_url is None ==> r@.cover_url is None,
        r.cover_url matches Some(url) ==> r@.cover_url == Some(url@),
        r@.downloaded.contains_key(id) <==> r.downloaded@.contains_key(id),
        r.downloaded@.contains_key(id) ==> r@.downloaded[id] == r.downloaded@[id]@,
        r@.meta == r.meta,
        r.source_id@ != source_id ==> !is_from(r, source_id, manga_id),
        r.manga_id@ != manga_id ==> !is_from(r, source_id, manga_id),
        is_from(r, r.source_id@, r.manga_id@),
        entry_views(v).len() == v.len(),
        entry_views(v)[i] == (v[i].0@, *v[i].1),
{
}

/// Whether metadata that was fetched at some time is due for a refresh.
pub open spec fn is_due(fetched_at: Option<u64>, now: u64, max_age: u64) -> bool {
    match fetched_at {
        Some(at) => (if now >= at {
            now - at
        } else {
            0
        }) >= max_age,
        None => true,
    }
}

/// The metadata that is kept of what was parsed.
pub open spec fn kept_meta<S>(parsed: Option<SeriesMeta<S>>) -> Option<SeriesMeta<S>> {
    match parsed {
        Some(meta) if !meta.knows_nothing() => Some(meta),
        _ => None,
    }
}

/// The publication status that a value states.
pub open spec fn status_text(value: JsonView) -> Option<Seq<char>> {
    match value.text() {
        Some(t) if trimmed(t).len() > 0 => Some(trimmed(t)),
        _ => None,
    }
}

/// The genres that a value lists.
pub open spec fn genre_names(value: JsonView) -> Seq<Seq<char>> {
    match value {
        JsonView::List(items) => listed_names(items),
        _ => Seq::empty(),
    }
}

/// The count that a value states.
pub open spec fn known_count(value: JsonView) -> Option<u32> {
    match value.small() {
        Some(n) if n > 0 => Some(n),
        _ => None,
    }
}

/// The timestamp that a value states.
pub open spec fn timestamp(value: JsonView) -> Option<u64> {
    match value {
        JsonView::Unsigned(n) => Some(n),
        _ => None,
    }
}

/// Metadata is due once it is as old as it may get and stays due; without a time
/// it is due at once, and a time in the future counts as now.
pub proof fn metadata_falls_due_with_age(at: u64, now: u64, later: u64, max_age: u64)
    requires
        now <= later,
    ensures
        is_due(None, now, max_age),
        at <= now ==> (is_due(Some(at), now, max_age) <==> at + max_age <= now),
        at > now ==> (is_due(Some(at), now, max_age) <==> max_age == 0),
        is_due(Some(at), now, max_age) ==> is_due(Some(at), later, max_age),
{
}

/// Metadata is kept as it is, unless it says nothing.
pub proof fn empty_metadata_is_not_kept<S>(meta: SeriesMeta<S>)
    ensures
        meta.knows_nothing() ==> kept_meta(Some(meta)) is None,
        !meta.knows_nothing() ==> kept_meta(Some(meta)) == Some(meta),
        kept_meta(None::<SeriesMeta<S>>) is None,
{
}

/// Metadata is read by kind: a status from a string that is not blank, genres from
/// an array, a count from a whole number above zero, a time from any whole number.
pub proof fn metadata_is_read_by_kind(
    t: Seq<char>,
    n: u64,
    items: Seq<Option<Seq<char>>>,
    b: bool,
)
    ensures
        trimmed(t).len() > 0 ==> status_text(JsonView::Text(t)) == Some(trimmed(t)),
        trimmed(t).len() == 0 ==> status_text(JsonView::Text(t)) is None,
        status_text(JsonView::Unsigned(n)) is None,
        status_text(JsonView::List(items)) is None,
        status_text(JsonView::Bool(b)) is None,
        status_text(JsonView::Other) is None,
        genre_names(JsonView::List(items)) == listed_names(items),
        genre_names(JsonView::Text(t)).len() == 0,
        genre_names(JsonView::Unsigned(n)).len() == 0,
        genre_names(JsonView::Bool(b)).len() == 0,
        genre_names(JsonView::Other).len() == 0,
        0 < n < 0x1_0000_0000 ==> known_count(JsonView::Unsigned(n)) == Some(n as u32),
        n == 0 || n >= 0x1_0000_0000 ==> known_count(JsonView::Unsigned(n)) is None,
        known_count(JsonView::Text(t)) is None,
        known_count(JsonView::List(items)) is None,
        known_count(JsonView::Bool(b)) is None,
        known_count(JsonView::Other) is None,
        timestamp(JsonView::Unsigned(n)) == Some(n),
        timestamp(JsonView::Text(t)) is None,
        timestamp(JsonView::List(items)) is None,
        timestamp(JsonView::Bool(b)) is None,
        timestamp(JsonView::Other) is None,
{
}

/// The place of the first entry of a listing that is the given manga of the given
/// source.
pub open spec fn first_from<S>(
    l: Seq<(Seq<char>, SeriesRef<S>)>,
    source_id: Seq<char>,
    manga_id: Seq<char>,
) -> int
    decreases l.len(),
{
    if l.len() == 0 || is_from(l[0].1, source_id, manga_id) {
        0
    } else {
        1 + first_from(l.drop_first(), source_id, manga_id)
    }
}

/// The first entry of a manga counts, and there is none only where no entry is of
/// that manga.
pub proof fn first_entry_of_a_manga_counts<S>(
    l: Seq<(Seq<char>, SeriesRef<S>)>,
    source_id: Seq<char>,
    manga_id: Seq<char>,
    i: int,
)
    requires
        0 <= i <= l.len(),
        forall|k: int|
            0 <= k < i ==> (#[trigger] l[k]).1.source_id@ != source_id || l[k].1.manga_id@
                != manga_id,
        i < l.len() ==> l[i].1.source_id@ == source_id && l[i].1.manga_id@ == manga_id,
    ensures
        first_from(l, source_id, manga_id) == i,
    decreases l.len(),
{
    if i > 0 {
        let rest = l.drop_first();
        assert(l[0].1.source_id@ != source_id || l[0].1.manga_id@ != manga_id);
        assert forall|k: int| 0 <= k < i - 1 implies (#[trigger] rest[k]).1.source_id@ != source_id
            || rest[k].1.manga_id@ != manga_id by {
            assert(rest[k] == l[k + 1]);
        }
        first_entry_of_a_manga_counts(rest, source_id, manga_id, i - 1);
    }
}

/// The path of the index of a library.
pub open spec fn index_path(library: Seq<char>) -> Seq<char> {
    joined(joined(library, ".gideon"@), "series.json"@)
}

/// The index lives in the hidden directory of its library.
pub proof fn index_lives_in_its_library(library: Seq<char>)
    requires
        library.len() > 0,
        library.last() != '/',
    ensures
        index_path(library) == library + "/.gideon/series.json"@,
{
    reveal_strlit(".gideon");
    reveal_strlit("series.json");
    reveal_strlit("/.gideon/series.json");
    assert(index_path(library) =~= library + "/.gideon/series.json"@);
}

} // verus!
