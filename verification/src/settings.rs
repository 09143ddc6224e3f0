//! User settings.
//!
//! Parsing is lenient: a malformed value of a lenient field falls back to a
//! default instead of failing the whole file.
//!
//! # Two scopes
//!
//! [`Settings`] is the *device* file (`$HOME/.config/gideon/settings.json`).
//! [`ProfileSettings`] is the *reader* file, one per profile, living in that
//! profile's own library directory. A Kobo shared by two people has one
//! frontlight, one radio and one disk, but two sets of eyes: the split follows
//! that line exactly, and [`Settings::with_profile`] merges them back into the
//! single `Settings` value the rest of gideon already consumes, so no call site
//! has to know the difference.

use vstd::prelude::*;

use crate::json::{text_view, Json, JsonView};
pub use crate::storage::{parse_storage_size, split_storage_size, StorageSize};
use crate::text::{join, joined, lowered, same_text, texts, trim, trimmed,
    trimming_is_idempotent, words_are_stable};

verus! {

/// Default storage limit for downloaded chapters: 2 GB.
pub const DEFAULT_STORAGE_LIMIT_BYTES: u64 = 2 * 1024 * 1024 * 1024;

/// How long a finished chapter is kept before automatic cleanup removes its
/// CBZ, in hours. Two days: long enough that "I'll flip back to check that
/// panel" still works the next evening, short enough that a binge doesn't
/// silt up the device.
pub const DEFAULT_FINISHED_CLEANUP_HOURS: u32 = 48;

/// The values the settings screen cycles `finished_cleanup_hours` through:
/// never / 1 day / 2 days / 3 days / 1 week. Deliberately coarse — this
/// setting decides when user data is deleted, and a spinner that can land on
/// "3 hours" invites a mis-set that eats a chapter someone was still using.
pub const FINISHED_CLEANUP_STEPS: [u32; 5] = [0, 24, 48, 72, 168];

/// The whole settings surface, as every call site sees it.
///
/// Physically this struct is the union of two files. The fields listed below
/// are the *device-global* half, shared by everyone using the Kobo, because
/// each one describes a piece of hardware or of the install rather than a
/// person's taste: `profiles`, `active_profile`, `source_lists`, `languages`,
/// `storage_size_limit`, `auto_check_updates`, `color_post_process`,
/// `wifi_auto_connect`, `idle_suspend_minutes`, `frontlight_brightness` and
/// `frontlight_warmth`.
///
/// The other fields are per-reader; see [`ProfileSettings`].
#[derive(Debug, Clone, PartialEq)]
pub struct Settings {
    /// Extra Aidoku-compatible source list URLs, on top of the preinstalled
    /// defaults.
    pub source_lists: Vec<String>,
    /// If set, only show sources/chapters for these languages.
    pub languages: Vec<String>,
    /// Profiles: each profile sees its own library subdirectory. The
    /// "default" profile uses the library root (existing books stay
    /// visible); any other profile lives in `<library>/@<name>`.
    pub profiles: Vec<String>,
    /// The profile whose library is currently shown.
    pub active_profile: String,
    /// Storage budget for downloaded chapters, e.g. "2 GB" or "500 MB".
    /// Oldest-read chapters are evicted when the budget is exceeded.
    pub storage_size_limit: StorageSize,
    /// How many unread chapters to pre-download ahead of the one being read.
    /// 0 disables pre-downloading.
    pub predownload_unread_chapters: u32,
    /// Check GitHub releases for gideon updates automatically.
    pub auto_check_updates: bool,
    /// Reader fit mode: "contain" (whole page visible) or "fit-width"
    /// (page fills the screen width and scrolls vertically). Unknown values
    /// behave like "contain".
    pub reader_fit: String,
    /// Reader rotation in degrees: 0, 90, 180 or 270.
    pub reader_rotation: u32,
    /// Whether the reading orientation is locked: rotation changes (the
    /// reader's rotate gesture / controls sheet) persist across sessions
    /// when locked, and stay session-only otherwise ("auto").
    pub reader_rotation_locked: bool,
    /// Kaleido color post-process: "vivid" (the strongest saturation boost,
    /// the default), "standard" (no boost — clears rainbow banding on
    /// gradients) or "off".
    pub color_post_process: String,
    /// Which colour profile the UI draws in: "ink-rust" (the default),
    /// "indigo", "sumi", "botanical", or "mono".
    pub color_profile: String,
    /// How the Library draws itself: "shelf" (the cover grid) or "list" (a
    /// dense row per series carrying its MyAnimeList metadata, download state
    /// and progress, the default).
    pub library_view: String,
    /// What Today draws above the Continue card: "heatmap" (the activity
    /// grid, months at a glance) or "calendar" (this month, with a bar per
    /// series continuing across the days it was read).
    pub stats_view: String,
    /// Page turns between full (flashing) e-ink refreshes, 4–24. Higher
    /// flashes less often (smoother reading) but lets ghosting build up longer.
    pub reader_full_refresh_interval: u32,
    /// Auto-rotate a horizontal double-page spread (a page wider than it is
    /// tall) by 270° so it fills the screen, while the device orientation
    /// stays locked.
    pub auto_rotate_spreads: bool,
    /// Whether gideon may bring Wi-Fi up on its own (before a network action
    /// and on wake). Off = never auto-connect; the user connects manually from
    /// the Wi-Fi controls.
    pub wifi_auto_connect: bool,
    /// Minutes of inactivity before the device suspends on its own, as if
    /// the sleep cover closed. 0 disables the idle suspend ("never").
    pub idle_suspend_minutes: u32,
    /// Frontlight brightness percent (0–100), restored at startup and
    /// updated from the reader's right-edge slide.
    pub frontlight_brightness: u32,
    /// Frontlight warmth ("night light") percent (0–100), restored at
    /// startup and updated from the reader's left-edge slide.
    pub frontlight_warmth: u32,
    /// How many hours after finishing a chapter its CBZ may be deleted
    /// automatically. 0 means never — the cleanup pass is skipped entirely.
    ///
    /// This is the only setting whose value deletes user files on its own, so
    /// it parses defensively rather than merely leniently: a wrong-typed,
    /// negative or absurd value falls back to the default (48) instead of
    /// being coerced into something small. A settings file that got mangled
    /// must never turn into "clean up everything read in the last hour".
    pub finished_cleanup_hours: u32,
}

/// The model of the per-reader half of [`Settings`].
pub struct ReaderView {
    pub reader_fit: Seq<char>,
    pub reader_rotation: u32,
    pub reader_rotation_locked: bool,
    pub auto_rotate_spreads: bool,
    pub reader_full_refresh_interval: u32,
    pub color_profile: Seq<char>,
    pub library_view: Seq<char>,
    pub stats_view: Seq<char>,
    pub predownload_unread_chapters: u32,
    pub finished_cleanup_hours: u32,
}

/// The model of the device-global half of [`Settings`].
pub struct DeviceView {
    pub source_lists: Seq<Seq<char>>,
    pub languages: Seq<Seq<char>>,
    pub profiles: Seq<Seq<char>>,
    pub active_profile: Seq<char>,
    pub storage_size_limit: u64,
    pub auto_check_updates: bool,
    pub color_post_process: Seq<char>,
    pub wifi_auto_connect: bool,
    pub idle_suspend_minutes: u32,
    pub frontlight_brightness: u32,
    pub frontlight_warmth: u32,
}

/// The model of [`Settings`]: its two halves.
pub struct SettingsView {
    pub device: DeviceView,
    pub reader: ReaderView,
}

impl View for Settings {
    type V = SettingsView;

    open spec fn view(&self) -> SettingsView {
        SettingsView {
            device: DeviceView {
                source_lists: texts(self.source_lists@),
                languages: texts(self.languages@),
                profiles: texts(self.profiles@),
                active_profile: self.active_profile@,
                storage_size_limit: self.storage_size_limit.0,
                auto_check_updates: self.auto_check_updates,
                color_post_process: self.color_post_process@,
                wifi_auto_connect: self.wifi_auto_connect,
                idle_suspend_minutes: self.idle_suspend_minutes,
                frontlight_brightness: self.frontlight_brightness,
                frontlight_warmth: self.frontlight_warmth,
            },
            reader: ReaderView {
                reader_fit: self.reader_fit@,
                reader_rotation: self.reader_rotation,
                reader_rotation_locked: self.reader_rotation_locked,
                auto_rotate_spreads: self.auto_rotate_spreads,
                reader_full_refresh_interval: self.reader_full_refresh_interval,
                color_profile: self.color_profile@,
                library_view: self.library_view@,
                stats_view: self.stats_view@,
                predownload_unread_chapters: self.predownload_unread_chapters,
                finished_cleanup_hours: self.finished_cleanup_hours,
            },
        }
    }
}

/// The settings of a fresh install.
pub open spec fn default_settings() -> SettingsView {
    SettingsView {
        device: DeviceView {
            source_lists: Seq::empty(),
            languages: Seq::empty(),
            profiles: seq!["default"@],
            active_profile: "default"@,
            storage_size_limit: DEFAULT_STORAGE_LIMIT_BYTES,
            auto_check_updates: true,
            color_post_process: "vivid"@,
            wifi_auto_connect: true,
            idle_suspend_minutes: 15,
            frontlight_brightness: 20,
            frontlight_warmth: 0,
        },
        reader: ReaderView {
            reader_fit: "contain"@,
            reader_rotation: 0,
            reader_rotation_locked: true,
            auto_rotate_spreads: false,
            reader_full_refresh_interval: 8,
            color_profile: "ink-rust"@,
            library_view: "list"@,
            stats_view: "heatmap"@,
            predownload_unread_chapters: 2,
            finished_cleanup_hours: DEFAULT_FINISHED_CLEANUP_HOURS,
        },
    }
}

impl Default for Settings {
    fn default() -> (res: Self)
        ensures
            res@ == default_settings(),
    {
        let mut profiles: Vec<String> = Vec::new();
        profiles.push("default".to_owned());
        let res = Settings {
            source_lists: Vec::new(),
            languages: Vec::new(),
            profiles,
            active_profile: "default".to_owned(),
            storage_size_limit: StorageSize(DEFAULT_STORAGE_LIMIT_BYTES),
            predownload_unread_chapters: 2,
            auto_check_updates: true,
            reader_fit: "contain".to_owned(),
            reader_rotation: 0,
            reader_rotation_locked: true,
            color_post_process: "vivid".to_owned(),
            color_profile: default_color_profile(),
            library_view: default_library_view(),
            stats_view: default_stats_view(),
            reader_full_refresh_interval: 8,
            auto_rotate_spreads: false,
            wifi_auto_connect: true,
            idle_suspend_minutes: 15,
            frontlight_brightness: 20,
            frontlight_warmth: 0,
            finished_cleanup_hours: default_finished_cleanup_hours(),
        };
        assert(texts(res.source_lists@) =~= Seq::<Seq<char>>::empty());
        assert(texts(res.languages@) =~= Seq::<Seq<char>>::empty());
        assert(texts(res.profiles@) =~= seq!["default"@]);
        res
    }
}

/// The cleanup delay a fresh install uses.
pub fn default_finished_cleanup_hours() -> (res: u32)
    ensures
        res == 48,
{
    DEFAULT_FINISHED_CLEANUP_HOURS
}

/// The colour profile a fresh install draws in.
pub fn default_color_profile() -> (res: String)
    ensures
        res@ == "ink-rust"@,
{
    "ink-rust".to_owned()
}

/// The Library view a fresh install uses.
///
/// The dense list, not the cover shelf. The list is the view that answers
/// the question you actually have in front of a library — what is on the
/// device, how much of it is unread, what is next — and hiding it behind a
/// title-bar tap meant nobody would ever find it. The shelf is still one tap
/// away for browsing by art, and the choice is per profile and sticky.
pub fn default_library_view() -> (res: String)
    ensures
        res@ == "list"@,
{
    "list".to_owned()
}

/// The statistics view a fresh install uses.
pub fn default_stats_view() -> (res: String)
    ensures
        res@ == "heatmap"@,
{
    "heatmap".to_owned()
}

/// The model of [`ProfileSettings`].
pub struct ProfileView {
    pub reader_fit: Option<Seq<char>>,
    pub reader_rotation: Option<u32>,
    pub reader_rotation_locked: Option<bool>,
    pub auto_rotate_spreads: Option<bool>,
    pub reader_full_refresh_interval: Option<u32>,
    pub color_profile: Option<Seq<char>>,
    pub library_view: Option<Seq<char>>,
    pub stats_view: Option<Seq<char>>,
    pub predownload_unread_chapters: Option<u32>,
    pub finished_cleanup_hours: Option<u32>,
}

/// The per-profile subset of [`Settings`], stored in the profile's own library
/// directory at `<profile_library_dir>/.gideon/settings.json` — the same
/// hidden directory that already holds `progress.json` and `series.json`, so a
/// reader's preferences travel with their books (including through
/// [`crate::profile::convert_default`], which moves that whole directory).
///
/// Every field here is personal taste or a reading habit, not a property of
/// the device.
///
/// # Every field is optional, and that is the migration
///
/// Each field is an `Option`: `None` means "this profile has said nothing,
/// use the device value". That choice is what makes the upgrade path safe.
/// Every device already in the field has all these values in the device-global
/// file and no per-profile file at all; its `ProfileSettings` are
/// `ProfileSettings::default()` — all `None` — and [`Settings::with_profile`]
/// then changes nothing whatsoever. Their reader fit and rotation cannot be
/// lost, because nothing ever overwrites them until the profile explicitly
/// saves a value.
#[derive(Debug, Clone, PartialEq)]
pub struct ProfileSettings {
    /// See [`Settings::reader_fit`]. `None` = use the device value.
    pub reader_fit: Option<String>,
    /// See [`Settings::reader_rotation`]. `None` = use the device value.
    pub reader_rotation: Option<u32>,
    /// See [`Settings::reader_rotation_locked`]. `None` = use the device value.
    pub reader_rotation_locked: Option<bool>,
    /// See [`Settings::auto_rotate_spreads`]. `None` = use the device value.
    pub auto_rotate_spreads: Option<bool>,
    /// See [`Settings::reader_full_refresh_interval`]. `None` = use the device
    /// value; out-of-range (not 4–24) also means `None` rather than a clamp.
    pub reader_full_refresh_interval: Option<u32>,
    /// See [`Settings::color_profile`]. `None` = use the device value.
    pub color_profile: Option<String>,
    /// See [`Settings::library_view`]. `None` = use the device value.
    pub library_view: Option<String>,
    /// See [`Settings::stats_view`]. `None` = use the device value.
    pub stats_view: Option<String>,
    /// See [`Settings::predownload_unread_chapters`]. `None` = use the device
    /// value.
    pub predownload_unread_chapters: Option<u32>,
    /// See [`Settings::finished_cleanup_hours`]. `None` = use the device
    /// value.
    ///
    /// Parsed as defensively here as it is there: this is the one setting that
    /// deletes user files, so a mangled value falls back to "say nothing" —
    /// which means the device value, which means the delay the user chose —
    /// and never to something shorter.
    pub finished_cleanup_hours: Option<u32>,
}

impl View for ProfileSettings {
    type V = ProfileView;

    open spec fn view(&self) -> ProfileView {
        ProfileView {
            reader_fit: text_view(self.reader_fit),
            reader_rotation: self.reader_rotation,
            reader_rotation_locked: self.reader_rotation_locked,
            auto_rotate_spreads: self.auto_rotate_spreads,
            reader_full_refresh_interval: self.reader_full_refresh_interval,
            color_profile: text_view(self.color_profile),
            library_view: text_view(self.library_view),
            stats_view: text_view(self.stats_view),
            predownload_unread_chapters: self.predownload_unread_chapters,
            finished_cleanup_hours: self.finished_cleanup_hours,
        }
    }
}

/// A profile that has said nothing.
pub open spec fn silent_profile() -> ProfileView {
    ProfileView {
        reader_fit: None,
        reader_rotation: None,
        reader_rotation_locked: None,
        auto_rotate_spreads: None,
        reader_full_refresh_interval: None,
        color_profile: None,
        library_view: None,
        stats_view: None,
        predownload_unread_chapters: None,
        finished_cleanup_hours: None,
    }
}

impl Default for ProfileSettings {
    fn default() -> (res: Self)
        ensures
            res@ == silent_profile(),
    {
        ProfileSettings {
            reader_fit: None,
            reader_rotation: None,
            reader_rotation_locked: None,
            auto_rotate_spreads: None,
            reader_full_refresh_interval: None,
            color_profile: None,
            library_view: None,
            stats_view: None,
            predownload_unread_chapters: None,
            finished_cleanup_hours: None,
        }
    }
}

/// A stated value, or else the given one.
pub open spec fn stated<T>(value: Option<T>, otherwise: T) -> T {
    match value {
        Some(v) => v,
        None => otherwise,
    }
}

/// A reader's settings, where a profile's stated values replace those of the
/// device.
pub open spec fn overlaid(reader: ReaderView, p: ProfileView) -> ReaderView {
    ReaderView {
        reader_fit: stated(p.reader_fit, reader.reader_fit),
        reader_rotation: stated(p.reader_rotation, reader.reader_rotation),
        reader_rotation_locked: stated(p.reader_rotation_locked, reader.reader_rotation_locked),
        auto_rotate_spreads: stated(p.auto_rotate_spreads, reader.auto_rotate_spreads),
        reader_full_refresh_interval: stated(
            p.reader_full_refresh_interval,
            reader.reader_full_refresh_interval,
        ),
        color_profile: stated(p.color_profile, reader.color_profile),
        library_view: stated(p.library_view, reader.library_view),
        stats_view: stated(p.stats_view, reader.stats_view),
        predownload_unread_chapters: stated(
            p.predownload_unread_chapters,
            reader.predownload_unread_chapters,
        ),
        finished_cleanup_hours: stated(p.finished_cleanup_hours, reader.finished_cleanup_hours),
    }
}

/// A profile that states every value of a reader's settings.
pub open spec fn outright_profile(reader: ReaderView) -> ProfileView {
    ProfileView {
        reader_fit: Some(reader.reader_fit),
        reader_rotation: Some(reader.reader_rotation),
        reader_rotation_locked: Some(reader.reader_rotation_locked),
        auto_rotate_spreads: Some(reader.auto_rotate_spreads),
        reader_full_refresh_interval: Some(reader.reader_full_refresh_interval),
        color_profile: Some(reader.color_profile),
        library_view: Some(reader.library_view),
        stats_view: Some(reader.stats_view),
        predownload_unread_chapters: Some(reader.predownload_unread_chapters),
        finished_cleanup_hours: Some(reader.finished_cleanup_hours),
    }
}

impl Settings {
    /// Where the settings live in the directory `dir`.
    pub fn path(dir: &str) -> (res: String)
        ensures
            res@ == joined(dir@, "settings.json"@),
            res@ == device_path(dir@),
    {
        join(dir, "settings.json")
    }

    /// Overlay a profile's personal settings onto the device-global ones.
    ///
    /// Only the fields the profile actually states are replaced; everything
    /// else — the radio, the lamp, the disk, the profile roster — passes
    /// through untouched. This is the single point where the two files become
    /// the one `Settings` value the rest of gideon consumes.
    #[must_use]
    pub fn with_profile(self, p: &ProfileSettings) -> (res: Settings)
        ensures
            res@.device == self@.device,
            res@.reader == overlaid(self@.reader, p@),
    {
        Settings {
            source_lists: self.source_lists,
            languages: self.languages,
            profiles: self.profiles,
            active_profile: self.active_profile,
            storage_size_limit: self.storage_size_limit,
            predownload_unread_chapters: stated_or(
                p.predownload_unread_chapters,
                self.predownload_unread_chapters,
            ),
            auto_check_updates: self.auto_check_updates,
            reader_fit: stated_text_or(&p.reader_fit, self.reader_fit),
            reader_rotation: stated_or(p.reader_rotation, self.reader_rotation),
            reader_rotation_locked: stated_or(
                p.reader_rotation_locked,
                self.reader_rotation_locked,
            ),
            color_post_process: self.color_post_process,
            color_profile: stated_text_or(&p.color_profile, self.color_profile),
            library_view: stated_text_or(&p.library_view, self.library_view),
            stats_view: stated_text_or(&p.stats_view, self.stats_view),
            reader_full_refresh_interval: stated_or(
                p.reader_full_refresh_interval,
                self.reader_full_refresh_interval,
            ),
            auto_rotate_spreads: stated_or(p.auto_rotate_spreads, self.auto_rotate_spreads),
            wifi_auto_connect: self.wifi_auto_connect,
            idle_suspend_minutes: self.idle_suspend_minutes,
            frontlight_brightness: self.frontlight_brightness,
            frontlight_warmth: self.frontlight_warmth,
            finished_cleanup_hours: stated_or(
                p.finished_cleanup_hours,
                self.finished_cleanup_hours,
            ),
        }
    }
}

fn stated_or<T: Copy>(value: Option<T>, otherwise: T) -> (res: T)
    ensures
        res == stated(value, otherwise),
{
    match value {
        Some(v) => v,
        None => otherwise,
    }
}

fn stated_text_or(value: &Option<String>, otherwise: String) -> (res: String)
    ensures
        res@ == stated(text_view(*value), otherwise@),
{
    match value {
        Some(v) => v.clone(),
        None => otherwise,
    }
}

impl ProfileSettings {
    /// Extract the per-profile half of a merged [`Settings`], stating every
    /// field explicitly.
    ///
    /// This is what the UI calls when a reader changes one of their own
    /// settings: the merged value it was editing becomes a fully-populated
    /// `ProfileSettings` to save. Note that it deliberately produces all
    /// `Some` — once a profile has saved, it owns these values outright
    /// and no longer drifts with the device file.
    pub fn from_settings(s: &Settings) -> (res: Self)
        ensures
            res@ == outright_profile(s@.reader),
    {
        ProfileSettings {
            reader_fit: Some(s.reader_fit.clone()),
            reader_rotation: Some(s.reader_rotation),
            reader_rotation_locked: Some(s.reader_rotation_locked),
            auto_rotate_spreads: Some(s.auto_rotate_spreads),
            reader_full_refresh_interval: Some(s.reader_full_refresh_interval),
            color_profile: Some(s.color_profile.clone()),
            library_view: Some(s.library_view.clone()),
            stats_view: Some(s.stats_view.clone()),
            predownload_unread_chapters: Some(s.predownload_unread_chapters),
            finished_cleanup_hours: Some(s.finished_cleanup_hours),
        }
    }

    /// Where a profile's settings live in its library directory.
    pub fn path(profile_library_dir: &str) -> (res: String)
        ensures
            res@ == joined(joined(profile_library_dir@, ".gideon"@), "settings.json"@),
            res@ == profile_path(profile_library_dir@),
    {
        join(join(profile_library_dir, ".gideon").as_str(), "settings.json")
    }
}

/// The words that a lenient field keeps, or else its default.
pub open spec fn kept_word(value: JsonView, kept: Set<Seq<char>>, otherwise: Seq<char>) -> Seq<char> {
    match value.word() {
        Some(w) if kept.contains(w) => w,
        _ => otherwise,
    }
}

/// The words that count as stated in an optional field.
pub open spec fn stated_word(value: JsonView, kept: Set<Seq<char>>) -> Option<Seq<char>> {
    match value.word() {
        Some(w) if kept.contains(w) => Some(w),
        _ => None,
    }
}

/// Lenient `finished_cleanup_hours` parsing: a whole number of hours passes
/// through (0 = never); anything else — a float, a negative, a string, a
/// value too large for `u32` — means the default.
///
/// Note what this deliberately does *not* do: it never clamps a hostile value
/// down into range. Clamping a bogus 4 000 000 000 to "1 hour" would make a
/// corrupt file far more destructive than an unreadable one, and the whole
/// point of a cleanup delay is that the user gets the grace period they chose.
pub fn lenient_finished_cleanup_hours(value: &Json) -> (res: u32)
    ensures
        res == stated(value@.small(), 48),
        res == cleanup_hours(value@),
{
    stated_or(value.small(), DEFAULT_FINISHED_CLEANUP_HOURS)
}

/// Lenient `idle_suspend_minutes` parsing: a whole number that is not negative
/// and fits 32 bits passes through (0 = never); anything else means the default
/// (15).
pub fn lenient_idle_suspend(value: &Json) -> (res: u32)
    ensures
        res == stated(value@.small(), 15),
        res == idle_minutes(value@),
{
    stated_or(value.small(), 15)
}

/// The bool that a value is, or else the given one.
pub open spec fn bool_or(value: JsonView, otherwise: bool) -> bool {
    match value {
        JsonView::Bool(b) => b,
        _ => otherwise,
    }
}

/// Lenient bool defaulting to `false`: a JSON bool passes through; anything
/// else (wrong type, missing) means `false`.
pub fn lenient_bool_false(value: &Json) -> (res: bool)
    ensures
        res == bool_or(value@, false),
{
    stated_or(opt_bool(value), false)
}

/// Lenient bool defaulting to `true`: a JSON bool passes through; anything
/// else (wrong type, missing) means `true`.
pub fn lenient_bool_true(value: &Json) -> (res: bool)
    ensures
        res == bool_or(value@, true),
{
    stated_or(opt_bool(value), true)
}

/// Lenient `reader_rotation_locked` parsing: only a JSON bool passes
/// through; anything else (wrong type, missing) means locked.
pub fn lenient_bool_locked(value: &Json) -> (res: bool)
    ensures
        res == bool_or(value@, true),
{
    stated_or(opt_bool(value), true)
}

/// The percentage that a value is read as: whole numbers are clamped to 0–100,
/// and anything else is 0.
pub open spec fn clamped_percent(value: JsonView) -> u32 {
    match value {
        JsonView::Unsigned(n) => if n <= 100 {
            n as u32
        } else {
            100
        },
        _ => 0,
    }
}

/// Lenient percent parsing: whole numbers are clamped to 0–100; anything else
/// (negative, wrong type, missing) falls back to 0.
pub fn lenient_percent(value: &Json) -> (res: u32)
    ensures
        res == clamped_percent(value@),
{
    match value {
        Json::Unsigned(n) => if *n <= 100 {
            *n as u32
        } else {
            100
        },
        _ => 0,
    }
}

/// The names that an array of profiles lists: its strings, trimmed, without
/// the empty ones.
pub open spec fn listed_names(items: Seq<Option<Seq<char>>>) -> Seq<Seq<char>>
    decreases items.len(),
{
    if items.len() == 0 {
        Seq::empty()
    } else {
        let before = listed_names(items.drop_last());
        match items.last() {
            Some(t) if trimmed(t).len() > 0 => before.push(trimmed(t)),
            _ => before,
        }
    }
}

/// The profiles that a value lists; never none.
pub open spec fn profile_list(value: JsonView) -> Seq<Seq<char>> {
    match value {
        JsonView::List(items) if listed_names(items).len() > 0 => listed_names(items),
        _ => seq!["default"@],
    }
}

/// The non-empty strings of a list, trimmed.
pub fn trimmed_names(items: &Vec<Option<String>>) -> (res: Vec<String>)
    ensures
        texts(res@) == listed_names(items@.map_values(|t: Option<String>| text_view(t))),
{
    let ghost l = items@.map_values(|t: Option<String>| text_view(t));
    let mut res: Vec<String> = Vec::new();
    let mut i: usize = 0;
    assert(texts(res@) =~= listed_names(l.take(0)));
    while i < items.len()
        invariant
            i <= items@.len(),
            l == items@.map_values(|t: Option<String>| text_view(t)),
            texts(res@) == listed_names(l.take(i as int)),
        decreases items@.len() - i,
    {
        assert(l.take(i + 1).drop_last() =~= l.take(i as int));
        assert(l.take(i + 1).last() == text_view(items@[i as int]));
        if let Some(t) = &items[i] {
            let name = trim(t.as_str());
            if name.as_str().unicode_len() > 0 {
                let ghost before = texts(res@);
                res.push(name);
                assert(texts(res@) =~= before.push(name@));
            }
        }
        i = i + 1;
    }
    assert(l.take(l.len() as int) =~= l);
    res
}

/// Lenient profile-list parsing: only non-empty string entries are kept
/// (trimmed); an empty or wrong-typed list falls back to just "default".
pub fn lenient_profiles(value: &Json) -> (res: Vec<String>)
    ensures
        texts(res@) == profile_list(value@),
{
    let mut profiles: Vec<String> = match value {
        Json::List(items) => trimmed_names(items),
        _ => Vec::new(),
    };
    if profiles.len() == 0 {
        profiles.push("default".to_owned());
        assert(texts(profiles@) =~= seq!["default"@]);
    }
    profiles
}

/// Lenient `active_profile` parsing: a non-empty string passes through
/// (trimmed); anything else (wrong type, missing) means "default".
pub fn lenient_profile_name(value: &Json) -> (res: String)
    ensures
        res@ == match value@.text() {
            Some(t) if trimmed(t).len() > 0 => trimmed(t),
            _ => "default"@,
        },
        res@ == profile_name(value@),
{
    if let Json::Text(t) = value {
        let name = trim(t.as_str());
        if name.as_str().unicode_len() > 0 {
            return name;
        }
    }
    "default".to_owned()
}

/// Lenient `reader_fit` parsing: any JSON value is accepted; only strings
/// pass through (normalized to lowercase), everything else means "contain".
pub fn lenient_reader_fit(value: &Json) -> (res: String)
    ensures
        res@ == stated(value@.word(), "contain"@),
{
    match value.word() {
        Some(s) => s,
        None => "contain".to_owned(),
    }
}

/// Lenient `color_post_process` parsing: known tokens pass through
/// lowercased; anything else (wrong type, missing) means "vivid".
pub fn lenient_color_post_process(value: &Json) -> (res: String)
    ensures
        res@ == kept_word(value@, set!["standard"@, "off"@], "vivid"@),
        res@ == post_process_word(value@),
{
    if let Some(s) = value.word() {
        if same_text(s.as_str(), "standard") || same_text(s.as_str(), "off") {
            return s;
        }
    }
    "vivid".to_owned()
}

/// Lenient `stats_view` parsing: "heatmap" and "calendar" pass through,
/// anything else falls back to the default. Both are named explicitly so
/// neither depends on which one the default happens to be.
pub fn lenient_stats_view(value: &Json) -> (res: String)
    ensures
        res@ == kept_word(value@, set!["heatmap"@, "calendar"@], "heatmap"@),
        res@ == stated(stats_view_word(value@), "heatmap"@),
{
    match opt_stats_view(value) {
        Some(s) => s,
        None => default_stats_view(),
    }
}

/// Lenient `library_view` parsing: "list" and "shelf" pass through, anything
/// else falls back to the default. Both known values are named explicitly, so
/// neither depends on which one the default happens to be.
pub fn lenient_library_view(value: &Json) -> (res: String)
    ensures
        res@ == kept_word(value@, set!["list"@, "shelf"@], "list"@),
        res@ == stated(library_view_word(value@), "list"@),
{
    match opt_library_view(value) {
        Some(s) => s,
        None => default_library_view(),
    }
}

/// Lenient `color_profile` parsing: known profiles pass through lowercased,
/// anything else means the default. A settings file written by a newer
/// gideon naming a profile this build doesn't have must not be fatal.
pub fn lenient_color_profile(value: &Json) -> (res: String)
    ensures
        res@ == kept_word(
            value@,
            set!["indigo"@, "sumi"@, "botanical"@, "mono"@],
            "ink-rust"@,
        ),
        res@ == stated(color_profile_word(value@), "ink-rust"@),
{
    match opt_color_profile(value) {
        Some(s) => s,
        None => default_color_profile(),
    }
}

/// The number that a value is, where it lies in 4–24.
pub open spec fn refresh_interval(value: JsonView) -> Option<u32> {
    match value {
        JsonView::Unsigned(n) if 4 <= n <= 24 => Some(n as u32),
        _ => None,
    }
}

/// Lenient `reader_full_refresh_interval` parsing: a number in 4–24; anything
/// else (wrong type, missing, out of range) falls back to 8.
pub fn lenient_full_refresh_interval(value: &Json) -> (res: u32)
    ensures
        res == stated(refresh_interval(value@), 8),
{
    stated_or(opt_full_refresh_interval(value), 8)
}

/// The rotation that a value is, where it is a quarter turn.
pub open spec fn quarter_turn(value: JsonView) -> Option<u32> {
    match value {
        JsonView::Unsigned(n) if n == 0 || n == 90 || n == 180 || n == 270 => Some(n as u32),
        _ => None,
    }
}

/// Lenient `reader_rotation` parsing: only 0/90/180/270 are kept; any other
/// value (wrong number, wrong type) falls back to 0 instead of erroring.
pub fn lenient_reader_rotation(value: &Json) -> (res: u32)
    ensures
        res == stated(quarter_turn(value@), 0),
{
    stated_or(opt_reader_rotation(value), 0)
}

/// Lenient optional `reader_fit`: a string passes through normalized (unknown
/// values included — the reader treats them as "contain", exactly as with the
/// device field), anything else means "unset".
pub fn opt_reader_fit(value: &Json) -> (res: Option<String>)
    ensures
        text_view(res) == value@.word(),
{
    value.word()
}

/// Lenient optional `reader_rotation`: only 0/90/180/270 count as stated.
pub fn opt_reader_rotation(value: &Json) -> (res: Option<u32>)
    ensures
        res == quarter_turn(value@),
{
    match value {
        Json::Unsigned(n) => if *n == 0 || *n == 90 || *n == 180 || *n == 270 {
            Some(*n as u32)
        } else {
            None
        },
        _ => None,
    }
}

/// Lenient optional bool: only a JSON bool counts as stated.
pub fn opt_bool(value: &Json) -> (res: Option<bool>)
    ensures
        res == match value@ {
            JsonView::Bool(b) => Some(b),
            _ => None,
        },
{
    match value {
        Json::Bool(b) => Some(*b),
        _ => None,
    }
}

/// Lenient optional non-negative integer: only a whole number that fits in
/// `u32` counts as stated. Never clamps — a hostile value means "unset", so
/// the device value stands.
pub fn opt_u32(value: &Json) -> (res: Option<u32>)
    ensures
        res == value@.small(),
{
    value.small()
}

/// Lenient optional `reader_full_refresh_interval`: 4–24 counts as stated,
/// anything else means "unset".
pub fn opt_full_refresh_interval(value: &Json) -> (res: Option<u32>)
    ensures
        res == refresh_interval(value@),
{
    match value {
        Json::Unsigned(n) => if 4 <= *n && *n <= 24 {
            Some(*n as u32)
        } else {
            None
        },
        _ => None,
    }
}

/// Lenient optional `color_profile`: a known palette counts as stated;
/// anything else (including a palette from a newer build) means "unset".
pub fn opt_color_profile(value: &Json) -> (res: Option<String>)
    ensures
        text_view(res) == stated_word(
            value@,
            set!["ink-rust"@, "indigo"@, "sumi"@, "botanical"@, "mono"@],
        ),
        text_view(res) == color_profile_word(value@),
{
    if let Some(s) = value.word() {
        if same_text(s.as_str(), "ink-rust") || same_text(s.as_str(), "indigo") || same_text(
            s.as_str(),
            "sumi",
        ) || same_text(s.as_str(), "botanical") || same_text(s.as_str(), "mono") {
            return Some(s);
        }
    }
    None
}

/// Lenient optional `library_view`: "shelf" or "list" count as stated.
pub fn opt_library_view(value: &Json) -> (res: Option<String>)
    ensures
        text_view(res) == stated_word(value@, set!["shelf"@, "list"@]),
        text_view(res) == library_view_word(value@),
{
    if let Some(s) = value.word() {
        if same_text(s.as_str(), "shelf") || same_text(s.as_str(), "list") {
            return Some(s);
        }
    }
    None
}

/// Lenient optional `stats_view`: "heatmap" or "calendar" count as stated,
/// anything else as "not stated" so the device value shows through.
pub fn opt_stats_view(value: &Json) -> (res: Option<String>)
    ensures
        text_view(res) == stated_word(value@, set!["heatmap"@, "calendar"@]),
        text_view(res) == stats_view_word(value@),
{
    if let Some(s) = value.word() {
        if same_text(s.as_str(), "heatmap") || same_text(s.as_str(), "calendar") {
            return Some(s);
        }
    }
    None
}

/// Whatever a settings file holds, the numbers that are read from it lie in
/// their ranges.
pub proof fn lenient_numbers_are_in_range(value: JsonView)
    ensures
        4 <= stated(refresh_interval(value), 8) <= 24,
        stated(quarter_turn(value), 0) % 90 == 0,
        stated(quarter_turn(value), 0) < 360,
        clamped_percent(value) <= 100,
{
}

/// A number that was read leniently is read back unchanged once it has been
/// saved.
pub proof fn lenient_numbers_read_back(value: JsonView)
    ensures
        ({
            let n = stated(refresh_interval(value), 8);
            stated(refresh_interval(JsonView::Unsigned(n as u64)), 8) == n
        }),
        ({
            let n = stated(quarter_turn(value), 0);
            stated(quarter_turn(JsonView::Unsigned(n as u64)), 0) == n
        }),
        ({
            let n = stated(value.small(), 48);
            stated(JsonView::Unsigned(n as u64).small(), 48) == n
        }),
        ({
            let n = stated(value.small(), 15);
            stated(JsonView::Unsigned(n as u64).small(), 15) == n
        }),
        clamped_percent(JsonView::Unsigned(clamped_percent(value) as u64)) == clamped_percent(
            value,
        ),
{
}

/// A word that was read leniently is read back unchanged once it has been
/// saved, where the default is in lower case and has no whitespace around it.
pub proof fn lenient_words_read_back(value: JsonView, kept: Set<Seq<char>>, otherwise: Seq<char>)
    requires
        lowered(trimmed(otherwise)) == otherwise,
    ensures
        ({
            let w = kept_word(value, kept, otherwise);
            kept_word(JsonView::Text(w), kept, otherwise) == w
        }),
{
    if let JsonView::Text(t) = value {
        words_are_stable(t);
    }
}

/// The fit mode that was read leniently is read back unchanged once it has
/// been saved, unknown words included.
pub proof fn reader_fit_reads_back(value: JsonView)
    ensures
        value.word() matches Some(w) ==> JsonView::Text(w).word() == Some(w),
{
    if let JsonView::Text(t) = value {
        words_are_stable(t);
    }
}

proof fn lemma_listed_names(items: Seq<Option<Seq<char>>>)
    ensures
        forall|i: int|
            0 <= i < listed_names(items).len() ==> (#[trigger] listed_names(items)[i]).len() > 0
                && trimmed(listed_names(items)[i]) == listed_names(items)[i],
    decreases items.len(),
{
    if items.len() > 0 {
        let before = listed_names(items.drop_last());
        let after = listed_names(items);
        lemma_listed_names(items.drop_last());
        if let Some(t) = items.last() {
            trimming_is_idempotent(t);
        }
        assert forall|i: int| 0 <= i < after.len() implies (#[trigger] after[i]).len() > 0
            && trimmed(after[i]) == after[i] by {
            if i < before.len() {
                assert(after[i] == before[i]);
            }
        }
    }
}

/// The profile list is never empty, and none of its names is.
pub proof fn profile_list_is_usable(value: JsonView)
    ensures
        profile_list(value).len() > 0,
        forall|i: int|
            0 <= i < profile_list(value).len() ==> (#[trigger] profile_list(value)[i]).len() > 0,
{
    reveal_strlit("default");
    if let JsonView::List(items) = value {
        lemma_listed_names(items);
    }
}

/// A profile that has said nothing changes nothing: a device that upgrades
/// into per-profile settings keeps every value it had.
pub proof fn silence_changes_nothing(reader: ReaderView)
    ensures
        overlaid(reader, silent_profile()) == reader,
{
}

/// Overlaying a profile twice is the same as overlaying it once.
pub proof fn overlay_is_idempotent(reader: ReaderView, p: ProfileView)
    ensures
        overlaid(overlaid(reader, p), p) == overlaid(reader, p),
{
}

/// Once a profile has saved, it owns its values outright: laid over any device
/// settings it gives them all back, and saving them again changes nothing.
pub proof fn saved_profile_owns_its_values(device: ReaderView, mine: ReaderView)
    ensures
        overlaid(device, outright_profile(mine)) == mine,
        outright_profile(overlaid(device, outright_profile(mine))) == outright_profile(mine),
{
}

/// The colour post-process that a value is read as.
pub open spec fn post_process_word(value: JsonView) -> Seq<char> {
    kept_word(value, set!["standard"@, "off"@], "vivid"@)
}

/// The colour profile that a value states.
pub open spec fn color_profile_word(value: JsonView) -> Option<Seq<char>> {
    stated_word(value, set!["ink-rust"@, "indigo"@, "sumi"@, "botanical"@, "mono"@])
}

/// The Library view that a value states.
pub open spec fn library_view_word(value: JsonView) -> Option<Seq<char>> {
    stated_word(value, set!["shelf"@, "list"@])
}

/// The statistics view that a value states.
pub open spec fn stats_view_word(value: JsonView) -> Option<Seq<char>> {
    stated_word(value, set!["heatmap"@, "calendar"@])
}

/// The hours of grace that a value is read as.
pub open spec fn cleanup_hours(value: JsonView) -> u32 {
    stated(value.small(), 48)
}

/// The minutes before an idle suspend that a value is read as.
pub open spec fn idle_minutes(value: JsonView) -> u32 {
    stated(value.small(), 15)
}

/// The profile name that a value is read as.
pub open spec fn profile_name(value: JsonView) -> Seq<char> {
    match value.text() {
        Some(t) if trimmed(t).len() > 0 => trimmed(t),
        _ => "default"@,
    }
}

/// A word counts exactly when the field knows it, in any letter case and with any
/// whitespace around it; what is no string never counts.
pub proof fn known_words_count(t: Seq<char>, other: JsonView)
    requires
        !(other is Text),
    ensures
        ({
            let w = lowered(trimmed(t));
            let value = JsonView::Text(t);
            &&& w == "standard"@ || w == "off"@ ==> post_process_word(value) == w
            &&& w != "standard"@ && w != "off"@ ==> post_process_word(value) == "vivid"@
            &&& w == "ink-rust"@ || w == "indigo"@ || w == "sumi"@ || w == "botanical"@ || w
                == "mono"@ ==> color_profile_word(value) == Some(w)
            &&& w != "ink-rust"@ && w != "indigo"@ && w != "sumi"@ && w != "botanical"@ && w
                != "mono"@ ==> color_profile_word(value) is None
            &&& w == "shelf"@ || w == "list"@ ==> library_view_word(value) == Some(w)
            &&& w != "shelf"@ && w != "list"@ ==> library_view_word(value) is None
            &&& w == "heatmap"@ || w == "calendar"@ ==> stats_view_word(value) == Some(w)
            &&& w != "heatmap"@ && w != "calendar"@ ==> stats_view_word(value) is None
        }),
        post_process_word(other) == "vivid"@,
        color_profile_word(other) is None,
        library_view_word(other) is None,
        stats_view_word(other) is None,
        profile_name(other) == "default"@,
        trimmed(t).len() > 0 ==> profile_name(JsonView::Text(t)) == trimmed(t),
        trimmed(t).len() == 0 ==> profile_name(JsonView::Text(t)) == "default"@,
{
}

/// A field keeps a word of its own and takes its default for any other.
pub proof fn words_are_kept_or_replaced(
    t: Seq<char>,
    other: JsonView,
    kept: Set<Seq<char>>,
    otherwise: Seq<char>,
)
    requires
        !(other is Text),
    ensures
        ({
            let w = lowered(trimmed(t));
            let value = JsonView::Text(t);
            &&& kept.contains(w) ==> kept_word(value, kept, otherwise) == w && stated_word(
                value,
                kept,
            ) == Some(w)
            &&& !kept.contains(w) ==> kept_word(value, kept, otherwise) == otherwise
                && stated_word(value, kept) is None
        }),
        kept_word(other, kept, otherwise) == otherwise,
        stated_word(other, kept) is None,
{
}

/// Numbers count exactly when they are whole and in the range of their field.
pub proof fn known_numbers_count(n: u64, other: JsonView)
    requires
        !(other is Unsigned),
    ensures
        ({
            let value = JsonView::Unsigned(n);
            &&& n < 0x1_0000_0000 ==> cleanup_hours(value) == n && idle_minutes(value) == n
            &&& n >= 0x1_0000_0000 ==> cleanup_hours(value) == 48 && idle_minutes(value) == 15
            &&& 4 <= n <= 24 ==> refresh_interval(value) == Some(n as u32)
            &&& n < 4 || n > 24 ==> refresh_interval(value) is None
            &&& n % 90 == 0 && n < 360 ==> quarter_turn(value) == Some(n as u32)
            &&& n % 90 != 0 || n >= 360 ==> quarter_turn(value) is None
            &&& n < 100 ==> clamped_percent(value) == n
            &&& n >= 100 ==> clamped_percent(value) == 100
        }),
        cleanup_hours(other) == 48,
        idle_minutes(other) == 15,
        refresh_interval(other) is None,
        quarter_turn(other) is None,
        clamped_percent(other) == 0,
{
}

/// A bool is itself; anything else is the default.
pub proof fn only_bools_are_bools(b: bool, other: JsonView, otherwise: bool)
    requires
        !(other is Bool),
    ensures
        bool_or(JsonView::Bool(b), otherwise) == b,
        bool_or(other, otherwise) == otherwise,
        stated(Some(b), otherwise) == b,
        stated(None, otherwise) == otherwise,
{
}

/// Names are listed one by one, in order: each string without the whitespace
/// around it, unless nothing is left. Where no name is listed, there is the
/// default profile.
pub proof fn names_are_listed_one_by_one(items: Seq<Option<Seq<char>>>, t: Seq<char>, other: JsonView)
    requires
        !(other is List),
    ensures
        listed_names(Seq::empty()) == Seq::<Seq<char>>::empty(),
        trimmed(t).len() > 0 ==> listed_names(items.push(Some(t))) == listed_names(items).push(
            trimmed(t),
        ),
        trimmed(t).len() == 0 ==> listed_names(items.push(Some(t))) == listed_names(items),
        listed_names(items.push(None)) == listed_names(items),
        listed_names(items).len() > 0 ==> profile_list(JsonView::List(items)) == listed_names(items),
        listed_names(items).len() == 0 ==> profile_list(JsonView::List(items)) == seq!["default"@],
        profile_list(other) == seq!["default"@],
{
    assert(items.push(Some(t)).drop_last() =~= items);
    assert(items.push(None).drop_last() =~= items);
}

/// What a profile states replaces the device's value of that field, and of no
/// other; what it leaves open stays the device's.
pub proof fn stated_fields_replace_their_own(reader: ReaderView, p: ProfileView)
    ensures
        ({
            let r = overlaid(reader, p);
            &&& p.reader_fit matches Some(x) ==> r.reader_fit == x
            &&& p.reader_fit is None ==> r.reader_fit == reader.reader_fit
            &&& p.reader_rotation matches Some(x) ==> r.reader_rotation == x
            &&& p.reader_rotation is None ==> r.reader_rotation == reader.reader_rotation
            &&& p.reader_rotation_locked matches Some(x) ==> r.reader_rotation_locked == x
            &&& p.reader_rotation_locked is None ==> r.reader_rotation_locked
                == reader.reader_rotation_locked
            &&& p.auto_rotate_spreads matches Some(x) ==> r.auto_rotate_spreads == x
            &&& p.auto_rotate_spreads is None ==> r.auto_rotate_spreads
                == reader.auto_rotate_spreads
            &&& p.reader_full_refresh_interval matches Some(x) ==> r.reader_full_refresh_interval
                == x
            &&& p.reader_full_refresh_interval is None ==> r.reader_full_refresh_interval
                == reader.reader_full_refresh_interval
            &&& p.color_profile matches Some(x) ==> r.color_profile == x
            &&& p.color_profile is None ==> r.color_profile == reader.color_profile
            &&& p.library_view matches Some(x) ==> r.library_view == x
            &&& p.library_view is None ==> r.library_view == reader.library_view
            &&& p.stats_view matches Some(x) ==> r.stats_view == x
            &&& p.stats_view is None ==> r.stats_view == reader.stats_view
            &&& p.predownload_unread_chapters matches Some(x) ==> r.predownload_unread_chapters
                == x
            &&& p.predownload_unread_chapters is None ==> r.predownload_unread_chapters
                == reader.predownload_unread_chapters
            &&& p.finished_cleanup_hours matches Some(x) ==> r.finished_cleanup_hours == x
            &&& p.finished_cleanup_hours is None ==> r.finished_cleanup_hours
                == reader.finished_cleanup_hours
        }),
{
}

/// Settings and profiles are modelled by all that they hold.
pub proof fn settings_are_modelled_faithfully(s: Settings, p: ProfileSettings)
    ensures
        s@.device.source_lists == texts(s.source_lists@),
        s@.device.languages == texts(s.languages@),
        s@.device.profiles == texts(s.profiles@),
        s@.device.active_profile == s.active_profile@,
        s@.device.storage_size_limit == s.storage_size_limit.0,
        s@.device.auto_check_updates == s.auto_check_updates,
        s@.device.color_post_process == s.color_post_process@,
        s@.device.wifi_auto_connect == s.wifi_auto_connect,
        s@.device.idle_suspend_minutes == s.idle_suspend_minutes,
        s@.device.frontlight_brightness == s.frontlight_brightness,
        s@.device.frontlight_warmth == s.frontlight_warmth,
        s@.reader.reader_fit == s.reader_fit@,
        s@.reader.reader_rotation == s.reader_rotation,
        s@.reader.reader_rotation_locked == s.reader_rotation_locked,
        s@.reader.auto_rotate_spreads == s.auto_rotate_spreads,
        s@.reader.reader_full_refresh_interval == s.reader_full_refresh_interval,
        s@.reader.color_profile == s.color_profile@,
        s@.reader.library_view == s.library_view@,
        s@.reader.stats_view == s.stats_view@,
        s@.reader.predownload_unread_chapters == s.predownload_unread_chapters,
        s@.reader.finished_cleanup_hours == s.finished_cleanup_hours,
        p@.reader_fit == text_view(p.reader_fit),
        p@.reader_rotation == p.reader_rotation,
        p@.reader_rotation_locked == p.reader_rotation_locked,
        p@.auto_rotate_spreads == p.auto_rotate_spreads,
        p@.reader_full_refresh_interval == p.reader_full_refresh_interval,
        p@.color_profile == text_view(p.color_profile),
        p@.library_view == text_view(p.library_view),
        p@.stats_view == text_view(p.stats_view),
        p@.predownload_unread_chapters == p.predownload_unread_chapters,
        p@.finished_cleanup_hours == p.finished_cleanup_hours,
{
}

/// The defaults are values that lenient reading gives for what says nothing, and
/// they read back as themselves.
pub proof fn defaults_are_what_silence_is_read_as()
    ensures
        ({
            let d = default_settings().device;
            let r = default_settings().reader;
            let nothing = JsonView::Other;
            &&& d.profiles == profile_list(nothing)
            &&& d.active_profile == profile_name(nothing)
            &&& d.color_post_process == post_process_word(nothing)
            &&& d.idle_suspend_minutes == idle_minutes(nothing)
            &&& d.frontlight_warmth == clamped_percent(nothing)
            &&& d.storage_size_limit == 0x8000_0000
            &&& d.source_lists.len() == 0
            &&& d.languages.len() == 0
            &&& d.auto_check_updates
            &&& d.wifi_auto_connect
            &&& d.frontlight_brightness == 20
            &&& r.reader_fit == stated(nothing.word(), "contain"@)
            &&& r.reader_rotation == stated(quarter_turn(nothing), 0)
            &&& r.reader_rotation_locked == bool_or(nothing, true)
            &&& r.auto_rotate_spreads == bool_or(nothing, false)
            &&& r.reader_full_refresh_interval == stated(refresh_interval(nothing), 8)
            &&& r.color_profile == stated(color_profile_word(nothing), "ink-rust"@)
            &&& r.library_view == stated(library_view_word(nothing), "list"@)
            &&& r.stats_view == stated(stats_view_word(nothing), "heatmap"@)
            &&& r.predownload_unread_chapters == 2
            &&& r.finished_cleanup_hours == cleanup_hours(nothing)
        }),
        overlaid(default_settings().reader, silent_profile()) == default_settings().reader,
{
}

/// The path of the settings of a device in the directory `dir`.
pub open spec fn device_path(dir: Seq<char>) -> Seq<char> {
    joined(dir, "settings.json"@)
}

/// The path of the settings of a profile in its library directory.
pub open spec fn profile_path(dir: Seq<char>) -> Seq<char> {
    joined(joined(dir, ".gideon"@), "settings.json"@)
}

/// A profile's settings live in the hidden directory of its library, and the
/// device's in their own directory.
pub proof fn settings_live_in_their_directories(dir: Seq<char>)
    requires
        dir.len() > 0,
        dir.last() != '/',
    ensures
        device_path(dir) == dir + "/settings.json"@,
        profile_path(dir) == dir + "/.gideon/settings.json"@,
{
    reveal_strlit(".gideon");
    reveal_strlit("settings.json");
    reveal_strlit("/settings.json");
    reveal_strlit("/.gideon/settings.json");
    assert(device_path(dir) =~= dir + "/settings.json"@);
    assert(profile_path(dir) =~= dir + "/.gideon/settings.json"@);
}

} // verus!
