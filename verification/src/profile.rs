//! Profile library layout, and converting the legacy "default" profile into
//! an ordinary one.
//!
//! Every profile owns one library directory: its books plus the `.gideon`
//! directory that holds its reading progress, series index and sync
//! bookkeeping. Named profiles live in `<root>/@<name>`; the historical
//! "default" profile is the odd one out — it *is* the library root, so its
//! books sit next to the other profiles' directories instead of inside one of
//! their own.
//!
//! [`convert_default`] fixes that for a library that already has content under
//! the root: it names the default profile and moves the root's contents into
//! `@<name>`, leaving the root as a pure container. After the move the library
//! has no special profile at all — every profile is a directory.

use vstd::prelude::*;

use crate::error::Error;
use crate::library::DirItem;
use crate::sorting::{is_sorted_copy, sorted_texts, Collation};
use crate::text::{chars_of, join, joined, joined_paths_lie_below, same_text, starts_with_char,
    text_of, texts, trim, trimmed};

verus! {

/// The name of the legacy profile whose library is the root itself.
pub const DEFAULT_PROFILE: &'static str = "default";

/// The library directory of a profile.
pub open spec fn profile_dir(base: Seq<char>, profile: Seq<char>) -> Seq<char> {
    if profile == "default"@ {
        base
    } else {
        joined(base, seq!['@'] + profile)
    }
}

/// The library directory of a profile: the root itself for
/// [`DEFAULT_PROFILE`], `<root>/@<name>` otherwise. The `@` prefix keeps
/// profile directories from colliding with series directories, and a root
/// scan skips them.
pub fn library_dir(base: &str, profile: &str) -> (res: String)
    ensures
        res@ == profile_dir(base@, profile@),
{
    if same_text(profile, DEFAULT_PROFILE) {
        base.to_owned()
    } else {
        let mut name = String::new();
        name.push('@');
        name.append(profile);
        assert(name@ =~= seq!['@'] + profile@);
        join(base, name.as_str())
    }
}

/// Whether `name` is usable as a profile name: non-empty once trimmed, not
/// the reserved "default", and free of anything that would escape or shadow
/// the `@<name>` directory it becomes.
pub open spec fn is_usable_name(name: Seq<char>) -> bool {
    let t = trimmed(name);
    t.len() > 0 && t != "default"@ && t[0] != '@' && t[0] != '.' && !t.contains('/') && !t.contains(
        '\\',
    )
}

fn contains_char(v: &Vec<char>, c: char) -> (res: bool)
    ensures
        res == v@.contains(c),
{
    let mut i: usize = 0;
    while i < v.len()
        invariant
            i <= v@.len(),
            forall|k: int| 0 <= k < i ==> v@[k] != c,
        decreases v@.len() - i,
    {
        if v[i] == c {
            return true;
        }
        i = i + 1;
    }
    false
}

/// Whether `name` is usable as a profile name: non-empty once trimmed, not
/// the reserved "default", and free of anything that would escape or shadow
/// the `@<name>` directory it becomes.
pub fn is_valid_name(name: &str) -> (res: bool)
    ensures
        res == is_usable_name(name@),
{
    let name = trim(name);
    let letters = chars_of(name.as_str());
    letters.len() > 0 && !same_text(name.as_str(), DEFAULT_PROFILE) && letters[0] != '@'
        && letters[0] != '.' && !contains_char(&letters, '/') && !contains_char(&letters, '\\')
}

/// The profiles among the items of a library root, in the order given: one per
/// `@<name>` directory.
pub open spec fn profiles_among(items: Seq<DirItem>) -> Seq<Seq<char>>
    decreases items.len(),
{
    if items.len() == 0 {
        Seq::empty()
    } else {
        let before = profiles_among(items.drop_last());
        let item = items.last();
        if item.is_dir && item.name@.len() > 1 && item.name@[0] == '@' {
            before.push(item.name@.drop_first())
        } else {
            before
        }
    }
}

/// Every profile that actually has a library under a root, by name: one per
/// `@<name>` directory, sorted. `listing` is what the root holds.
///
/// The library on disk — not `settings.json` — is the truth about which
/// profiles exist. A settings file that goes missing, gets truncated by a yanked
/// USB cable, or parses leniently into nothing would otherwise take a profile
/// out of the picker even though every one of its books is still sitting right
/// there. Union this into the listed profiles and such a profile comes back by
/// itself.
///
/// An unreadable root (`None`) yields nothing: this only ever *adds* profiles
/// to a list, so failing to read it can't take one away.
pub fn discover(listing: Option<&Vec<DirItem>>) -> (res: Vec<String>)
    ensures
        match listing {
            Some(items) => is_sorted_copy(
                profiles_among(items@),
                Collation::Plain,
                texts(res@),
            ),
            None => res@.len() == 0,
        },
{
    let items = match listing {
        Some(items) => items,
        None => return Vec::new(),
    };
    let mut names: Vec<String> = Vec::new();
    let mut i: usize = 0;
    assert(texts(names@) =~= profiles_among(items@.take(0)));
    while i < items.len()
        invariant
            i <= items@.len(),
            texts(names@) == profiles_among(items@.take(i as int)),
        decreases items@.len() - i,
    {
        assert(items@.take(i + 1).drop_last() =~= items@.take(i as int));
        assert(items@.take(i + 1).last() == items@[i as int]);
        let letters = chars_of(items[i].name.as_str());
        if items[i].is_dir && letters.len() > 1 && letters[0] == '@' {
            let ghost before = texts(names@);
            let name = text_of(&letters, 1, letters.len());
            assert(name@ =~= items@[i as int].name@.drop_first());
            names.push(name);
            assert(texts(names@) =~= before.push(name@));
        }
        i = i + 1;
    }
    assert(items@.take(items@.len() as int) =~= items@);
    sorted_texts(&names, Collation::Plain)
}

/// Whether an item of a library root belongs to the default profile: all but
/// the other profiles' directories do. A stray file whose name merely starts
/// with `@` is no profile.
pub open spec fn is_default_item(item: DirItem) -> bool {
    !(item.is_dir && item.name@.len() > 0 && item.name@[0] == '@')
}

/// The names of the items of a library root.
pub open spec fn item_names(items: Seq<DirItem>) -> Seq<Seq<char>> {
    items.map_values(|item: DirItem| item.name@)
}

/// The names of the items of a library root that belong to the default profile,
/// in the order given.
pub open spec fn default_items(items: Seq<DirItem>) -> Seq<Seq<char>>
    decreases items.len(),
{
    if items.len() == 0 {
        Seq::empty()
    } else {
        let before = default_items(items.drop_last());
        if is_default_item(items.last()) {
            before.push(items.last().name@)
        } else {
            before
        }
    }
}

/// The message for a name that cannot be used.
pub open spec fn unusable_message(name: Seq<char>) -> Seq<char> {
    "\""@ + trimmed(name) + "\" isn't a usable profile name"@
}

/// The message for a profile that has a library already.
pub open spec fn taken_message(root: Seq<char>, name: Seq<char>) -> Seq<char> {
    "profile \""@ + trimmed(name) + "\" already has a library at "@ + profile_dir(
        root,
        trimmed(name),
    )
}

/// The directory that a conversion of the default profile of `root` to `name`
/// moves everything into.
pub fn conversion_target(root: &str, name: &str) -> (res: Result<String, Error>)
    ensures
        if is_usable_name(name@) {
            res matches Ok(target) && target@ == profile_dir(root@, trimmed(name@))
        } else {
            res matches Err(Error::ConvertProfile(m)) && m@ == unusable_message(name@)
        },
{
    if !is_valid_name(name) {
        let mut message = "\"".to_owned();
        message.append(trim(name).as_str());
        message.append("\" isn't a usable profile name");
        return Err(Error::ConvertProfile(message));
    }
    Ok(library_dir(root, trim(name).as_str()))
}

/// What a conversion has to do next.
#[derive(Debug, Clone, PartialEq, Eq)]
pub enum ConvertStep {
    /// Create the directory, with its parents.
    CreateTarget(String),
    /// Rename an item of the root into the target.
    Move { from: String, to: String },
    /// Rename an item back into the root.
    PutBack { from: String, to: String },
    /// Remove the target, which is empty again.
    RemoveTarget(String),
    /// Nothing: the library is converted.
    Converted,
    /// Nothing: the library is as it was.
    GivenUp,
}

/// Where a conversion stands.
#[derive(Debug, Clone, Copy, PartialEq, Eq, Structural)]
pub enum Phase {
    Creating,
    Moving,
    PuttingBack,
    Removing,
    Converted,
    GivenUp,
}

/// A conversion of the default profile under way.
///
/// The conversion says what to do ([`Conversion::step`]) and is told whether it
/// was done ([`Conversion::done`]), until it is converted or given up.
pub struct Conversion {
    root: String,
    target: String,
    items: Vec<String>,
    moved: usize,
    phase: Phase,
}

/// The model of [`Conversion`].
pub struct ConversionView {
    pub root: Seq<char>,
    pub target: Seq<char>,
    /// The items to move.
    pub items: Seq<Seq<char>>,
    /// How many of them are in the target now.
    pub moved: int,
    pub phase: Phase,
}

impl View for Conversion {
    type V = ConversionView;

    closed spec fn view(&self) -> ConversionView {
        ConversionView {
            root: self.root@,
            target: self.target@,
            items: texts(self.items@),
            moved: self.moved as int,
            phase: self.phase,
        }
    }
}

impl ConversionView {
    /// Whether the counts agree with the phase.
    pub open spec fn wf(self) -> bool {
        &&& 0 <= self.moved <= self.items.len()
        &&& self.phase is Creating ==> self.moved == 0
        &&& self.phase is Moving ==> self.moved < self.items.len()
        &&& self.phase is PuttingBack ==> self.moved > 0
        &&& self.phase is Removing ==> self.moved == 0
        &&& self.phase is Converted ==> self.moved == self.items.len()
        &&& self.phase is GivenUp ==> self.moved == 0
    }

    /// The conversion that has `moved` items in the target and moves on, unless
    /// all are there.
    pub open spec fn moving(self, moved: int) -> ConversionView {
        ConversionView {
            moved,
            phase: if moved < self.items.len() {
                Phase::Moving
            } else {
                Phase::Converted
            },
            ..self
        }
    }

    /// The conversion that has `moved` items in the target and puts them back.
    pub open spec fn retreating(self, moved: int) -> ConversionView {
        ConversionView {
            moved,
            phase: if moved > 0 {
                Phase::PuttingBack
            } else {
                Phase::Removing
            },
            ..self
        }
    }

    /// The conversion after its step was done, or failed.
    ///
    /// Where a move fails, whatever already moved is put back, the last first,
    /// and then the (now empty) target is dropped; nothing more can be done
    /// about it if that fails too.
    pub open spec fn after(self, ok: bool) -> ConversionView {
        match self.phase {
            Phase::Creating => if ok {
                self.moving(0)
            } else {
                ConversionView { phase: Phase::GivenUp, ..self }
            },
            Phase::Moving => if ok {
                self.moving(self.moved + 1)
            } else {
                self.retreating(self.moved)
            },
            Phase::PuttingBack => self.retreating(self.moved - 1),
            Phase::Removing => ConversionView { phase: Phase::GivenUp, ..self },
            _ => self,
        }
    }

    /// Whether `step` is what the conversion has to do next.
    pub open spec fn is_next(self, step: ConvertStep) -> bool {
        match self.phase {
            Phase::Creating => step matches ConvertStep::CreateTarget(dir) && dir@ == self.target,
            Phase::Moving => {
                let item = self.items[self.moved];
                step matches ConvertStep::Move { from, to } && from@ == joined(self.root, item) && to@
                    == joined(self.target, item)
            },
            Phase::PuttingBack => {
                let item = self.items[self.moved - 1];
                step matches ConvertStep::PutBack { from, to } && from@ == joined(self.target, item)
                    && to@ == joined(self.root, item)
            },
            Phase::Removing => step matches ConvertStep::RemoveTarget(dir) && dir@ == self.target,
            Phase::Converted => step is Converted,
            Phase::GivenUp => step is GivenUp,
        }
    }
}

/// Convert the default profile — the library root — into an ordinary profile
/// named `name`, by moving everything the root holds into `<root>/@<name>`.
/// `taken` says whether that directory exists, and `listing` what the root
/// holds.
///
/// Other profiles' `@` directories stay where they are; everything else moves,
/// including the hidden `.gideon` directory, so the converted profile keeps its
/// reading progress, series index and sync account exactly as they were.
///
/// The move is renames within one directory, so it's cheap whatever the library
/// weighs. If one of them fails partway the already-moved entries are put back,
/// so the library is left as it was rather than half-converted.
pub fn convert_default(root: &str, name: &str, taken: bool, listing: &Vec<DirItem>) -> (res: Result<
    Conversion,
    Error,
>)
    ensures
        if !is_usable_name(name@) {
            res matches Err(Error::ConvertProfile(m)) && m@ == unusable_message(name@)
        } else if taken {
            res matches Err(Error::ConvertProfile(m)) && m@ == taken_message(root@, name@)
        } else {
            &&& res matches Ok(conversion)
            &&& conversion@ == (ConversionView {
                root: root@,
                target: profile_dir(root@, trimmed(name@)),
                items: default_items(listing@),
                moved: 0,
                phase: Phase::Creating,
            })
            &&& conversion@.wf()
        },
        match refusal(root@, name@, taken) {
            Some(message) => res matches Err(Error::ConvertProfile(m)) && m@ == message,
            None => res is Ok,
        },
{
    let target = match conversion_target(root, name) {
        Ok(target) => target,
        Err(e) => return Err(e),
    };
    if taken {
        let mut message = "profile \"".to_owned();
        message.append(trim(name).as_str());
        message.append("\" already has a library at ");
        message.append(target.as_str());
        return Err(Error::ConvertProfile(message));
    }
    let mut items: Vec<String> = Vec::new();
    let mut i: usize = 0;
    assert(texts(items@) =~= default_items(listing@.take(0)));
    while i < listing.len()
        invariant
            i <= listing@.len(),
            texts(items@) == default_items(listing@.take(i as int)),
        decreases listing@.len() - i,
    {
        assert(listing@.take(i + 1).drop_last() =~= listing@.take(i as int));
        assert(listing@.take(i + 1).last() == listing@[i as int]);
        // Other profiles' libraries stay at the root — they already are
        // ordinary profiles.
        if !(listing[i].is_dir && starts_with_char(listing[i].name.as_str(), '@')) {
            let ghost before = texts(items@);
            items.push(listing[i].name.clone());
            assert(texts(items@) =~= before.push(listing@[i as int].name@));
        }
        i = i + 1;
    }
    assert(listing@.take(listing@.len() as int) =~= listing@);
    Ok(Conversion { root: root.to_owned(), target, items, moved: 0, phase: Phase::Creating })
}

impl Conversion {
    /// The new profile's library directory.
    pub fn target(&self) -> (res: &str)
        ensures
            res@ == self@.target,
    {
        self.target.as_str()
    }

    /// What has to be done next.
    pub fn step(&self) -> (res: ConvertStep)
        requires
            self@.wf(),
        ensures
            self@.is_next(res),
    {
        match self.phase {
            Phase::Creating => ConvertStep::CreateTarget(self.target.clone()),
            Phase::Moving => {
                let item = self.items[self.moved].as_str();
                ConvertStep::Move {
                    from: join(self.root.as_str(), item),
                    to: join(self.target.as_str(), item),
                }
            },
            Phase::PuttingBack => {
                let item = self.items[self.moved - 1].as_str();
                ConvertStep::PutBack {
                    from: join(self.target.as_str(), item),
                    to: join(self.root.as_str(), item),
                }
            },
            Phase::Removing => ConvertStep::RemoveTarget(self.target.clone()),
            Phase::Converted => ConvertStep::Converted,
            Phase::GivenUp => ConvertStep::GivenUp,
        }
    }

    /// Takes note of whether the step was done.
    pub fn done(&mut self, ok: bool)
        requires
            old(self)@.wf(),
        ensures
            final(self)@ == old(self)@.after(ok),
            final(self)@.wf(),
    {
        match self.phase {
            Phase::Creating => if ok {
                self.advance();
            } else {
                self.phase = Phase::GivenUp;
            },
            Phase::Moving => if ok {
                assert(self.moved < self.items.len());
                self.moved = self.moved + 1;
                self.advance();
            } else {
                self.retreat();
            },
            Phase::PuttingBack => {
                self.moved = self.moved - 1;
                self.retreat();
            },
            Phase::Removing => {
                self.phase = Phase::GivenUp;
            },
            Phase::Converted => {},
            Phase::GivenUp => {},
        }
    }

    fn advance(&mut self)
        ensures
            final(self)@ == old(self)@.moving(old(self)@.moved),
    {
        self.phase = if self.moved < self.items.len() {
            Phase::Moving
        } else {
            Phase::Converted
        };
    }

    fn retreat(&mut self)
        ensures
            final(self)@ == old(self)@.retreating(old(self)@.moved),
    {
        self.phase = if self.moved > 0 {
            Phase::PuttingBack
        } else {
            Phase::Removing
        };
    }
}

/// What the library root and the target of a conversion hold.
pub struct Dirs {
    pub root: Set<Seq<char>>,
    pub target: Set<Seq<char>>,
}

/// What the directories hold once a conversion's step was done, or failed: a
/// rename that is done moves its item, and one that fails moves nothing.
pub open spec fn renamed(c: ConversionView, ok: bool, dirs: Dirs) -> Dirs {
    match c.phase {
        Phase::Moving if ok => Dirs {
            root: dirs.root.remove(c.items[c.moved]),
            target: dirs.target.insert(c.items[c.moved]),
        },
        Phase::PuttingBack if ok => Dirs {
            root: dirs.root.insert(c.items[c.moved - 1]),
            target: dirs.target.remove(c.items[c.moved - 1]),
        },
        _ => dirs,
    }
}

/// Whether the directories hold, between them, exactly what the root held at
/// first, with the items that a conversion has moved in the target.
pub open spec fn nothing_is_lost(c: ConversionView, held: Set<Seq<char>>, dirs: Dirs) -> bool {
    &&& c.wf()
    &&& c.items.no_duplicates()
    &&& forall|i: int| 0 <= i < c.items.len() ==> held.contains(#[trigger] c.items[i])
    &&& forall|name: Seq<char>| #[trigger]
        dirs.target.contains(name) <==> c.items.take(c.moved).contains(name)
    &&& forall|name: Seq<char>| #[trigger]
        dirs.root.contains(name) <==> held.contains(name) && !c.items.take(c.moved).contains(name)
}

proof fn lemma_take_contains(items: Seq<Seq<char>>, n: int, name: Seq<char>)
    requires
        0 <= n < items.len(),
        items.no_duplicates(),
    ensures
        items.take(n + 1).contains(name) <==> items.take(n).contains(name) || name == items[n],
        !items.take(n).contains(items[n]),
{
    let a = items.take(n);
    let b = items.take(n + 1);
    if a.contains(name) {
        let i = choose|i: int| 0 <= i < a.len() && a[i] == name;
        assert(b[i] == name);
    }
    if name == items[n] {
        assert(b[n] == name);
    }
    if b.contains(name) && name != items[n] {
        let i = choose|i: int| 0 <= i < b.len() && b[i] == name;
        assert(a[i] == name);
    }
    if a.contains(items[n]) {
        let i = choose|i: int| 0 <= i < a.len() && a[i] == items[n];
        assert(items[i] == items[n]);
    }
}

proof fn lemma_default_items_distinct(items: Seq<DirItem>)
    requires
        item_names(items).no_duplicates(),
    ensures
        default_items(items).no_duplicates(),
    decreases items.len(),
{
    if items.len() > 0 {
        let rest = items.drop_last();
        let before = default_items(rest);
        let name = items.last().name@;
        assert(item_names(rest) =~= item_names(items).drop_last());
        lemma_default_items_distinct(rest);
        lemma_default_items(rest, name);
        if before.contains(name) {
            let i = choose|i: int| 0 <= i < rest.len() && is_default_at(rest, i, name);
            assert(item_names(items)[i] == item_names(items)[items.len() - 1]);
        }
        assert(forall|i: int| 0 <= i < before.len() ==> before.contains(#[trigger] before[i]));
    }
}

/// A conversion starts out with everything in the root.
pub proof fn conversion_starts_with_everything(
    root: Seq<char>,
    target: Seq<char>,
    listing: Seq<DirItem>,
)
    requires
        item_names(listing).no_duplicates(),
    ensures
        nothing_is_lost(
            (ConversionView {
                root,
                target,
                items: default_items(listing),
                moved: 0,
                phase: Phase::Creating,
            }),
            item_names(listing).to_set(),
            (Dirs { root: item_names(listing).to_set(), target: Set::empty() }),
        ),
{
    let items = default_items(listing);
    let held = item_names(listing).to_set();
    lemma_default_items_distinct(listing);
    assert(items.take(0) =~= Seq::<Seq<char>>::empty());
    assert forall|i: int| 0 <= i < items.len() implies held.contains(#[trigger] items[i]) by {
        assert(items.contains(items[i]));
        lemma_default_items(listing, items[i]);
        let k = choose|k: int| 0 <= k < listing.len() && is_default_at(listing, k, items[i]);
        assert(item_names(listing)[k] == items[i]);
    }
}

/// No step of a conversion loses an item, whether moves succeed or fail, as
/// long as what was moved can be put back.
pub proof fn conversion_loses_nothing(
    c: ConversionView,
    held: Set<Seq<char>>,
    dirs: Dirs,
    ok: bool,
)
    requires
        nothing_is_lost(c, held, dirs),
        c.phase is PuttingBack ==> ok,
    ensures
        nothing_is_lost(c.after(ok), held, renamed(c, ok, dirs)),
{
    let after = c.after(ok);
    let now = renamed(c, ok, dirs);
    if c.phase is Moving && ok {
        let n = c.moved;
        assert forall|name: Seq<char>| #[trigger]
            now.target.contains(name) <==> after.items.take(after.moved).contains(name) by {
            lemma_take_contains(c.items, n, name);
        }
        assert forall|name: Seq<char>| #[trigger]
            now.root.contains(name) <==> held.contains(name) && !after.items.take(
            after.moved,
        ).contains(name) by {
            lemma_take_contains(c.items, n, name);
        }
    } else if c.phase is PuttingBack {
        let n = c.moved - 1;
        assert forall|name: Seq<char>| #[trigger]
            now.target.contains(name) <==> after.items.take(after.moved).contains(name) by {
            lemma_take_contains(c.items, n, name);
        }
        assert forall|name: Seq<char>| #[trigger]
            now.root.contains(name) <==> held.contains(name) && !after.items.take(
            after.moved,
        ).contains(name) by {
            lemma_take_contains(c.items, n, name);
        }
    }
}

/// Whether the directories hold, between them, exactly what the root held at
/// first, wherever it may be.
pub open spec fn everything_is_somewhere(
    c: ConversionView,
    held: Set<Seq<char>>,
    dirs: Dirs,
) -> bool {
    &&& c.wf()
    &&& forall|i: int| 0 <= i < c.items.len() ==> held.contains(#[trigger] c.items[i])
    &&& dirs.root.union(dirs.target) == held
}

/// Whatever succeeds or fails, putting back included, no item is ever lost: each
/// is in the root or in the target.
pub proof fn no_failure_loses_an_item(
    c: ConversionView,
    held: Set<Seq<char>>,
    dirs: Dirs,
    ok: bool,
)
    requires
        everything_is_somewhere(c, held, dirs),
    ensures
        everything_is_somewhere(c.after(ok), held, renamed(c, ok, dirs)),
{
    let now = renamed(c, ok, dirs);
    if c.phase is Moving {
        assert(held.contains(c.items[c.moved]));
    } else if c.phase is PuttingBack {
        assert(held.contains(c.items[c.moved - 1]));
    }
    assert forall|name: Seq<char>| now.root.union(now.target).contains(name)
        == dirs.root.union(dirs.target).contains(name) by {}
    assert(now.root.union(now.target) =~= held);
}

/// A conversion that is given up leaves the root as it was, and the target
/// empty.
pub proof fn failed_conversion_changes_nothing(
    c: ConversionView,
    held: Set<Seq<char>>,
    dirs: Dirs,
)
    requires
        nothing_is_lost(c, held, dirs),
        c.phase is GivenUp,
    ensures
        dirs.root == held,
        dirs.target == Set::<Seq<char>>::empty(),
{
    assert(dirs.root =~= held);
    assert(dirs.target =~= Set::<Seq<char>>::empty());
}

/// Whether the item at place `i` has this name and belongs to the default
/// profile.
pub open spec fn is_default_at(items: Seq<DirItem>, i: int, name: Seq<char>) -> bool {
    items[i].name@ == name && is_default_item(items[i])
}

/// Whether the item at place `i` has this name and is the directory of another
/// profile.
pub open spec fn is_profile_at(items: Seq<DirItem>, i: int, name: Seq<char>) -> bool {
    items[i].name@ == name && !is_default_item(items[i])
}

proof fn lemma_default_items(items: Seq<DirItem>, name: Seq<char>)
    ensures
        default_items(items).contains(name) <==> exists|i: int|
            0 <= i < items.len() && is_default_at(items, i, name),
    decreases items.len(),
{
    if items.len() > 0 {
        let rest = items.drop_last();
        let last = items.last();
        let n = items.len() - 1;
        lemma_default_items(rest, name);
        let before = default_items(rest);
        let after = default_items(items);
        if exists|i: int| 0 <= i < items.len() && is_default_at(items, i, name) {
            let i = choose|i: int| 0 <= i < items.len() && is_default_at(items, i, name);
            if i < n {
                assert(is_default_at(rest, i, name));
                let k = choose|k: int| 0 <= k < before.len() && before[k] == name;
                assert(after[k] == name);
            } else {
                assert(after[before.len() as int] == name);
            }
        }
        if after.contains(name) {
            let k = choose|k: int| 0 <= k < after.len() && after[k] == name;
            if k < before.len() {
                assert(before[k] == name);
                let i = choose|i: int| 0 <= i < rest.len() && is_default_at(rest, i, name);
                assert(is_default_at(items, i, name));
            } else {
                assert(is_default_at(items, n, name));
            }
        }
    }
}

/// A completed conversion has moved everything but the other profiles'
/// directories: the root is a pure container that keeps those and nothing else,
/// and the target holds all the rest of what the root held.
pub proof fn conversion_moves_everything_else(
    c: ConversionView,
    listing: Seq<DirItem>,
    dirs: Dirs,
    name: Seq<char>,
)
    requires
        item_names(listing).no_duplicates(),
        nothing_is_lost(c, item_names(listing).to_set(), dirs),
        c.items == default_items(listing),
        c.phase is Converted,
    ensures
        dirs.root.contains(name) <==> exists|i: int|
            0 <= i < listing.len() && is_profile_at(listing, i, name),
        dirs.target.contains(name) <==> exists|i: int|
            0 <= i < listing.len() && is_default_at(listing, i, name),
{
    let names = item_names(listing);
    assert(c.items.take(c.moved) =~= c.items);
    lemma_default_items(listing, name);
    if dirs.root.contains(name) {
        assert(names.contains(name));
        let i = choose|i: int| 0 <= i < names.len() && names[i] == name;
        assert(!is_default_at(listing, i, name));
        assert(is_profile_at(listing, i, name));
    }
    if exists|i: int| 0 <= i < listing.len() && is_profile_at(listing, i, name) {
        let i = choose|i: int| 0 <= i < listing.len() && is_profile_at(listing, i, name);
        assert(names[i] == name);
        assert(names.to_set().contains(name));
        if exists|k: int| 0 <= k < listing.len() && is_default_at(listing, k, name) {
            let k = choose|k: int| 0 <= k < listing.len() && is_default_at(listing, k, name);
            assert(names[k] == names[i]);
        }
    }
}

/// How many steps a conversion may still take.
pub open spec fn steps_left(c: ConversionView) -> int {
    match c.phase {
        Phase::Creating => 2 * (c.items.len() as int) + 4,
        Phase::Moving => 2 * (c.items.len() - c.moved) + c.moved + 3,
        Phase::PuttingBack => c.moved + 1,
        Phase::Removing => 1,
        Phase::Converted => 0,
        Phase::GivenUp => 0,
    }
}

/// A conversion comes to an end, whatever succeeds or fails.
pub proof fn conversion_ends(c: ConversionView, ok: bool)
    requires
        c.wf(),
        !(c.phase is Converted || c.phase is GivenUp),
    ensures
        0 <= steps_left(c.after(ok)) < steps_left(c),
{
}

/// Where a usable name leads, the library is one step below the root, in a
/// directory that scans of the root skip.
pub proof fn usable_names_stay_below_the_root(root: Seq<char>, name: Seq<char>)
    requires
        is_usable_name(name),
    ensures
        profile_dir(root, trimmed(name)) == joined(root, seq!['@'] + trimmed(name)),
        !(seq!['@'] + trimmed(name)).contains('/'),
        forall|item: DirItem|
            item.is_dir && item.name@ == seq!['@'] + trimmed(name) ==> !(
            #[trigger] is_default_item(item)),
{
    let t = trimmed(name);
    let dir = seq!['@'] + t;
    if dir.contains('/') {
        let i = choose|i: int| 0 <= i < dir.len() && dir[i] == '/';
        assert(t[i - 1] == '/');
    }
}

/// The default profile's library is the root; any other profile's is the
/// directory of its name behind an `@`, directly below the root.
pub proof fn profiles_have_their_directories(base: Seq<char>, profile: Seq<char>)
    ensures
        profile_dir(base, seq!['d', 'e', 'f', 'a', 'u', 'l', 't']) == base,
        profile != seq!['d', 'e', 'f', 'a', 'u', 'l', 't'] && base.len() > 0 && base.last() != '/'
            ==> profile_dir(base, profile) == base.push('/').push('@') + profile,
        profile != seq!['d', 'e', 'f', 'a', 'u', 'l', 't'] && base.len() > 0 && base.last() == '/'
            ==> profile_dir(base, profile) == base.push('@') + profile,
        profile != seq!['d', 'e', 'f', 'a', 'u', 'l', 't'] && base.len() == 0 ==> profile_dir(
            base,
            profile,
        ) == seq!['@'] + profile,
{
    reveal_strlit("default");
    assert("default"@ =~= seq!['d', 'e', 'f', 'a', 'u', 'l', 't']);
    let dir = seq!['@'] + profile;
    joined_paths_lie_below(base, dir);
    assert(base.push('/') + dir =~= base.push('/').push('@') + profile);
    assert(base + dir =~= base.push('@') + profile);
}

/// Different profiles have different directories.
pub proof fn profiles_do_not_share_a_directory(base: Seq<char>, a: Seq<char>, b: Seq<char>)
    requires
        a != b,
    ensures
        profile_dir(base, a) != profile_dir(base, b),
{
    let x = seq!['@'] + a;
    let y = seq!['@'] + b;
    joined_paths_lie_below(base, x);
    joined_paths_lie_below(base, y);
    assert(x.drop_first() =~= a);
    assert(y.drop_first() =~= b);
    assert((base + x).skip(base.len() as int) =~= x);
    assert((base + y).skip(base.len() as int) =~= y);
    let s = base.push('/');
    assert((s + x).skip(s.len() as int) =~= x);
    assert((s + y).skip(s.len() as int) =~= y);
    assert((base + x).len() > base.len() && (base + y).len() > base.len());
}

/// A name can be used exactly when, without the whitespace around it, it is
/// neither empty nor `default`, does not begin with `@` or `.`, and holds no
/// slash and no backslash. Nothing else is asked of it.
pub proof fn names_are_usable_by_their_letters(name: Seq<char>)
    ensures
        is_usable_name(name) <==> {
            let t = trimmed(name);
            &&& t.len() > 0
            &&& t != seq!['d', 'e', 'f', 'a', 'u', 'l', 't']
            &&& t[0] as int != 0x40
            &&& t[0] as int != 0x2e
            &&& forall|i: int| 0 <= i < t.len() ==> #[trigger] t[i] as int != 0x2f && t[i] as int
                != 0x5c
        },
{
    reveal_strlit("default");
    assert("default"@ =~= seq!['d', 'e', 'f', 'a', 'u', 'l', 't']);
    let t = trimmed(name);
    if t.contains('/') {
        let i = choose|i: int| 0 <= i < t.len() && t[i] == '/';
        assert(t[i] as int == 0x2f);
    }
    if t.contains('\\') {
        let i = choose|i: int| 0 <= i < t.len() && t[i] == '\\';
        assert(t[i] as int == 0x5c);
    }
    if !t.contains('/') && !t.contains('\\') {
        assert forall|i: int| 0 <= i < t.len() implies #[trigger] t[i] as int != 0x2f && t[i] as int
            != 0x5c by {
            assert(t.contains(t[i]));
        }
    }
}

/// Profiles are found one by one, in the order given: each directory whose name
/// goes on behind an `@` is one, by what comes behind it, and nothing else is.
pub proof fn profiles_are_found_one_by_one(items: Seq<DirItem>, item: DirItem, name: Seq<char>)
    ensures
        profiles_among(Seq::empty()) == Seq::<Seq<char>>::empty(),
        item.is_dir && name.len() > 0 && item.name@ == seq!['@'] + name ==> profiles_among(
            items.push(item),
        ) == profiles_among(items).push(name),
        !item.is_dir || item.name@.len() <= 1 || item.name@[0] != '@' ==> profiles_among(
            items.push(item),
        ) == profiles_among(items),
{
    assert(items.push(item).drop_last() =~= items);
    assert((seq!['@'] + name).drop_first() =~= name);
}

/// What belongs to the default profile is picked one by one, in the order given:
/// everything, files and hidden items included, but the directories whose name
/// begins with `@`.
pub proof fn default_items_are_picked_one_by_one(items: Seq<DirItem>, item: DirItem)
    ensures
        default_items(Seq::empty()) == Seq::<Seq<char>>::empty(),
        !item.is_dir || item.name@.len() == 0 || item.name@[0] != '@' ==> default_items(
            items.push(item),
        ) == default_items(items).push(item.name@),
        item.is_dir && item.name@.len() > 0 && item.name@[0] == '@' ==> default_items(
            items.push(item),
        ) == default_items(items),
        item_names(items.push(item)) == item_names(items).push(item.name@),
{
    assert(items.push(item).drop_last() =~= items);
    assert(item_names(items.push(item)) =~= item_names(items).push(item.name@));
}

/// A conversion goes from creating the target through one move after the other to
/// its end; the first move that fails turns it round, and it then puts back one
/// item after the other, removes the target and gives up. Nothing else about it
/// ever changes.
pub proof fn conversion_goes_step_by_step(c: ConversionView, ok: bool)
    requires
        c.wf(),
    ensures
        c.after(ok).wf(),
        c.after(ok).root == c.root,
        c.after(ok).target == c.target,
        c.after(ok).items == c.items,
        c.phase is Creating && ok && c.items.len() > 0 ==> c.after(ok).phase is Moving,
        c.phase is Creating && ok && c.items.len() == 0 ==> c.after(ok).phase is Converted,
        c.phase is Creating && !ok ==> c.after(ok).phase is GivenUp,
        c.phase is Moving && ok ==> c.after(ok).moved == c.moved + 1,
        c.phase is Moving && ok && c.moved + 1 < c.items.len() ==> c.after(ok).phase is Moving,
        c.phase is Moving && ok && c.moved + 1 == c.items.len() ==> c.after(ok).phase is Converted,
        c.phase is Moving && !ok ==> c.after(ok).moved == c.moved,
        c.phase is Moving && !ok && c.moved > 0 ==> c.after(ok).phase is PuttingBack,
        c.phase is Moving && !ok && c.moved == 0 ==> c.after(ok).phase is Removing,
        c.phase is PuttingBack ==> c.after(ok).moved == c.moved - 1,
        c.phase is PuttingBack && c.moved > 1 ==> c.after(ok).phase is PuttingBack,
        c.phase is PuttingBack && c.moved == 1 ==> c.after(ok).phase is Removing,
        c.phase is Removing ==> c.after(ok).phase is GivenUp && c.after(ok).moved == 0,
        c.phase is Converted || c.phase is GivenUp ==> c.after(ok) == c,
{
}

/// The steps name the directories and the items in turn: from the root into the
/// target on the way there, and from the target into the root on the way back,
/// each item under its own name.
pub proof fn steps_name_their_paths(c: ConversionView, step: ConvertStep)
    requires
        c.wf(),
        c.is_next(step),
    ensures
        c.phase is Creating ==> (step matches ConvertStep::CreateTarget(dir) && dir@ == c.target),
        c.phase is Removing ==> (step matches ConvertStep::RemoveTarget(dir) && dir@ == c.target),
        c.phase is Moving ==> (step matches ConvertStep::Move { from, to } && from@ == joined(
            c.root,
            c.items[c.moved],
        ) && to@ == joined(c.target, c.items[c.moved])),
        c.phase is PuttingBack ==> (step matches ConvertStep::PutBack { from, to } && from@
            == joined(c.target, c.items[c.moved - 1]) && to@ == joined(
            c.root,
            c.items[c.moved - 1],
        )),
        c.phase is Converted ==> step is Converted,
        c.phase is GivenUp ==> step is GivenUp,
{
}

/// A refusal names the profile, without the whitespace around its name, between
/// quotes, and where a library is in the way, that library.
pub proof fn refusals_name_the_profile(root: Seq<char>, name: Seq<char>)
    ensures
        ({
            let quoted = seq!['"'] + trimmed(name) + seq!['"'];
            &&& unusable_message(name) == quoted + " isn't a usable profile name"@
            &&& taken_message(root, name) == "profile "@ + quoted + " already has a library at "@
                + profile_dir(root, trimmed(name))
        }),
{
    reveal_strlit("\"");
    reveal_strlit("\" isn't a usable profile name");
    reveal_strlit(" isn't a usable profile name");
    reveal_strlit("profile \"");
    reveal_strlit("profile ");
    reveal_strlit("\" already has a library at ");
    reveal_strlit(" already has a library at ");
    let t = trimmed(name);
    let quoted = seq!['"'] + t + seq!['"'];
    assert("\""@ =~= seq!['"']);
    assert("\" isn't a usable profile name"@ =~= seq!['"'] + " isn't a usable profile name"@);
    assert("profile \""@ =~= "profile "@ + seq!['"']);
    assert("\" already has a library at "@ =~= seq!['"'] + " already has a library at "@);
    assert(unusable_message(name) =~= quoted + " isn't a usable profile name"@);
    assert(taken_message(root, name) =~= "profile "@ + quoted + " already has a library at "@
        + profile_dir(root, t));
}

/// Why a conversion is refused before it starts, if it is.
pub open spec fn refusal(root: Seq<char>, name: Seq<char>, taken: bool) -> Option<Seq<char>> {
    if !is_usable_name(name) {
        Some(unusable_message(name))
    } else if taken {
        Some(taken_message(root, name))
    } else {
        None
    }
}

/// A conversion is refused for a name that cannot be used, else for a library that
/// is in the way, and for nothing else.
pub proof fn only_bad_names_and_libraries_are_refused(root: Seq<char>, name: Seq<char>, taken: bool)
    ensures
        refusal(root, name, taken) is None <==> is_usable_name(name) && !taken,
        !is_usable_name(name) ==> refusal(root, name, taken) == Some(unusable_message(name)),
        is_usable_name(name) && taken ==> refusal(root, name, taken) == Some(
            taken_message(root, name),
        ),
{
}

} // verus!
