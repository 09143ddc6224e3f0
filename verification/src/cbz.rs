//! CBZ (comic book zip) document handling.

use vstd::prelude::*;
use vstd::utf8::{decode_utf8, valid_utf8};

use crate::comicinfo::{combined_title, no_info, xml_steps, ComicInfo, InfoView, Outcome, ParserView};
use crate::error::Error;
use crate::json::text_view;
use crate::natsort::natural_order;
use crate::order::Rank;
use crate::sorting::{is_sorted_copy, is_stable_sort, sorted_copy_is_a_rearrangement, sorted_texts,
    Collation};
use crate::text::{chars_of, ends_with, finishes_with, lowered, pieces, same_text, split_text,
    starts_with_char, text_of, texts, to_lower};

verus! {

/// Whether a component of an entry's name marks the entry as junk: a macOS
/// resource fork or a hidden file.
pub open spec fn is_junk(component: Seq<char>) -> bool {
    component == "__MACOSX"@ || (component.len() > 0 && component[0] == '.')
}

/// Image extensions recognized as pages inside a CBZ archive.
pub open spec fn is_page_extension(ext: Seq<char>) -> bool {
    ext == "jpg"@ || ext == "jpeg"@ || ext == "png"@ || ext == "webp"@ || ext == "gif"@ || ext
        == "bmp"@
}

/// Whether an archive entry is a readable page: a file, nowhere inside a junk
/// directory, no thumbnail cache, with the extension of an image.
pub open spec fn is_page(name: Seq<char>) -> bool {
    let lower = lowered(name);
    &&& !finishes_with(name, "/"@)
    &&& forall|i: int| 0 <= i < pieces(name, '/').len() ==> !is_junk(#[trigger] pieces(name, '/')[i])
    &&& !finishes_with(lower, "thumbs.db"@)
    &&& pieces(lower, '.').len() > 1
    &&& is_page_extension(pieces(lower, '.').last())
}

fn has_page_extension(ext: &str) -> (res: bool)
    ensures
        res == is_page_extension(ext@),
{
    same_text(ext, "jpg") || same_text(ext, "jpeg") || same_text(ext, "png") || same_text(
        ext,
        "webp",
    ) || same_text(ext, "gif") || same_text(ext, "bmp")
}

/// Decide whether an archive entry is a readable page.
pub fn is_page_entry(name: &str) -> (res: bool)
    ensures
        res == is_page(name@),
{
    let letters = chars_of(name);
    if ends_with(&letters, "/") {
        return false;
    }
    // Skip macOS resource forks and hidden files anywhere in the path.
    let components = split_text(name, '/');
    let mut i: usize = 0;
    while i < components.len()
        invariant
            i <= components@.len(),
            texts(components@) == pieces(name@, '/'),
            forall|k: int| 0 <= k < i ==> !is_junk(#[trigger] pieces(name@, '/')[k]),
        decreases components@.len() - i,
    {
        assert(pieces(name@, '/')[i as int] == components@[i as int]@);
        let component = components[i].as_str();
        if same_text(component, "__MACOSX") || starts_with_char(component, '.') {
            return false;
        }
        i = i + 1;
    }
    let lower = to_lower(name);
    let letters = chars_of(lower.as_str());
    if ends_with(&letters, "thumbs.db") {
        return false;
    }
    let parts = split_text(lower.as_str(), '.');
    assert(texts(parts@).last() == parts@.last()@);
    parts.len() > 1 && has_page_extension(parts[parts.len() - 1].as_str())
}

/// Whether an entry is called `ComicInfo.xml`, in any casing and in any
/// directory.
pub open spec fn is_info_entry(name: Seq<char>) -> bool {
    lowered(pieces(name, '/').last()) == "comicinfo.xml"@
}

/// Decide whether an archive entry holds the metadata.
pub fn is_comic_info_entry(name: &str) -> (res: bool)
    ensures
        res == is_info_entry(name@),
{
    let parts = split_text(name, '/');
    assert(texts(parts@).last() == parts@.last()@);
    let base = to_lower(parts[parts.len() - 1].as_str());
    same_text(base.as_str(), "comicinfo.xml")
}

/// What reading an entry of an archive gives.
pub enum EntryData {
    /// The archive does not hand the entry out.
    Unavailable,
    /// Reading the entry fails.
    Broken,
    Bytes(Seq<u8>),
}

/// An entry of an archive.
pub struct ArchiveEntry {
    pub name: Seq<char>,
    pub data: EntryData,
}

/// A zip archive over a reader.
#[verifier::external_type_specification]
#[verifier::external_body]
#[verifier::reject_recursive_types(R)]
pub struct ExZipArchive<R>(zip::ZipArchive<R>);

/// A reader over bytes in memory.
#[verifier::external_type_specification]
#[verifier::external_body]
#[verifier::reject_recursive_types(T)]
pub struct ExCursor<T>(std::io::Cursor<T>);

/// An image with its pixels.
#[verifier::external_type_specification]
#[verifier::external_body]
pub struct ExDynamicImage(image::DynamicImage);

/// The entries that an archive holds, in the order of its directory.
pub uninterp spec fn entries_of(
    archive: zip::ZipArchive<std::io::Cursor<Vec<u8>>>,
) -> Seq<ArchiveEntry>;

/// The entries of the zip archive that some bytes are, or `None` if they are
/// none.
pub uninterp spec fn archive_of(bytes: Seq<u8>) -> Option<Seq<ArchiveEntry>>;

/// Whether no two entries have the same name.
pub open spec fn has_distinct_names(entries: Seq<ArchiveEntry>) -> bool {
    forall|i: int, j: int|
        0 <= i < j < entries.len() ==> (#[trigger] entries[i]).name != (#[trigger] entries[j]).name
}

/// The names of some entries.
pub open spec fn names_of(entries: Seq<ArchiveEntry>) -> Seq<Seq<char>> {
    entries.map_values(|e: ArchiveEntry| e.name)
}

/// What reading the entry `name` gives; it is not available where there is
/// none.
pub open spec fn data_of(entries: Seq<ArchiveEntry>, name: Seq<char>) -> EntryData
    decreases entries.len(),
{
    if entries.len() == 0 {
        EntryData::Unavailable
    } else if entries.last().name == name {
        entries.last().data
    } else {
        data_of(entries.drop_last(), name)
    }
}

/// Why an entry could not be read.
pub enum EntryError {
    Unavailable(zip::result::ZipError),
    Broken(std::io::Error),
}

/// Whether a result is what reading an entry gives.
pub open spec fn is_data(res: Result<Vec<u8>, EntryError>, data: EntryData) -> bool {
    match res {
        Ok(bytes) => data == EntryData::Bytes(bytes@),
        Err(EntryError::Unavailable(_)) => data is Unavailable,
        Err(EntryError::Broken(_)) => data is Broken,
    }
}

/// `zip::ZipArchive::new` reads the directory of the archive that some bytes
/// are. The directory is a map by name, so names are distinct.
#[verifier::external_body]
fn open_zip(bytes: Vec<u8>) -> (res: Result<
    zip::ZipArchive<std::io::Cursor<Vec<u8>>>,
    zip::result::ZipError,
>)
    ensures
        match res {
            Ok(archive) => archive_of(bytes@) == Some(entries_of(archive)) && has_distinct_names(
                entries_of(archive),
            ),
            Err(_) => archive_of(bytes@) is None,
        },
{
    zip::ZipArchive::new(std::io::Cursor::new(bytes))
}

/// `zip::ZipArchive::file_names` lists the names of all entries, in the order
/// of the archive's directory.
#[verifier::external_body]
fn entry_names(archive: &zip::ZipArchive<std::io::Cursor<Vec<u8>>>) -> (res: Vec<String>)
    ensures
        texts(res@) == names_of(entries_of(*archive)),
{
    archive.file_names().map(|name| name.to_owned()).collect()
}

/// `zip::ZipArchive::by_name` finds an entry by its name, and reading it to its
/// end gives what it holds. The archive holds the same afterwards.
#[verifier::external_body]
fn read_entry(archive: &mut zip::ZipArchive<std::io::Cursor<Vec<u8>>>, name: &str) -> (res: Result<
    Vec<u8>,
    EntryError,
>)
    ensures
        is_data(res, data_of(entries_of(*old(archive)), name@)),
        entries_of(*final(archive)) == entries_of(*old(archive)),
{
    let mut entry = archive.by_name(name).map_err(EntryError::Unavailable)?;
    let mut bytes = Vec::new();
    std::io::Read::read_to_end(&mut entry, &mut bytes).map_err(EntryError::Broken)?;
    Ok(bytes)
}

/// `String::from_utf8` gives the text that some bytes encode, where they are
/// valid UTF-8.
#[verifier::external_body]
fn utf8_text(bytes: Vec<u8>) -> (res: Option<String>)
    ensures
        res is Some == valid_utf8(bytes@),
        res matches Some(text) ==> text@ == decode_utf8(bytes@),
{
    String::from_utf8(bytes).ok()
}

/// `image::load_from_memory` guesses the format of an encoded image and decodes
/// it. Nothing is claimed of the result: besides the bytes it depends on the
/// decoding hooks that the program has registered with the crate by then.
#[verifier::external_body]
fn decode_image(bytes: &Vec<u8>) -> (res: Result<image::DynamicImage, image::ImageError>) {
    image::load_from_memory(bytes)
}

/// Whether `decoded` is something that decoding `bytes` can give.
pub closed spec fn can_decode_to(
    bytes: Seq<u8>,
    decoded: Result<image::DynamicImage, image::ImageError>,
) -> bool {
    exists|v: Vec<u8>| v@ == bytes && #[trigger] call_ensures(decode_image, (&v,), decoded)
}

/// Hands `bytes` to a decoder.
fn decode_with<F: Fn(&Vec<u8>) -> Result<image::DynamicImage, image::ImageError>>(
    decoder: F,
    bytes: &Vec<u8>,
) -> (res: Result<image::DynamicImage, image::ImageError>)
    requires
        call_requires(decoder, (bytes,)),
    ensures
        call_ensures(decoder, (bytes,), res),
{
    decoder(bytes)
}

/// What decoding the page `name` comes to: the decoded image, or an error that
/// names the page.
pub fn page_image(
    name: String,
    decoded: Result<image::DynamicImage, image::ImageError>,
) -> (res: Result<image::DynamicImage, Error>)
    ensures
        match decoded {
            Ok(image) => res == Ok::<image::DynamicImage, Error>(image),
            Err(e) => res matches Err(Error::DecodeImage { name: n, source }) && n == name && source
                == e,
        },
{
    match decoded {
        Ok(image) => Ok(image),
        Err(source) => Err(Error::DecodeImage { name, source }),
    }
}

/// The stem of a file name: the part before its final `.`, or all of it where
/// there is none but at the very beginning.
pub open spec fn stem_of_name(name: Seq<char>) -> Seq<char> {
    let parts = pieces(name, '.');
    if parts.len() <= 1 || (parts.len() == 2 && parts[0].len() == 0) {
        name
    } else {
        name.take(name.len() - parts.last().len() - 1)
    }
}

/// The last of some path components that names something: empty components,
/// which stand between slashes, and `.` do not.
pub open spec fn last_named(parts: Seq<Seq<char>>) -> Option<Seq<char>>
    decreases parts.len(),
{
    if parts.len() == 0 {
        None
    } else if parts.last().len() == 0 || parts.last() == "."@ {
        last_named(parts.drop_last())
    } else {
        Some(parts.last())
    }
}

/// The stem of the file that a path leads to, if it leads to one.
pub open spec fn file_stem_of(path: Seq<char>) -> Option<Seq<char>> {
    match last_named(pieces(path, '/')) {
        Some(name) if name != ".."@ => Some(stem_of_name(name)),
        _ => None,
    }
}

proof fn lemma_last_piece(s: Seq<char>, sep: char)
    ensures
        pieces(s, sep).len() > 0,
        pieces(s, sep).len() > 1 ==> pieces(s, sep).last().len() < s.len(),
    decreases s.len(),
{
    if s.len() > 0 {
        lemma_last_piece(s.drop_last(), sep);
    }
}

fn name_stem(name: &str) -> (res: String)
    ensures
        res@ == stem_of_name(name@),
{
    let letters = chars_of(name);
    let parts = split_text(name, '.');
    let n: usize = parts.len();
    let last = chars_of(parts[n - 1].as_str());
    let first = chars_of(parts[0].as_str());
    proof {
        lemma_last_piece(name@, '.');
        assert(texts(parts@)[n - 1] == last@);
        assert(texts(parts@)[0] == first@);
    }
    if n <= 1 || (n == 2 && first.len() == 0) {
        return name.to_owned();
    }
    let res = text_of(&letters, 0, letters.len() - last.len() - 1);
    assert(res@ =~= stem_of_name(name@));
    res
}

/// The stem of the file that a path leads to, if it leads to one.
pub fn file_stem(path: &str) -> (res: Option<String>)
    ensures
        text_view(res) == file_stem_of(path@),
{
    let parts = split_text(path, '/');
    let ghost all = texts(parts@);
    let mut n: usize = parts.len();
    assert(all.take(n as int) =~= all);
    while n > 0
        invariant
            n <= parts@.len(),
            all == texts(parts@),
            all == pieces(path@, '/'),
            last_named(all) == last_named(all.take(n as int)),
        decreases n,
    {
        let part = parts[n - 1].as_str();
        proof {
            assert(all.take(n as int).last() == part@);
            assert(all.take(n as int).drop_last() =~= all.take(n - 1));
        }
        if part.unicode_len() > 0 && !same_text(part, ".") {
            return if same_text(part, "..") {
                None
            } else {
                Some(name_stem(part))
            };
        }
        n = n - 1;
    }
    None
}

/// How many of some names come before the first that is a metadata entry.
pub open spec fn names_before_info(names: Seq<Seq<char>>) -> int
    decreases names.len(),
{
    if names.len() == 0 || is_info_entry(names[0]) {
        0
    } else {
        1 + names_before_info(names.drop_first())
    }
}

/// The metadata that an entry's data holds.
pub open spec fn info_in(data: EntryData) -> Option<InfoView> {
    match data {
        EntryData::Bytes(bytes) if valid_utf8(bytes) => match (ParserView {
            info: no_info(),
            current: None,
        }).outcome(xml_steps(decode_utf8(bytes))) {
            Outcome::Parsed(info) => Some(info),
            _ => None,
        },
        _ => None,
    }
}

/// The metadata of an archive: that of the first metadata entry, as far as it
/// can be read and parsed.
pub open spec fn archive_info(entries: Seq<ArchiveEntry>) -> Option<InfoView> {
    let names = names_of(entries);
    let n = names_before_info(names);
    if n < names.len() {
        info_in(data_of(entries, names[n]))
    } else {
        None
    }
}

/// The pages among some names, in the order given.
pub open spec fn pages_among(names: Seq<Seq<char>>) -> Seq<Seq<char>>
    decreases names.len(),
{
    if names.len() == 0 {
        Seq::empty()
    } else {
        let before = pages_among(names.drop_last());
        if is_page(names.last()) {
            before.push(names.last())
        } else {
            before
        }
    }
}

/// The pages among the names of an archive's entries, in natural reading order.
pub fn reading_order(names: &Vec<String>) -> (res: Vec<String>)
    ensures
        is_sorted_copy(pages_among(texts(names@)), Collation::Natural, texts(res@)),
        texts(res@).len() == pages_among(texts(names@)).len(),
{
    let ghost all = texts(names@);
    let mut pages: Vec<String> = Vec::new();
    let mut i: usize = 0;
    assert(texts(pages@) =~= pages_among(all.take(0)));
    while i < names.len()
        invariant
            i <= names@.len(),
            all == texts(names@),
            texts(pages@) == pages_among(all.take(i as int)),
        decreases names@.len() - i,
    {
        assert(all.take(i + 1).drop_last() =~= all.take(i as int));
        assert(all.take(i + 1).last() == names@[i as int]@);
        if is_page_entry(names[i].as_str()) {
            let ghost before = texts(pages@);
            pages.push(names[i].clone());
            assert(texts(pages@) =~= before.push(names@[i as int]@));
        }
        i = i + 1;
    }
    assert(all.take(all.len() as int) =~= all);
    sorted_texts(&pages, Collation::Natural)
}

/// Where among the names of an archive's entries the metadata is: the first
/// `ComicInfo.xml`, in any casing and in any directory.
pub fn comic_info_position(names: &Vec<String>) -> (res: Option<usize>)
    ensures
        match res {
            Some(i) => i < names@.len() && i == names_before_info(texts(names@)),
            None => names_before_info(texts(names@)) == names@.len(),
        },
{
    let ghost all = texts(names@);
    let mut i: usize = 0;
    assert(all.skip(0) =~= all);
    while i < names.len()
        invariant
            i <= names@.len(),
            all == texts(names@),
            names_before_info(all) == i + names_before_info(all.skip(i as int)),
        decreases names@.len() - i,
    {
        assert(all.skip(i as int)[0] == names@[i as int]@);
        if is_comic_info_entry(names[i].as_str()) {
            return Some(i);
        }
        assert(all.skip(i as int).drop_first() =~= all.skip(i + 1));
        i = i + 1;
    }
    None
}

/// Look for a `ComicInfo.xml` entry (any casing, any directory level) and
/// parse it. Failures are silently ignored — metadata is best-effort.
fn read_comic_info(
    archive: &mut zip::ZipArchive<std::io::Cursor<Vec<u8>>>,
    names: &Vec<String>,
) -> (res: Option<ComicInfo>)
    requires
        texts(names@) == names_of(entries_of(*old(archive))),
    ensures
        entries_of(*final(archive)) == entries_of(*old(archive)),
        info_view(res) == archive_info(entries_of(*old(archive))),
{
    let i: usize = comic_info_position(names)?;
    assert(texts(names@)[i as int] == names@[i as int]@);
    let bytes = match read_entry(archive, names[i].as_str()) {
        Ok(bytes) => bytes,
        Err(_) => return None,
    };
    let xml = utf8_text(bytes)?;
    match ComicInfo::parse(xml.as_str()) {
        Ok(info) => Some(info),
        Err(_) => None,
    }
}

/// The model of metadata that may not be there.
pub open spec fn info_view(info: Option<ComicInfo>) -> Option<InfoView> {
    match info {
        Some(info) => Some(info@),
        None => None,
    }
}

/// Display title: that of the metadata if available, else the stem of the file,
/// else its path.
pub fn title_or_stem(info: &Option<ComicInfo>, stem: Option<String>, path: &str) -> (res: String)
    ensures
        res@ == shown_title(info_view(*info), text_view(stem), path@),
{
    if let Some(info) = info {
        if let Some(title) = info.display_title() {
            return title;
        }
    }
    match stem {
        Some(stem) => stem,
        None => path.to_owned(),
    }
}

/// The title that a document is shown with.
pub open spec fn shown_title(
    info: Option<InfoView>,
    stem: Option<Seq<char>>,
    path: Seq<char>,
) -> Seq<char> {
    match info {
        Some(info) if combined_title(info) is Some => combined_title(info)->0,
        _ => match stem {
            Some(stem) => stem,
            None => path,
        },
    }
}

/// An opened CBZ document.
///
/// Pages are exposed in natural reading order (so `2.jpg` comes before
/// `10.jpg`), with archive junk (`__MACOSX/`, dotfiles, thumbnails,
/// non-image entries) filtered out.
pub struct CbzDocument {
    path: String,
    archive: zip::ZipArchive<std::io::Cursor<Vec<u8>>>,
    pages: Vec<String>,
    comic_info: Option<ComicInfo>,
}

impl CbzDocument {
    /// Path the document was opened from.
    pub closed spec fn path_text(&self) -> Seq<char> {
        self.path@
    }

    /// The entries of the archive.
    pub closed spec fn entries(&self) -> Seq<ArchiveEntry> {
        entries_of(self.archive)
    }

    /// Page entry names in reading order.
    pub closed spec fn names(&self) -> Seq<Seq<char>> {
        texts(self.pages@)
    }

    /// Embedded metadata, if present.
    pub closed spec fn info(&self) -> Option<InfoView> {
        info_view(self.comic_info)
    }

    /// Open a CBZ file, given what it holds, and index its pages.
    pub fn open(path: &str, bytes: Vec<u8>) -> (res: Result<Self, Error>)
        ensures
            match archive_of(bytes@) {
                None => res matches Err(Error::OpenArchive { path: p, .. }) && p@ == path@,
                Some(entries) => if pages_among(names_of(entries)).len() == 0 {
                    res matches Err(Error::EmptyArchive)
                } else {
                    &&& res matches Ok(doc)
                    &&& doc.path_text() == path@
                    &&& doc.entries() == entries
                    &&& is_sorted_copy(
                        pages_among(names_of(entries)),
                        Collation::Natural,
                        doc.names(),
                    )
                    &&& doc.info() == archive_info(entries)
                },
            },
    {
        let mut archive = match open_zip(bytes) {
            Ok(archive) => archive,
            Err(source) => return Err(Error::OpenArchive { path: path.to_owned(), source }),
        };
        let names = entry_names(&archive);
        let pages = reading_order(&names);
        if pages.len() == 0 {
            return Err(Error::EmptyArchive);
        }
        let comic_info = read_comic_info(&mut archive, &names);
        Ok(CbzDocument { path: path.to_owned(), archive, pages, comic_info })
    }

    /// Path the document was opened from.
    pub fn path(&self) -> (res: &str)
        ensures
            res@ == self.path_text(),
    {
        self.path.as_str()
    }

    /// Number of pages in reading order.
    pub fn page_count(&self) -> (res: usize)
        ensures
            res == self.names().len(),
    {
        self.pages.len()
    }

    /// Page entry names in reading order.
    pub fn page_names(&self) -> (res: &[String])
        ensures
            texts(res@) == self.names(),
    {
        self.pages.as_slice()
    }

    /// Embedded `ComicInfo.xml` metadata, if present.
    pub fn comic_info(&self) -> (res: Option<&ComicInfo>)
        ensures
            match res {
                Some(info) => self.info() == Some(info@),
                None => self.info() is None,
            },
    {
        self.comic_info.as_ref()
    }

    /// Display title: ComicInfo title/series if available, else file stem.
    pub fn title(&self) -> (res: String)
        ensures
            res@ == shown_title(self.info(), file_stem_of(self.path_text()), self.path_text()),
    {
        title_or_stem(&self.comic_info, file_stem(self.path.as_str()), self.path.as_str())
    }

    /// Read the raw (encoded) bytes of page `index`.
    pub fn read_page(&mut self, index: usize) -> (res: Result<Vec<u8>, Error>)
        ensures
            final(self).path_text() == old(self).path_text(),
            final(self).entries() == old(self).entries(),
            final(self).names() == old(self).names(),
            final(self).info() == old(self).info(),
            if index >= old(self).names().len() {
                res matches Err(Error::PageOutOfBounds { index: i, count }) && i == index && count
                    == old(self).names().len()
            } else {
                let name = old(self).names()[index as int];
                match data_of(old(self).entries(), name) {
                    EntryData::Unavailable => res matches Err(Error::ReadPage { name: n, .. }) && n@
                        == name,
                    EntryData::Broken => res matches Err(Error::Io(_)),
                    EntryData::Bytes(bytes) => res matches Ok(read) && read@ == bytes,
                }
            },
    {
        let count: usize = self.pages.len();
        if index >= count {
            return Err(Error::PageOutOfBounds { index, count });
        }
        let name = self.pages[index].clone();
        match read_entry(&mut self.archive, name.as_str()) {
            Ok(bytes) => Ok(bytes),
            Err(EntryError::Unavailable(source)) => Err(Error::ReadPage { name, source }),
            Err(EntryError::Broken(e)) => Err(Error::Io(e)),
        }
    }

    /// Read and decode page `index` into an image: where the page can be read,
    /// what [`page_image`] makes of something that its bytes can decode to.
    pub fn decode_page(&mut self, index: usize) -> (res: Result<image::DynamicImage, Error>)
        ensures
            final(self).path_text() == old(self).path_text(),
            final(self).entries() == old(self).entries(),
            final(self).names() == old(self).names(),
            final(self).info() == old(self).info(),
            if index >= old(self).names().len() {
                res matches Err(Error::PageOutOfBounds { index: i, count }) && i == index && count
                    == old(self).names().len()
            } else {
                let name = old(self).names()[index as int];
                match data_of(old(self).entries(), name) {
                    EntryData::Unavailable => res matches Err(Error::ReadPage { name: n, .. }) && n@
                        == name,
                    EntryData::Broken => res matches Err(Error::Io(_)),
                    EntryData::Bytes(bytes) => match res {
                        Ok(image) => can_decode_to(bytes, Ok(image)),
                        Err(Error::DecodeImage { name: n, source }) => n@ == name && can_decode_to(
                            bytes,
                            Err(source),
                        ),
                        Err(_) => false,
                    },
                }
            },
    {
        let bytes = match self.read_page(index) {
            Ok(bytes) => bytes,
            Err(e) => return Err(e),
        };
        let name = self.pages[index].clone();
        let decoded = decode_with(decode_image, &bytes);
        assert(can_decode_to(bytes@, decoded));
        page_image(name, decoded)
    }
}

/// The last piece of a text is what stands behind the last separator.
proof fn lemma_last_piece_is_tail(s: Seq<char>, sep: char) -> (start: Seq<char>)
    ensures
        pieces(s, sep).len() > 0,
        !pieces(s, sep).last().contains(sep),
        pieces(s, sep).len() == 1 ==> s == pieces(s, sep).last(),
        pieces(s, sep).len() > 1 ==> s == start + seq![sep] + pieces(s, sep).last() && pieces(
            start,
            sep,
        ) == pieces(s, sep).drop_last(),
    decreases s.len(),
{
    if s.len() == 0 {
        assert(s =~= pieces(s, sep).last());
        s
    } else {
        let r = s.drop_last();
        let before = pieces(r, sep);
        let start = lemma_last_piece_is_tail(r, sep);
        if s.last() == sep {
            assert(s =~= r + seq![sep] + pieces(s, sep).last());
            assert(pieces(s, sep).drop_last() =~= before);
            r
        } else {
            let last = pieces(s, sep).last();
            assert(last == before.last().push(s.last()));
            assert(!last.contains(sep)) by {
                if last.contains(sep) {
                    let k = choose|k: int| 0 <= k < last.len() && last[k] == sep;
                    assert(before.last()[k] == sep);
                }
            }
            if before.len() == 1 {
                assert(s =~= last);
            } else {
                assert(s =~= r.push(s.last()));
                assert(r == start + seq![sep] + before.last());
                assert((start + seq![sep] + before.last()).push(s.last()) =~= start + seq![sep]
                    + last);
                assert(pieces(s, sep).drop_last() =~= before.drop_last());
            }
            start
        }
    }
}

/// A text ends with `.` and an extension exactly when that is its last piece.
proof fn lemma_extension(s: Seq<char>, ext: Seq<char>)
    requires
        !ext.contains('.'),
    ensures
        finishes_with(s, seq!['.'] + ext) <==> pieces(s, '.').len() > 1 && pieces(s, '.').last()
            == ext,
{
    let tail = seq!['.'] + ext;
    if finishes_with(s, tail) {
        let start = s.take(s.len() - tail.len());
        crate::text::endings_are_what_comes_last(s, start, tail);
        assert(s =~= start + seq!['.'] + ext);
        crate::text::separators_cut(start, ext, '.');
        crate::text::separators_cut(ext, ext, '.');
        assert(pieces(ext, '.') == seq![ext]);
        assert(pieces(s, '.').last() == ext);
    }
    if pieces(s, '.').len() > 1 && pieces(s, '.').last() == ext {
        let start = lemma_last_piece_is_tail(s, '.');
        assert(s =~= start + tail);
        crate::text::endings_are_what_comes_last(s, start, tail);
    }
}

/// Whether a component begins with a dot shows in the text: a dot at its very
/// beginning or right behind a separator.
proof fn lemma_dotted_component(s: Seq<char>)
    ensures
        (exists|k: int|
            0 <= k < pieces(s, '/').len() && (#[trigger] pieces(s, '/')[k]).len() > 0 && pieces(
                s,
                '/',
            )[k][0] == '.') <==> (exists|i: int|
            0 <= i < s.len() && #[trigger] s[i] == '.' && (i == 0 || s[i - 1] == '/')),
        pieces(s, '/').len() > 0,
        pieces(s, '/').last().len() == 0 <==> s.len() == 0 || s.last() == '/',
    decreases s.len(),
{
    let p = pieces(s, '/');
    if s.len() > 0 {
        let r = s.drop_last();
        let q = pieces(r, '/');
        lemma_dotted_component(r);
        if exists|k: int| 0 <= k < p.len() && (#[trigger] p[k]).len() > 0 && p[k][0] == '.' {
            let k = choose|k: int| 0 <= k < p.len() && (#[trigger] p[k]).len() > 0 && p[k][0] == '.';
            if k < q.len() && q[k].len() > 0 {
                assert(q[k][0] == '.');
                let i = choose|i: int|
                    0 <= i < r.len() && #[trigger] r[i] == '.' && (i == 0 || r[i - 1] == '/');
                assert(s[i] == '.');
                assert(i == 0 || s[i - 1] == '/');
            } else {
                assert(s.last() != '/');
                assert(k == q.len() - 1 && q.last().len() == 0);
                let i = s.len() - 1;
                assert(s[i] == '.');
                assert(i == 0 || s[i - 1] == '/');
            }
        }
        if exists|i: int| 0 <= i < s.len() && #[trigger] s[i] == '.' && (i == 0 || s[i - 1] == '/') {
            let i = choose|i: int|
                0 <= i < s.len() && #[trigger] s[i] == '.' && (i == 0 || s[i - 1] == '/');
            if i < r.len() {
                assert(r[i] == '.');
                assert(i == 0 || r[i - 1] == '/');
                let k = choose|k: int|
                    0 <= k < q.len() && (#[trigger] q[k]).len() > 0 && q[k][0] == '.';
                assert(p[k].len() > 0 && p[k][0] == '.');
            } else {
                assert(q.last().len() == 0);
                let k = q.len() - 1;
                assert(p[k].len() > 0 && p[k][0] == '.');
            }
        }
    } else {
        assert(p =~= seq![Seq::<char>::empty()]);
    }
}

/// A page is an image file outside of junk, and every such file is a page: its
/// name ends, in any casing, in the extension of an image, no file or directory
/// on its way is hidden by a leading dot, and none is a resource fork.
pub proof fn pages_are_the_images_outside_junk(name: Seq<char>)
    ensures
        is_page(name) <==> {
            &&& (finishes_with(lowered(name), ".jpg"@) || finishes_with(lowered(name), ".jpeg"@) || finishes_with(lowered(name), ".png"@) || finishes_with(lowered(name), ".webp"@) || finishes_with(lowered(name), ".gif"@) || finishes_with(lowered(name), ".bmp"@))
            &&& forall|i: int| 0 <= i < name.len() && #[trigger] name[i] == '.' ==> i > 0 && name[i - 1] != '/'
            &&& !pieces(name, '/').contains("__MACOSX"@)
        },
{
    let lower = lowered(name);
    let parts = pieces(name, '/');
    reveal_strlit("jpg");
    reveal_strlit(".jpg");
    assert(".jpg"@ =~= seq!['.'] + "jpg"@);
    lemma_extension(lower, "jpg"@);
    reveal_strlit("jpeg");
    reveal_strlit(".jpeg");
    assert(".jpeg"@ =~= seq!['.'] + "jpeg"@);
    lemma_extension(lower, "jpeg"@);
    reveal_strlit("png");
    reveal_strlit(".png");
    assert(".png"@ =~= seq!['.'] + "png"@);
    lemma_extension(lower, "png"@);
    reveal_strlit("webp");
    reveal_strlit(".webp");
    assert(".webp"@ =~= seq!['.'] + "webp"@);
    lemma_extension(lower, "webp"@);
    reveal_strlit("gif");
    reveal_strlit(".gif");
    assert(".gif"@ =~= seq!['.'] + "gif"@);
    lemma_extension(lower, "gif"@);
    reveal_strlit("bmp");
    reveal_strlit(".bmp");
    assert(".bmp"@ =~= seq!['.'] + "bmp"@);
    lemma_extension(lower, "bmp"@);
    lemma_dotted_component(name);
    reveal_strlit("/");
    reveal_strlit("thumbs.db");
    let image = finishes_with(lower, ".jpg"@) || finishes_with(lower, ".jpeg"@) || finishes_with(lower, ".png"@) || finishes_with(lower, ".webp"@) || finishes_with(lower, ".gif"@) || finishes_with(lower, ".bmp"@);
    assert(image == (pieces(lower, '.').len() > 1 && is_page_extension(pieces(lower, '.').last())));
    if image {
        assert(name.len() > 0);
        assert(lower.last() == crate::text::lower_char(name.last()));
        assert(".jpg"@.last() == 'g' && ".jpeg"@.last() == 'g' && ".png"@.last() == 'g' && ".webp"@.last() == 'p'
            && ".gif"@.last() == 'f' && ".bmp"@.last() == 'p');
        lemma_last_of_suffix(lower, ".jpg"@);
        lemma_last_of_suffix(lower, ".jpeg"@);
        lemma_last_of_suffix(lower, ".png"@);
        lemma_last_of_suffix(lower, ".webp"@);
        lemma_last_of_suffix(lower, ".gif"@);
        lemma_last_of_suffix(lower, ".bmp"@);
        lemma_last_of_suffix(name, "/"@);
        lemma_last_of_suffix(lower, "thumbs.db"@);
        assert("/"@.last() == '/' && "thumbs.db"@.last() == 'b');
        assert(!finishes_with(name, "/"@));
        assert(!finishes_with(lower, "thumbs.db"@));
    }
    let clean = forall|i: int| 0 <= i < name.len() && #[trigger] name[i] == '.' ==> i > 0 && name[i - 1] != '/';
    let fork = parts.contains("__MACOSX"@);
    if clean && !fork {
        assert forall|k: int| 0 <= k < parts.len() implies !is_junk(#[trigger] parts[k]) by {
            assert(parts.contains(parts[k]));
        }
    }
    if forall|k: int| 0 <= k < parts.len() ==> !is_junk(#[trigger] parts[k]) {
        if fork {
            let k = choose|k: int| 0 <= k < parts.len() && parts[k] == "__MACOSX"@;
            assert(is_junk(parts[k]));
        }
        assert(clean) by {
            if exists|k: int| 0 <= k < parts.len() && (#[trigger] parts[k]).len() > 0 && parts[k][0] == '.' {
                let k = choose|k: int| 0 <= k < parts.len() && (#[trigger] parts[k]).len() > 0 && parts[k][0] == '.';
                assert(is_junk(parts[k]));
            }
        }
    }
}

proof fn lemma_last_of_suffix(s: Seq<char>, suffix: Seq<char>)
    requires
        suffix.len() > 0,
    ensures
        finishes_with(s, suffix) ==> s.len() > 0 && s.last() == suffix.last(),
{
    if finishes_with(s, suffix) {
        let n = s.len() - suffix.len();
        assert(s.skip(n)[suffix.len() - 1] == s.last());
    }
}

/// The metadata is in a file called `ComicInfo.xml`, in any casing and in any
/// directory, and such a file is never a page.
pub proof fn metadata_entries_are_no_pages(name: Seq<char>)
    ensures
        is_info_entry(name) <==> lowered(name) == "comicinfo.xml"@ || finishes_with(
            lowered(name),
            "/comicinfo.xml"@,
        ),
        is_info_entry(name) ==> !is_page(name),
{
    let lower = lowered(name);
    let file = "comicinfo.xml"@;
    reveal_strlit("comicinfo.xml");
    reveal_strlit("/comicinfo.xml");
    assert("/comicinfo.xml"@ =~= seq!['/'] + file);
    let start = lemma_last_piece_is_tail(name, '/');
    let last = pieces(name, '/').last();
    let cut = name.len() - last.len();
    if is_info_entry(name) {
        if pieces(name, '/').len() > 1 {
            assert(lower =~= lowered(start) + seq!['/'] + lowered(last));
            assert(lower =~= lowered(start) + "/comicinfo.xml"@);
            crate::text::endings_are_what_comes_last(lower, lowered(start), "/comicinfo.xml"@);
        }
        pages_are_the_images_outside_junk(name);
        assert(lower.last() == 'l') by {
            assert(lower.last() == lowered(last).last());
            assert(file.last() == 'l');
        }
        reveal_strlit(".jpg");
        lemma_last_of_suffix(lower, ".jpg"@);
        reveal_strlit(".jpeg");
        lemma_last_of_suffix(lower, ".jpeg"@);
        reveal_strlit(".png");
        lemma_last_of_suffix(lower, ".png"@);
        reveal_strlit(".webp");
        lemma_last_of_suffix(lower, ".webp"@);
        reveal_strlit(".gif");
        lemma_last_of_suffix(lower, ".gif"@);
        reveal_strlit(".bmp");
        lemma_last_of_suffix(lower, ".bmp"@);
    }
    if lower == file {
        assert(!name.contains('/')) by {
            if name.contains('/') {
                let k = choose|k: int| 0 <= k < name.len() && name[k] == '/';
                assert(lower[k] == '/');
                assert(file[k] == '/');
                assert(file =~= seq!['c', 'o', 'm', 'i', 'c', 'i', 'n', 'f', 'o', '.', 'x', 'm', 'l']);
            }
        }
        crate::text::separators_cut(name, name, '/');
        assert(last == name);
    }
    if finishes_with(lower, "/comicinfo.xml"@) {
        let n = lower.len() - 14;
        crate::text::endings_are_what_comes_last(lower, lower.take(n), "/comicinfo.xml"@);
        assert forall|k: int| 0 <= k < 14 implies #[trigger] lower[n + k] == "/comicinfo.xml"@[k] by {
            assert(lower.skip(n)[k] == lower[n + k]);
        }
        assert(lower[n + 0] == '/');
        assert(name[n] == '/');
        let tail = name.skip(n + 1);
        assert(name =~= name.take(n) + seq!['/'] + tail);
        assert(lowered(tail) =~= file) by {
            assert forall|k: int| 0 <= k < 13 implies lowered(tail)[k] == file[k] by {
                assert(lower[n + (k + 1)] == "/comicinfo.xml"@[k + 1]);
            }
        }
        assert(!tail.contains('/')) by {
            if tail.contains('/') {
                let k = choose|k: int| 0 <= k < tail.len() && tail[k] == '/';
                assert(lowered(tail)[k] == '/');
                assert(file[k] == '/');
                assert(file =~= seq!['c', 'o', 'm', 'i', 'c', 'i', 'n', 'f', 'o', '.', 'x', 'm', 'l']);
            }
        }
        crate::text::separators_cut(name.take(n), tail, '/');
        crate::text::separators_cut(tail, tail, '/');
        assert(last == tail);
    }
}

/// The pages among some names are picked one by one, in the order given: a name
/// that is a page is there, any other is not, and what stands before or behind
/// makes no difference.
pub proof fn pages_are_picked_one_by_one(before: Seq<Seq<char>>, name: Seq<char>, behind: Seq<Seq<char>>)
    ensures
        is_page(name) ==> pages_among(before + seq![name] + behind) == pages_among(before)
            + seq![name] + pages_among(behind),
        !is_page(name) ==> pages_among(before + seq![name] + behind) == pages_among(before)
            + pages_among(behind),
        pages_among(Seq::empty()) == Seq::<Seq<char>>::empty(),
    decreases behind.len(),
{
    let all = before + seq![name] + behind;
    if behind.len() == 0 {
        assert(all.drop_last() =~= before);
        assert(pages_among(behind) =~= Seq::<Seq<char>>::empty());
        assert(pages_among(before) + pages_among(behind) =~= pages_among(before));
        assert(pages_among(before) + seq![name] + pages_among(behind) =~= pages_among(before).push(
            name,
        ));
    } else {
        pages_are_picked_one_by_one(before, name, behind.drop_last());
        assert(all.drop_last() =~= before + seq![name] + behind.drop_last());
        if is_page(name) {
            assert(pages_among(all) =~= pages_among(before) + seq![name] + pages_among(behind));
        } else {
            assert(pages_among(all) =~= pages_among(before) + pages_among(behind));
        }
    }
}

/// Reading an entry by its name gives what that entry holds; a name that no entry
/// has is not available.
pub proof fn entries_are_read_by_name(entries: Seq<ArchiveEntry>, i: int, name: Seq<char>)
    requires
        has_distinct_names(entries),
    ensures
        0 <= i < entries.len() ==> data_of(entries, entries[i].name) == entries[i].data,
        0 <= i < entries.len() ==> names_of(entries)[i] == entries[i].name,
        names_of(entries).len() == entries.len(),
        (forall|k: int| 0 <= k < entries.len() ==> (#[trigger] entries[k]).name != name) ==> data_of(
            entries,
            name,
        ) is Unavailable,
    decreases entries.len(),
{
    if entries.len() > 0 {
        let rest = entries.drop_last();
        let n = entries.len() - 1;
        assert forall|a: int, b: int| 0 <= a < b < rest.len() implies (#[trigger] rest[a]).name != (
        #[trigger] rest[b]).name by {
            assert(rest[a] == entries[a] && rest[b] == entries[b]);
        }
        entries_are_read_by_name(rest, i, name);
        if 0 <= i < n {
            assert(entries[i].name != entries[n].name);
            assert(rest[i] == entries[i]);
        }
        if forall|k: int| 0 <= k < entries.len() ==> (#[trigger] entries[k]).name != name {
            assert(entries[n].name != name);
            assert forall|k: int| 0 <= k < rest.len() implies (#[trigger] rest[k]).name != name by {
                assert(rest[k] == entries[k]);
            }
        }
    }
}

proof fn lemma_names_before_info(names: Seq<Seq<char>>, i: int)
    requires
        0 <= i <= names.len(),
        forall|k: int| 0 <= k < i ==> !is_info_entry(#[trigger] names[k]),
        i < names.len() ==> is_info_entry(names[i]),
    ensures
        names_before_info(names) == i,
    decreases names.len(),
{
    if i > 0 {
        let rest = names.drop_first();
        assert forall|k: int| 0 <= k < i - 1 implies !is_info_entry(#[trigger] rest[k]) by {
            assert(rest[k] == names[k + 1]);
        }
        assert(!is_info_entry(names[0]));
        lemma_names_before_info(rest, i - 1);
    }
}

/// The metadata of an archive is that of its first metadata entry, as far as that
/// is valid text and well-formed; without such an entry there is none.
pub proof fn first_metadata_entry_counts(entries: Seq<ArchiveEntry>, i: int)
    requires
        has_distinct_names(entries),
        0 <= i <= entries.len(),
        forall|k: int| 0 <= k < i ==> !is_info_entry((#[trigger] entries[k]).name),
        i < entries.len() ==> is_info_entry(entries[i].name),
    ensures
        i == entries.len() ==> archive_info(entries) is None,
        i < entries.len() ==> match entries[i].data {
            EntryData::Bytes(bytes) => if valid_utf8(bytes) {
                match crate::comicinfo::outcome_of(no_info(), xml_steps(decode_utf8(bytes))) {
                    Outcome::Parsed(info) => archive_info(entries) == Some(info),
                    _ => archive_info(entries) is None,
                }
            } else {
                archive_info(entries) is None
            },
            _ => archive_info(entries) is None,
        },
{
    let names = names_of(entries);
    assert forall|k: int| 0 <= k < i implies !is_info_entry(#[trigger] names[k]) by {
        assert(names[k] == entries[k].name);
    }
    lemma_names_before_info(names, i);
    entries_are_read_by_name(entries, i, Seq::empty());
}

proof fn lemma_named(parts: Seq<Seq<char>>, name: Seq<char>)
    requires
        name.len() > 0,
        name != seq!['.'],
    ensures
        last_named(parts.push(name)) == Some(name),
        last_named(parts.push(Seq::empty())) == last_named(parts),
        last_named(parts.push(seq!['.'])) == last_named(parts),
{
    reveal_strlit(".");
    assert("."@ =~= seq!['.']);
    assert(parts.push(Seq::empty()).drop_last() =~= parts);
    assert(parts.push(seq!['.']).drop_last() =~= parts);
}

proof fn lemma_path_end(dir: Seq<char>, name: Seq<char>)
    requires
        name.len() > 0,
        !name.contains('/'),
        name != seq!['.'],
    ensures
        last_named(pieces(name, '/')) == Some(name),
        last_named(pieces(dir + seq!['/'] + name, '/')) == Some(name),
        last_named(pieces(dir + seq!['/'], '/')) == last_named(pieces(dir, '/')),
        last_named(pieces(dir + seq!['/', '.'], '/')) == last_named(pieces(dir, '/')),
{
    crate::text::separators_cut(name, name, '/');
    crate::text::separators_cut(dir, name, '/');
    crate::text::separators_cut(dir, Seq::empty(), '/');
    crate::text::separators_cut(dir, seq!['.'], '/');
    crate::text::separators_cut(Seq::empty(), Seq::empty(), '/');
    crate::text::separators_cut(seq!['.'], Seq::empty(), '/');
    let parts = pieces(dir, '/');
    assert(dir + seq!['/'] + Seq::empty() =~= dir + seq!['/']);
    assert(dir + seq!['/'] + seq!['.'] =~= dir + seq!['/', '.']);
    assert(pieces(name, '/') =~= Seq::<Seq<char>>::empty().push(name));
    assert(parts + seq![name] =~= parts.push(name));
    assert(parts + seq![Seq::<char>::empty()] =~= parts.push(Seq::empty()));
    assert(parts + seq![seq!['.']] =~= parts.push(seq!['.']));
    assert(pieces(Seq::<char>::empty(), '/') =~= seq![Seq::<char>::empty()]);
    assert(!seq!['.'].contains('/'));
    lemma_named(parts, name);
    lemma_named(Seq::empty(), name);
}

/// The stem of a path is its file's name up to the last dot, whatever directory
/// it is in; slashes behind it do not count.
pub proof fn stems_are_names_without_extension(
    dir: Seq<char>,
    stem: Seq<char>,
    ext: Seq<char>,
)
    requires
        stem.len() > 0,
        !stem.contains('/'),
        !ext.contains('/'),
        !ext.contains('.'),
        ext.len() > 0 || stem != seq!['.'],
    ensures
        file_stem_of(stem + seq!['.'] + ext) == Some(stem),
        file_stem_of(dir + seq!['/'] + (stem + seq!['.'] + ext)) == Some(stem),
        file_stem_of(dir + seq!['/']) == file_stem_of(dir),
        file_stem_of(dir + seq!['/', '.']) == file_stem_of(dir),
{
    let name = stem + seq!['.'] + ext;
    reveal_strlit("..");
    assert(".."@ =~= seq!['.', '.']);
    assert(!name.contains('/')) by {
        if name.contains('/') {
            let k = choose|k: int| 0 <= k < name.len() && name[k] == '/';
            if k < stem.len() {
                assert(stem[k] == '/');
            } else if k > stem.len() {
                assert(ext[k - stem.len() - 1] == '/');
            }
        }
    }
    lemma_path_end(dir, name);
    if name == ".."@ {
        assert(name.len() == 2);
        if ext.len() == 0 {
            assert(stem =~= seq!['.']);
        } else {
            assert(ext[0] == name[2 - 1 + 0] || ext.len() == 0);
            assert(stem.len() + 1 + ext.len() == 2);
        }
    }
    crate::text::separators_cut(stem, ext, '.');
    crate::text::separators_cut(ext, ext, '.');
    let parts = pieces(name, '.');
    assert(parts == pieces(stem, '.') + seq![ext]);
    assert(parts.last() == ext);
    crate::text::separators_cut(stem, stem, '.');
    if parts.len() == 2 {
        let start = lemma_last_piece_is_tail(stem, '.');
        assert(pieces(stem, '.').len() == 1);
        assert(parts[0] == stem);
    }
    assert(name.take(name.len() - ext.len() - 1) =~= stem);
}

/// A name without a dot, or with one at its very beginning only, is its own stem;
/// a path that ends in `..` has none.
pub proof fn names_without_extension_are_their_stem(dir: Seq<char>, name: Seq<char>)
    requires
        name.len() > 0,
        !name.contains('/'),
        !name.contains('.'),
    ensures
        file_stem_of(dir + seq!['/'] + name) == Some(name),
        file_stem_of(name) == Some(name),
        file_stem_of(dir + seq!['/'] + (seq!['.'] + name)) == Some(seq!['.'] + name),
        file_stem_of(dir + seq!['/'] + seq!['.', '.']) is None,
{
    let hidden = seq!['.'] + name;
    let up = seq!['.', '.'];
    reveal_strlit("..");
    assert(".."@ =~= up);
    assert(!hidden.contains('/')) by {
        if hidden.contains('/') {
            let k = choose|k: int| 0 <= k < hidden.len() && hidden[k] == '/';
            assert(name[k - 1] == '/');
        }
    }
    assert(!up.contains('/'));
    lemma_path_end(dir, name);
    assert(hidden.len() > 1);
    lemma_path_end(dir, hidden);
    lemma_path_end(dir, up);
    assert(name != up) by {
        if name == up {
            assert(name[0] == '.');
        }
    }
    assert(hidden != up) by {
        if hidden == up {
            assert(name[0] == hidden[1]);
            assert(name.contains(name[0]));
        }
    }
    crate::text::separators_cut(name, name, '.');
    crate::text::separators_cut(Seq::empty(), name, '.');
    crate::text::separators_cut(Seq::empty(), Seq::empty(), '.');
    assert(Seq::<char>::empty() + seq!['.'] + name =~= hidden);
    assert(pieces(Seq::<char>::empty(), '.') =~= seq![Seq::<char>::empty()]);
}

/// A document is shown with the title of its metadata, where that has one, else
/// with the stem of its file, else with its path.
pub proof fn titles_come_from_metadata_first(
    info: InfoView,
    stem: Seq<char>,
    path: Seq<char>,
)
    ensures
        combined_title(info) matches Some(title) ==> shown_title(Some(info), Some(stem), path)
            == title && shown_title(Some(info), None, path) == title,
        combined_title(info) is None ==> shown_title(Some(info), Some(stem), path) == stem
            && shown_title(Some(info), None, path) == path,
        shown_title(None, Some(stem), path) == stem,
        shown_title(None, None, path) == path,
{
}

proof fn lemma_pages_come_from(names: Seq<Seq<char>>, k: int) -> (i: int)
    requires
        0 <= k < pages_among(names).len(),
    ensures
        0 <= i < names.len(),
        names[i] == pages_among(names)[k],
        is_page(names[i]),
    decreases names.len(),
{
    let before = pages_among(names.drop_last());
    if k < before.len() {
        let i = lemma_pages_come_from(names.drop_last(), k);
        i
    } else {
        names.len() - 1
    }
}

proof fn lemma_no_more_pages_than_names(names: Seq<Seq<char>>)
    ensures
        pages_among(names).len() <= names.len(),
    decreases names.len(),
{
    if names.len() > 0 {
        lemma_no_more_pages_than_names(names.drop_last());
    }
}

proof fn lemma_pages_are_among(names: Seq<Seq<char>>, i: int) -> (k: int)
    requires
        0 <= i < names.len(),
        is_page(names[i]),
    ensures
        0 <= k < pages_among(names).len(),
        pages_among(names)[k] == names[i],
    decreases names.len(),
{
    let before = pages_among(names.drop_last());
    if i == names.len() - 1 {
        before.len() as int
    } else {
        let k = lemma_pages_are_among(names.drop_last(), i);
        k
    }
}

/// A document shows every page of its archive and nothing else: each page that it
/// shows is an entry of the archive, reading it gives what that entry holds, and
/// no page ranks after a later one.
pub proof fn pages_are_entries_of_the_archive(
    entries: Seq<ArchiveEntry>,
    shown: Seq<Seq<char>>,
    k: int,
) -> (i: int)
    requires
        has_distinct_names(entries),
        is_sorted_copy(pages_among(names_of(entries)), Collation::Natural, shown),
        0 <= k < shown.len(),
    ensures
        0 <= i < entries.len(),
        shown[k] == entries[i].name,
        is_page(shown[k]),
        data_of(entries, shown[k]) == entries[i].data,
        k + 1 < shown.len() ==> natural_order(shown[k], shown[k + 1]) != Rank::Greater,
{
    let names = names_of(entries);
    let p = sorted_copy_is_a_rearrangement(pages_among(names), Collation::Natural, shown);
    assert(p[k] < pages_among(names).len() && shown[k] == pages_among(names)[p[k] as int]);
    let i = lemma_pages_come_from(names, p[k] as int);
    entries_are_read_by_name(entries, i, Seq::empty());
    if k + 1 < shown.len() {
        assert(Collation::Natural.ranks(shown[k], shown[k + 1]) != Rank::Greater);
    }
    i
}

/// No page of the archive is left out.
pub proof fn no_page_is_left_out(entries: Seq<ArchiveEntry>, shown: Seq<Seq<char>>, i: int)
    requires
        is_sorted_copy(pages_among(names_of(entries)), Collation::Natural, shown),
        0 <= i < entries.len(),
        is_page(entries[i].name),
        entries.len() <= usize::MAX,
    ensures
        shown.contains(entries[i].name),
{
    let names = names_of(entries);
    let pages = pages_among(names);
    let k = lemma_pages_are_among(names, i);
    let p = choose|p: Seq<usize>| #[trigger]
        is_stable_sort(pages, Collation::Natural, p) && shown == p.map_values(
            |i: usize| pages[i as int],
        );
    lemma_no_more_pages_than_names(names);
    assert(p.contains(k as usize));
    let j = choose|j: int| 0 <= j < p.len() && p[j] == k as usize;
    assert(shown[j] == pages[k]);
}

/// Metadata that is there is modelled as it is.
pub proof fn metadata_is_there_or_not(info: ComicInfo)
    ensures
        info_view(Some(info)) == Some(info@),
        info_view(None) is None,
{
}

} // verus!
