use std::io::Write;

use gideon_core::cbz::{
    comic_info_position, file_stem, is_comic_info_entry, is_page_entry, page_image,
    reading_order,
};
use gideon_core::{CbzDocument, Error};
use zip::write::SimpleFileOptions;
use zip::ZipWriter;

/// Build a small in-memory PNG so decoded pages are real images.
fn tiny_png(width: u32, height: u32) -> Vec<u8> {
    let img = image::RgbImage::from_pixel(width, height, image::Rgb([120, 130, 140]));
    let mut buf = std::io::Cursor::new(Vec::new());
    image::DynamicImage::ImageRgb8(img)
        .write_to(&mut buf, image::ImageFormat::Png)
        .unwrap();
    buf.into_inner()
}

fn cbz(entries: &[(&str, &[u8])]) -> Vec<u8> {
    let mut zip = ZipWriter::new(std::io::Cursor::new(Vec::new()));
    for (name, data) in entries {
        zip.start_file(*name, SimpleFileOptions::default()).unwrap();
        zip.write_all(data).unwrap();
    }
    zip.finish().unwrap().into_inner()
}

#[test]
fn pages_are_naturally_sorted_and_filtered() {
    let png = tiny_png(4, 4);
    let bytes = cbz(&[
        ("page10.png", png.as_slice()),
        ("page2.png", png.as_slice()),
        ("page1.png", png.as_slice()),
        ("__MACOSX/page1.png", b"junk".as_slice()),
        (".hidden.png", b"junk".as_slice()),
        ("Thumbs.db", b"junk".as_slice()),
        ("notes.txt", b"junk".as_slice()),
    ]);

    let doc = CbzDocument::open("test.cbz", bytes).unwrap();
    assert_eq!(doc.page_count(), 3);
    assert_eq!(doc.page_names(), &["page1.png", "page2.png", "page10.png"]);
    assert_eq!(doc.path(), "test.cbz");
    assert!(doc.comic_info().is_none());
}

#[test]
fn decode_page_returns_image_with_expected_dimensions() {
    let bytes = cbz(&[("only.png", tiny_png(7, 9).as_slice())]);
    let mut doc = CbzDocument::open("test.cbz", bytes).unwrap();
    let img = doc.decode_page(0).unwrap();
    assert_eq!((img.width(), img.height()), (7, 9));
}

#[test]
fn out_of_bounds_page_errors() {
    let bytes = cbz(&[("only.png", tiny_png(2, 2).as_slice())]);
    let mut doc = CbzDocument::open("test.cbz", bytes).unwrap();
    assert!(matches!(
        doc.decode_page(1),
        Err(Error::PageOutOfBounds { index: 1, count: 1 })
    ));
    assert!(matches!(
        doc.read_page(usize::MAX),
        Err(Error::PageOutOfBounds { count: 1, .. })
    ));
}

#[test]
fn empty_archive_is_an_error() {
    let bytes = cbz(&[("readme.txt", b"no pages here".as_slice())]);
    assert!(matches!(
        CbzDocument::open("empty.cbz", bytes),
        Err(Error::EmptyArchive)
    ));
}

#[test]
fn comic_info_is_parsed_when_present() {
    let xml = r#"<?xml version="1.0"?>
        <ComicInfo>
          <Title>Chapter 1</Title>
          <Series>My Manga</Series>
          <Number>1</Number>
        </ComicInfo>"#;
    let bytes = cbz(&[
        ("ComicInfo.xml", xml.as_bytes()),
        ("p1.png", tiny_png(2, 2).as_slice()),
    ]);

    let doc = CbzDocument::open("meta.cbz", bytes).unwrap();
    let info = doc.comic_info().unwrap();
    assert_eq!(info.series.as_deref(), Some("My Manga"));
    assert_eq!(info.title.as_deref(), Some("Chapter 1"));
    assert_eq!(doc.title(), "My Manga — Chapter 1");
}

#[test]
fn title_falls_back_to_file_stem() {
    let bytes = cbz(&[("p1.png", tiny_png(2, 2).as_slice())]);
    let doc = CbzDocument::open("/books/One Piece v1.cbz", bytes.clone()).unwrap();
    assert_eq!(doc.title(), "One Piece v1");
    // A path without a file name is shown as it is.
    assert_eq!(CbzDocument::open("..", bytes).unwrap().title(), "..");
}

#[test]
fn pages_are_handed_out_as_they_are_stored() {
    let bytes = cbz(&[
        ("b.png", b"not an image".as_slice()),
        ("a.png", tiny_png(1, 1).as_slice()),
    ]);
    let mut doc = CbzDocument::open("x.cbz", bytes).unwrap();
    assert_eq!(doc.read_page(0).unwrap(), tiny_png(1, 1));
    assert_eq!(doc.read_page(1).unwrap(), b"not an image");
    // Reading again gives the same.
    assert_eq!(doc.read_page(1).unwrap(), b"not an image");
    assert!(matches!(
        doc.decode_page(1),
        Err(Error::DecodeImage { name, .. }) if name == "b.png"
    ));
}

#[test]
fn a_page_is_what_the_decoder_makes_of_it() {
    let image = image::DynamicImage::new_rgb8(3, 2);
    let page = page_image("p.png".to_string(), Ok(image)).unwrap();
    assert_eq!((page.width(), page.height()), (3, 2));
    let broken = image::load_from_memory(b"not an image");
    assert!(matches!(
        page_image("p.png".to_string(), broken),
        Err(Error::DecodeImage { name, .. }) if name == "p.png"
    ));
}

#[test]
fn what_is_no_archive_cannot_be_opened() {
    assert!(matches!(
        CbzDocument::open("junk.cbz", b"not a zip".to_vec()),
        Err(Error::OpenArchive { path, .. }) if path == "junk.cbz"
    ));
}

#[test]
fn damaged_entries_are_errors() {
    // Stored data whose checksum no longer fits.
    let mut zip = ZipWriter::new(std::io::Cursor::new(Vec::new()));
    let stored = SimpleFileOptions::default().compression_method(zip::CompressionMethod::Stored);
    zip.start_file("p.png", stored).unwrap();
    zip.write_all(b"pixels pixels pixels").unwrap();
    let mut bytes = zip.finish().unwrap().into_inner();
    let at = bytes.windows(6).position(|w| w == b"pixels").unwrap();
    bytes[at] = b'P';
    let mut doc = CbzDocument::open("x.cbz", bytes.clone()).unwrap();
    assert!(matches!(doc.read_page(0), Err(Error::Io(_))));
    assert!(matches!(doc.decode_page(0), Err(Error::Io(_))));

    // A local header that is gone.
    bytes[0] = b'X';
    let mut doc = CbzDocument::open("x.cbz", bytes).unwrap();
    assert!(matches!(
        doc.read_page(0),
        Err(Error::ReadPage { name, .. }) if name == "p.png"
    ));
}

#[test]
fn metadata_is_best_effort() {
    let png = tiny_png(1, 1);
    let open = |name: &str, xml: &[u8]| {
        CbzDocument::open("x/y.cbz", cbz(&[("p.png", png.as_slice()), (name, xml)])).unwrap()
    };
    let doc = open("deep/COMICINFO.XML", b"<Title>t</Title>");
    assert_eq!(doc.comic_info().unwrap().title.as_deref(), Some("t"));
    assert_eq!(doc.title(), "t");
    assert!(open("ComicInfo.xml", b"<broken").comic_info().is_none());
    assert!(open("ComicInfo.xml", b"<a>\xff</a>").comic_info().is_none());
    assert!(open("ComicInfo.xml.bak", b"<Title>t</Title>").comic_info().is_none());
    // Metadata that says nothing leaves the file's own name.
    assert_eq!(open("ComicInfo.xml", b"<a/>").title(), "y");
}

#[test]
fn page_entries_are_images_outside_junk() {
    for name in ["1.jpg", "a/b/1.JPEG", "x.y.png", "w.WebP", "g.gif", "b.bmp", "dir.d/1.png"] {
        assert!(is_page_entry(name), "{name}");
    }
    for name in [
        "", "/", "dir/", "1.jpg/", "noext", "1.tiff", ".1.jpg", "a/.b/1.jpg", "__MACOSX/1.jpg",
        "a/__MACOSX/1.jpg", "Thumbs.db", "a/thumbs.db", "jpg",
    ] {
        assert!(!is_page_entry(name), "{name}");
    }
    assert!(is_page_entry("__MACOSX.jpg"));
    assert!(is_page_entry("a//1.jpg"));
    assert!(is_comic_info_entry("ComicInfo.xml"));
    assert!(is_comic_info_entry("a/comicinfo.XML"));
    assert!(!is_comic_info_entry("a/comicinfo.xml/"));
}

#[test]
fn reading_order_is_natural() {
    let names: Vec<String> = ["10.png", "x.txt", "9.png", "009.png", "B/1.png", "a/2.png"]
        .iter()
        .map(|s| s.to_string())
        .collect();
    assert_eq!(
        reading_order(&names),
        vec!["9.png", "009.png", "10.png", "a/2.png", "B/1.png"]
    );
}

#[test]
fn the_first_metadata_entry_counts() {
    let names: Vec<String> = ["1.png", "a/ComicInfo.xml", "comicinfo.xml"]
        .iter()
        .map(|s| s.to_string())
        .collect();
    assert_eq!(comic_info_position(&names), Some(1));
    assert_eq!(comic_info_position(&names[..1].to_vec()), None);
}

#[test]
fn stems_agree_with_the_standard_library() {
    for path in [
        "", "/", ".", "..", "a", "a.cbz", "a.b.cbz", ".hidden", ".hidden.x", "/x/y.cbz", "x/y.cbz/",
        "x/y.cbz/.", "x/..", "./x", "x//y.z", "a.", "..a", "a..b", "./", "x/.a",
    ] {
        let expected = std::path::Path::new(path)
            .file_stem()
            .map(|s| s.to_string_lossy().into_owned());
        assert_eq!(file_stem(path), expected, "{path:?}");
    }
}
