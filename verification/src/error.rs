//! What can go wrong.

use vstd::prelude::*;

verus! {

/// An error that the zip reader reports.
#[verifier::external_type_specification]
#[verifier::external_body]
pub struct ExZipError(zip::result::ZipError);

/// An error that the image decoder reports.
#[verifier::external_type_specification]
#[verifier::external_body]
pub struct ExImageError(image::ImageError);

/// An error of an input or output operation.
#[verifier::external_type_specification]
#[verifier::external_body]
pub struct ExIoError(std::io::Error);

/// What can go wrong.
#[derive(Debug)]
pub enum Error {
    /// The file is no archive that can be opened.
    OpenArchive { path: String, source: zip::result::ZipError },
    /// The archive contains no readable pages.
    EmptyArchive,
    /// There is no page with this index.
    PageOutOfBounds { index: usize, count: usize },
    /// The archive does not hand out a page.
    ReadPage { name: String, source: zip::result::ZipError },
    /// A page is no image that can be decoded.
    DecodeImage { name: String, source: image::ImageError },
    /// Input or output failed.
    Io(std::io::Error),
    /// The progress store is no valid JSON; the parser's message.
    ProgressStore(String),
    /// The default profile cannot be converted.
    ConvertProfile(String),
}

} // verus!
