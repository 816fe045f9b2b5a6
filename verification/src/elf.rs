//! The ELF inspector: locating a named section inside an executable image.
//! The lookup itself is delegated to the `object` crate; everything around
//! it is verified against the abstract result of that lookup.

use vstd::prelude::*;
use object::{Object, ObjectSection};
use crate::error::Error;

verus! {

/// The outcome of looking a named section up in an executable image.
#[derive(Clone, Copy, Debug)]
pub enum SectionLookup {
    /// The section exists and occupies this file offset and size.
    Found(u64, u64),
    /// The section exists but occupies no range of the file.
    NoFileRange,
    /// No section of that name exists.
    NotFound,
    /// The image could not be parsed as an object file.
    BadImage,
}

/// What looking up `name` in the section table of `image` yields: a pure
/// function of the image bytes and the name.
pub uninterp spec fn section_lookup(image: Seq<u8>, name: Seq<char>) -> SectionLookup;

/// Relies on `object::File::parse`, `Object::section_by_name` and
/// `ObjectSection::file_range`: parsing an image and looking a section up
/// by name depend on the image bytes and the name alone, and the file
/// range is the section's offset and size within the file.
#[verifier::external_body]
fn lookup_section(image: &[u8], name: &str) -> (r: SectionLookup)
    ensures
        r == section_lookup(image@, name@),
{
    match object::File::parse(image) {
        Err(_) => SectionLookup::BadImage,
        Ok(file) => match file.section_by_name(name) {
            None => SectionLookup::NotFound,
            Some(section) => match section.file_range() {
                None => SectionLookup::NoFileRange,
                Some((offset, size)) => SectionLookup::Found(offset, size),
            },
        },
    }
}

/// Find the file offset and size of the named section.
///
/// Fails with `Parse` when the image is not a valid object file, when the
/// section has no file range, or when its range does not fit in `usize`;
/// fails with `SectionNotFound` when no section has the name.
pub fn find_section(image: &[u8], name: &str) -> (r: Result<(usize, usize), Error>)
    ensures
        match r {
            Ok((off, sz)) => section_lookup(image@, name@) == SectionLookup::Found(
                off as u64,
                sz as u64,
            ),
            Err(e) => match section_lookup(image@, name@) {
                SectionLookup::Found(off, sz) => e is Parse && !(off <= usize::MAX && sz
                    <= usize::MAX),
                SectionLookup::NoFileRange => e is Parse,
                SectionLookup::NotFound => e is SectionNotFound,
                SectionLookup::BadImage => e is Parse,
            },
        },
{
    match lookup_section(image, name) {
        SectionLookup::Found(offset, size) => {
            if offset <= usize::MAX as u64 && size <= usize::MAX as u64 {
                Ok((offset as usize, size as usize))
            } else {
                Err(Error::Parse("section range does not fit in memory".to_owned()))
            }
        },
        SectionLookup::NoFileRange => Err(
            Error::Parse("section has no file range".to_owned()),
        ),
        SectionLookup::NotFound => Err(Error::SectionNotFound(name.to_owned())),
        SectionLookup::BadImage => Err(
            Error::Parse("image is not a valid executable".to_owned()),
        ),
    }
}

} // verus!
