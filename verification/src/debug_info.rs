//! Lookups in the debug info of an ELF file, as the `addr2line` crate makes them.
//!
//! The debug info is indexed for each lookup. Split DWARF isn't loaded: a lookup
//! makes do with what the ELF file itself has.
use crate::object_file::{object_section, section_by_name, Section, SectionContents};
use addr2line::gimli::{Dwarf, EndianSlice, Error, LittleEndian, SectionId};
use addr2line::{demangle_auto, Context};
use vstd::prelude::*;

verus! {

/// A place in the source code, as far as it is known.
#[derive(Debug, PartialEq, Eq)]
pub struct DwarfLocation {
    /// The name of the file.
    pub file: Option<String>,
    /// The number of the line.
    pub line: Option<u32>,
}

/// A function in the debug info.
#[derive(Debug, PartialEq, Eq)]
pub struct DwarfFrame {
    /// The name of the function, if it has one; `Some(None)` is a name that
    /// can't be read.
    pub function: Option<Option<String>>,
    /// The place in the source code.
    pub location: Option<DwarfLocation>,
}

/// What a [`DwarfLocation`] holds.
#[verifier::ext_equal]
pub struct LocationText {
    /// The name of the file.
    pub file: Option<Seq<char>>,
    /// The number of the line.
    pub line: Option<u32>,
}

/// What a [`DwarfFrame`] holds.
#[verifier::ext_equal]
pub struct FrameText {
    /// The name of the function.
    pub function: Option<Option<Seq<char>>>,
    /// The place in the source code.
    pub location: Option<LocationText>,
}

/// The characters of an optional string.
pub open spec fn text_of(text: Option<String>) -> Option<Seq<char>> {
    match text {
        Some(text) => Some(text@),
        None => None,
    }
}

/// What an optional location holds.
pub open spec fn location_text(location: Option<DwarfLocation>) -> Option<LocationText> {
    match location {
        Some(location) => Some(location@),
        None => None,
    }
}

impl View for DwarfLocation {
    type V = LocationText;

    open spec fn view(&self) -> LocationText {
        LocationText { file: text_of(self.file), line: self.line }
    }
}

impl View for DwarfFrame {
    type V = FrameText;

    open spec fn view(&self) -> FrameText {
        FrameText {
            function: match self.function {
                Some(name) => Some(text_of(name)),
                None => None,
            },
            location: location_text(self.location),
        }
    }
}

/// What a list of frames holds.
pub open spec fn frame_texts(frames: Seq<DwarfFrame>) -> Seq<FrameText> {
    frames.map_values(|frame: DwarfFrame| frame@)
}

/// Whether the debug info of an ELF file can be indexed.
pub uninterp spec fn dwarf_loads(elf: Seq<u8>) -> bool;

/// The functions at an address per the debug info of an ELF file, innermost
/// first, up to the first that can't be read; `None` if the lookup fails. Which of
/// two functions with the very same addresses is found is left to `addr2line`.
pub uninterp spec fn dwarf_frames(elf: Seq<u8>, addr: u64) -> Option<Seq<FrameText>>;

/// The place in the source code of an address per the debug info of an ELF file;
/// `None` if it isn't known, or if the lookup fails.
pub uninterp spec fn dwarf_location(elf: Seq<u8>, addr: u64) -> Option<LocationText>;

/// The readable form of a mangled name.
pub uninterp spec fn demangled(name: Seq<char>) -> Seq<char>;

/// The contents of a section that may be missing.
pub open spec fn section_bytes(section: Option<SectionContents>) -> Seq<u8> {
    match section {
        Some(SectionContents { data: Some(data), .. }) => data,
        _ => seq![],
    }
}

/// Returns the contents of a section of an ELF file, which are empty if it has no
/// such section.
pub fn section_data<'a>(elf: &'a [u8], name: &str) -> (data: &'a [u8])
    ensures
        data@ == section_bytes(object_section(elf@, name@)),
{
    match section_by_name(elf, name) {
        Some(Section { data: Some(data), .. }) => data,
        _ => vstd::slice::slice_subrange(elf, 0, 0),
    }
}

/// Checks whether the debug info of an ELF file can be indexed, with
/// `Dwarf::load` and `Context::from_dwarf`.
#[verifier::external_body]
pub(crate) fn loads(elf: &[u8]) -> (loads: bool)
    ensures
        loads == dwarf_loads(elf@),
{
    let read = |id: SectionId| -> Result<EndianSlice<LittleEndian>, Error> {
        Ok(EndianSlice::new(section_data(elf, id.name()), LittleEndian))
    };
    Dwarf::load(read).and_then(Context::from_dwarf).is_ok()
}

/// Finds the functions at an address, with `Context::find_frames`. The crate adds
/// one to the address, which must not overflow.
#[verifier::external_body]
pub(crate) fn find_frames(elf: &[u8], addr: u64) -> (frames: Option<Vec<DwarfFrame>>)
    requires
        addr < u64::MAX,
    ensures
        dwarf_frames(elf@, addr) == (match frames {
            Some(frames) => Some(frame_texts(frames@)),
            None => None,
        }),
{
    let read = |id: SectionId| -> Result<EndianSlice<LittleEndian>, Error> {
        Ok(EndianSlice::new(section_data(elf, id.name()), LittleEndian))
    };
    let context = Dwarf::load(read).and_then(Context::from_dwarf).ok()?;
    let mut iter = context.find_frames(addr).skip_all_loads().ok()?;
    let mut frames = Vec::new();
    while let Ok(Some(frame)) = iter.next() {
        let function = frame.function.map(|name| name.demangle().ok().map(String::from));
        let location = frame.location.map(
            |l| DwarfLocation { file: l.file.map(String::from), line: l.line },
        );
        frames.push(DwarfFrame { function, location });
    }
    Some(frames)
}

/// Finds the place in the source code of an address, with
/// `Context::find_location`. The crate adds one to the address, which must not
/// overflow.
#[verifier::external_body]
pub(crate) fn find_location(elf: &[u8], addr: u64) -> (location: Option<DwarfLocation>)
    requires
        addr < u64::MAX,
    ensures
        dwarf_location(elf@, addr) == location_text(location),
{
    let read = |id: SectionId| -> Result<EndianSlice<LittleEndian>, Error> {
        Ok(EndianSlice::new(section_data(elf, id.name()), LittleEndian))
    };
    let context = Dwarf::load(read).and_then(Context::from_dwarf).ok()?;
    let location = context.find_location(addr).ok()??;
    Some(DwarfLocation { file: location.file.map(String::from), line: location.line })
}

/// Demangles a name, with `addr2line::demangle_auto`.
#[verifier::external_body]
pub(crate) fn demangle(name: &str) -> (readable: String)
    ensures
        readable@ == demangled(name@),
{
    demangle_auto(name.into(), None).to_string()
}

} // verus!
