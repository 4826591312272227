//! What the monitor reads from an object file (an ELF file of the firmware).
//!
//! Everything here is a plain value, copied out of the file by the `object`
//! crate, so that the rest of the library can reason about it.
use object::{Object, ObjectSection, ObjectSegment, ObjectSymbol};
use vstd::prelude::*;

verus! {

/// How the numbers in an object file are encoded.
#[derive(Clone, Copy, Debug, PartialEq, Eq)]
pub struct Header {
    /// Whether multi-byte values are stored least significant byte first.
    pub little_endian: bool,
    /// The size of an address in bytes, if the architecture is known.
    pub address_size: Option<u8>,
}

/// What a section is for.
#[derive(Clone, Copy, Debug, PartialEq, Eq, Structural)]
pub enum SectionKind {
    /// It holds executable code.
    Text,
    /// Anything else.
    Other,
}

/// A section of an object file.
#[derive(Clone, Copy, Debug, PartialEq, Eq)]
pub struct Section<'a> {
    /// The address of the section in memory.
    pub address: u64,
    /// What the section is for.
    pub kind: SectionKind,
    /// The contents of the section, if they can be read.
    pub data: Option<&'a [u8]>,
}

/// What a [`Section`] holds.
#[verifier::ext_equal]
pub struct SectionContents {
    /// The address of the section in memory.
    pub address: u64,
    /// What the section is for.
    pub kind: SectionKind,
    /// The contents of the section, if they can be read.
    pub data: Option<Seq<u8>>,
}

impl<'a> View for Section<'a> {
    type V = SectionContents;

    open spec fn view(&self) -> SectionContents {
        SectionContents {
            address: self.address,
            kind: self.kind,
            data: match self.data {
                Some(data) => Some(data@),
                None => None,
            },
        }
    }
}

/// A loadable segment of an object file.
#[derive(Clone, Copy, Debug, PartialEq, Eq)]
pub struct Segment {
    /// The address of the segment in memory.
    pub address: u64,
    /// The size of the segment in memory.
    pub size: u64,
}

/// A symbol of an object file.
#[derive(Clone, Copy, Debug, PartialEq, Eq)]
pub struct Symbol<'a> {
    /// The address of the symbol.
    pub address: u64,
    /// The size of the symbol.
    pub size: u64,
    /// The name of the symbol, if it is valid UTF-8.
    pub name: Option<&'a str>,
}

/// What a [`Symbol`] holds.
#[verifier::ext_equal]
pub struct SymbolContents {
    /// The address of the symbol.
    pub address: u64,
    /// The size of the symbol.
    pub size: u64,
    /// The name of the symbol, if it is valid UTF-8.
    pub name: Option<Seq<char>>,
}

impl<'a> View for Symbol<'a> {
    type V = SymbolContents;

    open spec fn view(&self) -> SymbolContents {
        SymbolContents {
            address: self.address,
            size: self.size,
            name: match self.name {
                Some(name) => Some(name@),
                None => None,
            },
        }
    }
}

/// The header of an object file, or `None` for a file that isn't one.
pub uninterp spec fn object_header(elf: Seq<u8>) -> Option<Header>;

/// The sections of an object file, in the order of the file; none for a file
/// that isn't one.
pub uninterp spec fn object_sections(elf: Seq<u8>) -> Seq<SectionContents>;

/// The section of an object file with the given name.
pub uninterp spec fn object_section(elf: Seq<u8>, name: Seq<char>) -> Option<SectionContents>;

/// The loadable segments of an object file; none for a file that isn't one.
pub uninterp spec fn object_segments(elf: Seq<u8>) -> Seq<Segment>;

/// The symbols of an object file, in the order of its symbol table; none for a
/// file that isn't one.
pub uninterp spec fn object_symbols(elf: Seq<u8>) -> Seq<SymbolContents>;

/// The address of the symbol of an object file with the given name.
pub uninterp spec fn object_symbol_address(elf: Seq<u8>, name: Seq<char>) -> Option<u64>;

/// Parses the header of an object file, with `object::File::parse`.
///
/// What makes a file an object file, its byte order and its architecture are
/// left to the `object` crate, and only named here. An address takes one, two,
/// four or eight bytes on every architecture that crate knows.
#[verifier::external_body]
pub(crate) fn header(elf: &[u8]) -> (header: Option<Header>)
    ensures
        header == object_header(elf@),
        header matches Some(h) ==> (h.address_size matches Some(size) ==> size == 1 || size == 2
            || size == 4 || size == 8),
{
    let file = object::File::parse(elf).ok()?;
    Some(
        Header {
            little_endian: file.is_little_endian(),
            address_size: file.architecture().address_size().map(|size| size.bytes()),
        },
    )
}

/// Lists the sections of an object file, with `Object::sections`.
#[verifier::external_body]
pub(crate) fn sections<'a>(elf: &'a [u8]) -> (sections: Vec<Section<'a>>)
    ensures
        sections@.map_values(|s: Section| s@) == object_sections(elf@),
{
    let Ok(file) = object::File::parse(elf) else {
        return Vec::new();
    };
    file.sections().map(
        |section|
            Section {
                address: section.address(),
                kind: match section.kind() {
                    object::SectionKind::Text => SectionKind::Text,
                    _ => SectionKind::Other,
                },
                data: section.data().ok(),
            },
    ).collect()
}

/// Finds a section of an object file, with `Object::section_by_name`.
///
/// Which section goes by a name (such as a compressed variant of a debug
/// section) is left to the `object` crate, and only named here.
#[verifier::external_body]
pub(crate) fn section_by_name<'a>(elf: &'a [u8], name: &str) -> (section: Option<Section<'a>>)
    ensures
        section matches Some(s) ==> object_section(elf@, name@) == Some(s@),
        section is None ==> object_section(elf@, name@) is None,
{
    let file = object::File::parse(elf).ok()?;
    let section = file.section_by_name(name)?;
    Some(
        Section {
            address: section.address(),
            kind: match section.kind() {
                object::SectionKind::Text => SectionKind::Text,
                _ => SectionKind::Other,
            },
            data: section.data().ok(),
        },
    )
}

/// Lists the loadable segments of an object file, with `Object::segments`.
#[verifier::external_body]
pub(crate) fn segments(elf: &[u8]) -> (segments: Vec<Segment>)
    ensures
        segments@ == object_segments(elf@),
{
    let Ok(file) = object::File::parse(elf) else {
        return Vec::new();
    };
    file.segments().map(
        |segment| Segment { address: segment.address(), size: segment.size() },
    ).collect()
}

/// Lists the symbols of an object file, with `Object::symbols`.
#[verifier::external_body]
pub(crate) fn symbols<'a>(elf: &'a [u8]) -> (symbols: Vec<Symbol<'a>>)
    ensures
        symbols@.map_values(|s: Symbol| s@) == object_symbols(elf@),
{
    let Ok(file) = object::File::parse(elf) else {
        return Vec::new();
    };
    file.symbols().map(
        |symbol|
            Symbol {
                address: symbol.address(),
                size: symbol.size(),
                name: symbol.name().ok(),
            },
    ).collect()
}

/// Finds the address of a symbol of an object file, with
/// `Object::symbol_by_name`.
#[verifier::external_body]
pub(crate) fn symbol_address(elf: &[u8], name: &str) -> (address: Option<u64>)
    ensures
        address == object_symbol_address(elf@, name@),
{
    let file = object::File::parse(elf).ok()?;
    let symbol = file.symbol_by_name(name)?;
    Some(symbol.address())
}

} // verus!
