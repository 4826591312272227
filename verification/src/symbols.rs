//! Function names and source locations of addresses.
use crate::debug_info::{
    demangle, demangled, dwarf_frames, dwarf_loads, dwarf_location, find_frames, find_location,
    frame_texts, loads, location_text, text_of, DwarfFrame, DwarfLocation, FrameText, LocationText,
};
use crate::object_file::{
    header, object_header, object_segments, object_symbol_address, object_symbols, segments,
    symbol_address, symbols, Segment, Symbol, SymbolContents,
};
use vstd::prelude::*;

verus! {

/// A function found at some address, see [`Symbols::frames`].
#[derive(Debug, PartialEq, Eq)]
pub struct SymbolFrame {
    /// The demangled name of the function, if known.
    pub name: Option<String>,
    /// The file name and line number, if known.
    pub location: Option<(String, u32)>,
}

/// What a [`SymbolFrame`] holds.
#[verifier::ext_equal]
pub struct SymbolText {
    /// The demangled name of the function, if known.
    pub name: Option<Seq<char>>,
    /// The file name and line number, if known.
    pub location: Option<(Seq<char>, u32)>,
}

/// What an optional file name and line number hold.
pub open spec fn place_text(place: Option<(String, u32)>) -> Option<(Seq<char>, u32)> {
    match place {
        Some((file, line)) => Some((file@, line)),
        None => None,
    }
}

impl View for SymbolFrame {
    type V = SymbolText;

    open spec fn view(&self) -> SymbolText {
        SymbolText { name: text_of(self.name), location: place_text(self.location) }
    }
}

/// What a list of functions holds.
pub open spec fn symbol_texts(frames: Seq<SymbolFrame>) -> Seq<SymbolText> {
    frames.map_values(|frame: SymbolFrame| frame@)
}

/// Why no symbols can be read from a file.
#[derive(Clone, Copy, Debug, PartialEq, Eq)]
pub enum SymbolsError {
    /// The file isn't an object file.
    NotAnObject,
    /// The debug info of the file can't be indexed.
    BadDebugInfo,
}

/// Why a name can't be looked up: the debug info for the address is malformed.
#[derive(Clone, Copy, Debug, PartialEq, Eq)]
pub struct LookupError {
    /// The address.
    pub addr: u64,
}

/// Whether the address is part of a segment. Nothing is part of a segment that goes
/// beyond the last address.
pub open spec fn in_segment(segment: Segment, addr: u64) -> bool {
    &&& segment.address + segment.size <= u64::MAX
    &&& segment.address <= addr < segment.address + segment.size
}

/// Whether the address is part of one of the segments.
pub open spec fn in_segments(segments: Seq<Segment>, addr: u64) -> bool {
    exists|i: int| 0 <= i < segments.len() && in_segment(#[trigger] segments[i], addr)
}

/// Whether a symbol contains the address. A symbol without a size contains its own
/// address, and one that goes beyond the last address contains none.
pub open spec fn in_symbol(symbol: SymbolContents, addr: u64) -> bool {
    &&& symbol.address + symbol.size <= u64::MAX
    &&& symbol.address == addr || symbol.address <= addr < symbol.address + symbol.size
}

/// The first symbol that contains the address.
pub open spec fn symbol_at(symbols: Seq<SymbolContents>, addr: u64) -> Option<SymbolContents>
    decreases symbols.len(),
{
    if symbols.len() == 0 {
        None
    } else if in_symbol(symbols[0], addr) {
        Some(symbols[0])
    } else {
        symbol_at(symbols.drop_first(), addr)
    }
}

/// The name of a symbol, if it has one.
pub open spec fn symbol_name(symbol: Option<SymbolContents>) -> Option<Seq<char>> {
    match symbol {
        Some(SymbolContents { name: Some(name), .. }) if name.len() > 0 => Some(name),
        _ => None,
    }
}

/// The (demangled) name of the symbol containing the address in the symbol table.
pub open spec fn table_name(symbols: Seq<SymbolContents>, addr: u64) -> Option<Seq<char>> {
    match symbol_name(symbol_at(symbols, addr)) {
        Some(name) => Some(demangled(name)),
        None => None,
    }
}

/// The name of a function in the debug info, if it can be read.
pub open spec fn frame_name(frame: FrameText) -> Option<Seq<char>> {
    match frame.function {
        Some(Some(name)) => Some(name),
        _ => None,
    }
}

/// A place in the source code, if all of it is known.
pub open spec fn known_place(location: Option<LocationText>) -> Option<(Seq<char>, u32)> {
    match location {
        Some(LocationText { file: Some(file), line: Some(line) }) => Some((file, line)),
        _ => None,
    }
}

/// The name of the innermost function, or else that of the symbol table.
pub open spec fn name_of(frames: Seq<FrameText>, fallback: Option<Seq<char>>) -> Option<Seq<char>> {
    if frames.len() > 0 && frame_name(frames[0]) is Some {
        frame_name(frames[0])
    } else {
        fallback
    }
}

/// The functions of the debug info.
pub open spec fn debug_functions(frames: Seq<FrameText>) -> Seq<SymbolText> {
    frames.map_values(
        |frame: FrameText|
            SymbolText { name: frame_name(frame), location: known_place(frame.location) },
    )
}

/// The functions of the debug info, or else that of the symbol table.
pub open spec fn functions_of(
    frames: Option<Seq<FrameText>>,
    fallback: Option<Seq<char>>,
    location: Option<(Seq<char>, u32)>,
) -> Seq<SymbolText> {
    match (frames, fallback) {
        (Some(frames), _) if frames.len() > 0 => debug_functions(frames),
        (_, Some(name)) => seq![SymbolText { name: Some(name), location }],
        _ => seq![],
    }
}

/// Whether the address is part of an ELF file.
pub open spec fn elf_contains(elf: Seq<u8>, addr: u64) -> bool {
    in_segments(object_segments(elf), addr)
}

/// The name of the function at an address of an ELF file, if one can be found.
pub open spec fn elf_name(elf: Seq<u8>, addr: u64) -> Result<Option<Seq<char>>, LookupError> {
    if !elf_contains(elf, addr) {
        Ok(None)
    } else {
        match dwarf_frames(elf, addr) {
            Some(frames) => Ok(name_of(frames, table_name(object_symbols(elf), addr))),
            None => Err(LookupError { addr }),
        }
    }
}

/// The file name and line number of an address of an ELF file, if they are known.
pub open spec fn elf_location(elf: Seq<u8>, addr: u64) -> Option<(Seq<char>, u32)> {
    known_place(dwarf_location(elf, addr))
}

/// The functions at an address of an ELF file, innermost first.
pub open spec fn elf_functions(elf: Seq<u8>, addr: u64) -> Seq<SymbolText> {
    if elf_contains(elf, addr) {
        functions_of(
            dwarf_frames(elf, addr),
            table_name(object_symbols(elf), addr),
            elf_location(elf, addr),
        )
    } else {
        seq![]
    }
}

/// Function names and source locations of the addresses of an ELF file.
pub struct Symbols<'sym> {
    elf: &'sym [u8],
    segments: Vec<Segment>,
    symbols: Vec<Symbol<'sym>>,
}

impl<'sym> View for Symbols<'sym> {
    type V = Seq<u8>;

    closed spec fn view(&self) -> Seq<u8> {
        self.elf@
    }
}

/// The ELF files that symbols were read from.
pub open spec fn symbol_files(symbols: Seq<Symbols>) -> Seq<Seq<u8>> {
    symbols.map_values(|symbols: Symbols| symbols@)
}

/// The views of a list of symbols.
pub open spec fn symbol_views(symbols: Seq<Symbol>) -> Seq<SymbolContents> {
    symbols.map_values(|symbol: Symbol| symbol@)
}

/// Whether symbols can be read from a file.
pub open spec fn has_symbols(elf: Seq<u8>) -> bool {
    object_header(elf) is Some && dwarf_loads(elf)
}

/// Picks the file name and line number of a location, if both are known.
pub fn to_place(location: Option<DwarfLocation>) -> (place: Option<(String, u32)>)
    ensures
        place_text(place) == known_place(location_text(location)),
{
    match location {
        Some(DwarfLocation { file: Some(file), line: Some(line) }) => Some((file, line)),
        _ => None,
    }
}

/// Whether the address is part of one of the segments.
pub fn find_segment(segments: &Vec<Segment>, addr: u64) -> (found: bool)
    ensures
        found == in_segments(segments@, addr),
{
    let mut i: usize = 0;
    while i < segments.len()
        invariant
            0 <= i <= segments@.len(),
            forall|j: int| 0 <= j < i ==> !in_segment(#[trigger] segments@[j], addr),
        decreases segments@.len() - i,
    {
        if let Some(end) = segments[i].address.checked_add(segments[i].size) {
            if segments[i].address <= addr && addr < end {
                return true;
            }
        }
        i += 1;
    }
    false
}

/// Finds the first symbol that contains the address, and returns its name if it
/// has one.
pub fn find_symbol<'a>(symbols: &Vec<Symbol<'a>>, addr: u64) -> (name: Option<&'a str>)
    ensures
        symbol_name(symbol_at(symbol_views(symbols@), addr)) == (match name {
            Some(name) => Some(name@),
            None => None,
        }),
{
    let ghost views = symbol_views(symbols@);
    let mut i: usize = 0;
    assert(views.skip(0) =~= views);
    while i < symbols.len()
        invariant
            0 <= i <= symbols@.len(),
            views == symbol_views(symbols@),
            symbol_at(views, addr) == symbol_at(views.skip(i as int), addr),
        decreases symbols@.len() - i,
    {
        let symbol = symbols[i];
        assert(views.skip(i as int).drop_first() =~= views.skip(i + 1));
        assert(views.skip(i as int)[0] == symbol@);
        if let Some(end) = symbol.address.checked_add(symbol.size) {
            if symbol.address == addr || (symbol.address <= addr && addr < end) {
                return match symbol.name {
                    Some(name) if !name.is_empty() => Some(name),
                    _ => None,
                };
            }
        }
        i += 1;
    }
    None
}

/// Picks the name of the innermost function, or else the other one.
pub fn first_name(mut frames: Vec<DwarfFrame>, fallback: Option<String>) -> (name: Option<String>)
    ensures
        text_of(name) == name_of(frame_texts(frames@), text_of(fallback)),
{
    if frames.len() > 0 {
        let DwarfFrame { function, .. } = frames.remove(0);
        if let Some(Some(name)) = function {
            return Some(name);
        }
    }
    fallback
}

/// Makes functions of those of the debug info.
pub fn to_functions(mut frames: Vec<DwarfFrame>) -> (functions: Vec<SymbolFrame>)
    ensures
        symbol_texts(functions@) == debug_functions(frame_texts(frames@)),
{
    let ghost all = frames@;
    let ghost expected = debug_functions(frame_texts(all));
    let mut functions: Vec<SymbolFrame> = Vec::new();
    while frames.len() > 0
        invariant
            frames@.len() <= all.len(),
            frames@ == all.skip(all.len() - frames@.len()),
            expected == debug_functions(frame_texts(all)),
            symbol_texts(functions@) == expected.take(all.len() - frames@.len()),
        decreases frames@.len(),
    {
        let ghost done = all.len() - frames@.len();
        let DwarfFrame { function, location } = frames.remove(0);
        let name = match function {
            Some(name) => name,
            None => None,
        };
        let function = SymbolFrame { name, location: to_place(location) };
        proof {
            assert(frames@ =~= all.skip(done + 1));
            assert(frame_texts(all)[done] == all[done]@);
            assert(function@ == expected[done]);
            assert(symbol_texts(functions@.push(function)) =~= symbol_texts(functions@).push(
                function@,
            ));
            assert(expected.take(done + 1) =~= expected.take(done).push(expected[done]));
        }
        functions.push(function);
    }
    assert(expected.take(all.len() as int) =~= expected);
    functions
}

/// Lists the functions of the debug info, or else that of the symbol table.
pub fn list_functions(
    frames: Option<Vec<DwarfFrame>>,
    fallback: Option<String>,
    location: Option<(String, u32)>,
) -> (functions: Vec<SymbolFrame>)
    ensures
        symbol_texts(functions@) == functions_of(
            match frames {
                Some(frames) => Some(frame_texts(frames@)),
                None => None,
            },
            text_of(fallback),
            place_text(location),
        ),
{
    if let Some(frames) = frames {
        if frames.len() > 0 {
            return to_functions(frames);
        }
    }
    let mut functions: Vec<SymbolFrame> = Vec::new();
    if let Some(name) = fallback {
        functions.push(SymbolFrame { name: Some(name), location });
    }
    assert(symbol_texts(functions@) =~= functions_of(
        None,
        text_of(fallback),
        place_text(location),
    ));
    functions
}

impl<'sym> Symbols<'sym> {
    #[verifier::type_invariant]
    spec fn read_from_elf(self) -> bool {
        &&& has_symbols(self.elf@)
        &&& self.segments@ == object_segments(self.elf@)
        &&& symbol_views(self.symbols@) == object_symbols(self.elf@)
    }

    /// Tries to create a new `Symbols` instance from the given ELF file bytes.
    pub fn try_from(bytes: &'sym [u8]) -> (symbols: Result<Self, SymbolsError>)
        ensures
            match symbols {
                Ok(symbols) => symbols@ == bytes@ && has_symbols(bytes@),
                Err(SymbolsError::NotAnObject) => object_header(bytes@) is None,
                Err(SymbolsError::BadDebugInfo) => object_header(bytes@) is Some && !dwarf_loads(
                    bytes@,
                ),
            },
    {
        if header(bytes).is_none() {
            return Err(SymbolsError::NotAnObject);
        }
        if !loads(bytes) {
            return Err(SymbolsError::BadDebugInfo);
        }
        Ok(Symbols { elf: bytes, segments: segments(bytes), symbols: symbols(bytes) })
    }

    /// Returns the name of the function at the given address, if one can be
    /// found.
    ///
    /// It is looked up in the debug info first, and then in the symbol table.
    pub fn name(&self, addr: u64) -> (name: Result<Option<String>, LookupError>)
        ensures
            elf_name(self@, addr) == (match name {
                Ok(name) => Ok(text_of(name)),
                Err(error) => Err(error),
            }),
    {
        // No need to try an address not contained in any segment:
        if !self.contains(addr) {
            return Ok(None);
        }
        match find_frames(self.elf, addr) {
            Some(frames) => Ok(first_name(frames, self.symbol_table_name(addr))),
            None => Err(LookupError { addr }),
        }
    }

    /// Returns the chain of functions at the given address, innermost first:
    /// the function containing the address, followed by the functions it was
    /// inlined into. Each entry comes with the location of the address in the
    /// innermost function, resp. of the inlined call in the outer ones.
    ///
    /// Empty if nothing is known about the address.
    pub fn frames(&self, addr: u64) -> (frames: Vec<SymbolFrame>)
        ensures
            symbol_texts(frames@) == elf_functions(self@, addr),
    {
        if !self.contains(addr) {
            let frames: Vec<SymbolFrame> = Vec::new();
            assert(symbol_texts(frames@) =~= seq![]);
            return frames;
        }
        let frames = find_frames(self.elf, addr);
        let found = match &frames {
            Some(frames) => frames.len() > 0,
            None => false,
        };
        let (name, location) = if found {
            (None, None)
        } else {
            match self.symbol_table_name(addr) {
                Some(name) => (Some(name), self.location(addr)),
                None => (None, None),
            }
        };
        list_functions(frames, name, location)
    }

    /// Returns the address of the symbol with the given name, if any.
    pub fn symbol_address(&self, name: &str) -> (address: Option<u64>)
        ensures
            address == object_symbol_address(self@, name@),
    {
        symbol_address(self.elf, name)
    }

    /// Whether the address is part of one of the object's segments.
    fn contains(&self, addr: u64) -> (contained: bool)
        ensures
            contained == elf_contains(self@, addr),
    {
        proof {
            use_type_invariant(&*self);
        }
        find_segment(&self.segments, addr)
    }

    /// Looks up the (demangled) name of the symbol containing the address in
    /// the symbol table.
    fn symbol_table_name(&self, addr: u64) -> (name: Option<String>)
        ensures
            text_of(name) == table_name(object_symbols(self@), addr),
    {
        proof {
            use_type_invariant(&*self);
        }
        match find_symbol(&self.symbols, addr) {
            Some(name) => Some(demangle(name)),
            None => None,
        }
    }

    /// Returns the file name and line number of the function at the given
    /// address, if one can be.
    pub fn location(&self, addr: u64) -> (location: Option<(String, u32)>)
        requires
            addr < u64::MAX,
        ensures
            place_text(location) == elf_location(self@, addr),
    {
        to_place(find_location(self.elf, addr))
    }
}

/// No functions are found at an address exactly if nothing is known about it: it
/// isn't part of the ELF file, or neither the debug info nor the symbol table has
/// any for it.
pub proof fn law_no_functions_if_nothing_is_known(elf: Seq<u8>, addr: u64)
    ensures
        elf_functions(elf, addr).len() == 0 <==> {
            ||| !elf_contains(elf, addr)
            ||| {
                &&& dwarf_frames(elf, addr) matches Some(frames) ==> frames.len() == 0
                &&& table_name(object_symbols(elf), addr) is None
            }
        },
        !elf_contains(elf, addr) ==> elf_name(elf, addr) == Ok::<
            Option<Seq<char>>,
            LookupError,
        >(None),
{
}

/// A name that is found for an address is that of its innermost function, as far
/// as that has one.
pub proof fn law_name_is_that_of_innermost_function(elf: Seq<u8>, addr: u64)
    requires
        elf_functions(elf, addr).len() > 0,
        elf_functions(elf, addr)[0].name is Some,
        elf_name(elf, addr) is Ok,
    ensures
        elf_name(elf, addr) == Ok::<Option<Seq<char>>, LookupError>(
            elf_functions(elf, addr)[0].name,
        ),
{
}

} // verus!
