//! What holds of the names and places that are found for an address.
use crate::debug_info::{demangled, dwarf_frames, dwarf_loads, dwarf_location, section_bytes};
use crate::object_file::{
    object_header, object_segments, object_symbols, SectionContents, SymbolContents,
};
use crate::symbols::{
    elf_contains, elf_functions, elf_location, elf_name, has_symbols, in_segment, symbol_at,
    table_name, LookupError,
};
use vstd::prelude::*;

verus! {

/// An address is part of an ELF file exactly if one of its segments contains it.
pub proof fn law_segments_contain_their_addresses(elf: Seq<u8>, addr: u64)
    ensures
        elf_contains(elf, addr) <==> exists|i: int|
            {
                &&& 0 <= i < object_segments(elf).len()
                &&& (#[trigger] object_segments(elf)[i]).address <= addr
                &&& addr < object_segments(elf)[i].address + object_segments(elf)[i].size
                &&& object_segments(elf)[i].address + object_segments(elf)[i].size
                    < 0x1_0000_0000_0000_0000
            },
{
    let segments = object_segments(elf);
    if elf_contains(elf, addr) {
        let i = choose|i: int|
            0 <= i < segments.len() && in_segment(#[trigger] segments[i], addr);
        assert(segments[i].address <= addr);
    }
}

/// Whether a symbol is at an address: its own one, or one of the `size` ones from there on.
pub open spec fn is_at(symbol: SymbolContents, addr: u64) -> bool {
    &&& symbol.address <= addr
    &&& addr < symbol.address + symbol.size || addr == symbol.address
    &&& symbol.address + symbol.size < 0x1_0000_0000_0000_0000
}

/// The name that the symbol table has for an address is the readable form of that of the
/// first symbol that is there, if that has a name which isn't empty.
pub proof fn law_first_symbol_at_address_counts(
    symbols: Seq<SymbolContents>,
    addr: u64,
    k: int,
)
    requires
        0 <= k <= symbols.len(),
        forall|i: int| 0 <= i < k ==> !is_at(#[trigger] symbols[i], addr),
        k < symbols.len() ==> is_at(symbols[k], addr),
    ensures
        table_name(symbols, addr) == if k == symbols.len() {
            None
        } else {
            match symbols[k].name {
                Some(name) => if name.len() == 0 {
                    None
                } else {
                    Some(demangled(name))
                },
                None => None,
            }
        },
    decreases k,
{
    if k > 0 {
        let rest = symbols.drop_first();
        assert(!is_at(symbols[0], addr));
        assert(symbol_at(symbols, addr) == symbol_at(rest, addr));
        assert forall|i: int| 0 <= i < k - 1 implies !is_at(#[trigger] rest[i], addr) by {
            assert(rest[i] == symbols[i + 1]);
        }
        law_first_symbol_at_address_counts(rest, addr, k - 1);
    }
}

/// The name of the function at an address is that of the innermost one in the debug info, or
/// else that of the symbol table. A lookup only fails for an address that is part of the ELF
/// file, if the debug info is malformed.
pub proof fn law_name_comes_from_debug_info_first(elf: Seq<u8>, addr: u64)
    ensures
        ({
            let name = elf_name(elf, addr);
            let table = table_name(object_symbols(elf), addr);
            if !elf_contains(elf, addr) {
                name == Ok::<Option<Seq<char>>, LookupError>(None)
            } else {
                match dwarf_frames(elf, addr) {
                    None => name matches Err(error) && error.addr == addr,
                    Some(frames) => name matches Ok(found) && {
                        if frames.len() > 0 && (frames[0].function matches Some(Some(_))) {
                            frames[0].function == Some(found)
                        } else {
                            found == table
                        }
                    },
                }
            }
        }),
{
}

/// The functions at an address are those of the debug info, innermost first, each with its
/// name and its place as far as they are known; a place is only known with both its file and
/// its line. Without any, there is that of the symbol table, with the place of the address.
pub proof fn law_functions_come_from_debug_info_first(elf: Seq<u8>, addr: u64)
    requires
        elf_contains(elf, addr),
    ensures
        ({
            let functions = elf_functions(elf, addr);
            let table = table_name(object_symbols(elf), addr);
            if dwarf_frames(elf, addr) matches Some(frames) && frames.len() > 0 {
                let frames = dwarf_frames(elf, addr)->0;
                &&& functions.len() == frames.len()
                &&& forall|i: int|
                    0 <= i < frames.len() ==> {
                        let function = #[trigger] functions[i];
                        &&& function.name == (match frames[i].function {
                            Some(name) => name,
                            None => None,
                        })
                        &&& function.location == (match frames[i].location {
                            Some(place) => match (place.file, place.line) {
                                (Some(file), Some(line)) => Some((file, line)),
                                _ => None,
                            },
                            None => None,
                        })
                    }
            } else if table is Some {
                &&& functions.len() == 1
                &&& functions[0].name == table
                &&& functions[0].location == elf_location(elf, addr)
            } else {
                functions.len() == 0
            }
        }),
{
}

/// The debug info is read from the sections as they are; one that is missing or can't be read
/// is taken for an empty one.
pub proof fn law_missing_sections_are_empty(section: Option<SectionContents>)
    ensures
        section is None ==> section_bytes(section).len() == 0,
        section matches Some(section) ==> section.data is None ==> section_bytes(
            Some(section),
        ).len() == 0,
        section matches Some(found) ==> (found.data matches Some(data) ==> section_bytes(section)
            == data),
{
}

/// The place of an address is that of the debug info, if both its file and its line are known.
pub proof fn law_place_is_complete(elf: Seq<u8>, addr: u64)
    ensures
        elf_location(elf, addr) == (match dwarf_location(elf, addr) {
            Some(place) => match (place.file, place.line) {
                (Some(file), Some(line)) => Some((file, line)),
                _ => None,
            },
            None => None,
        }),
        has_symbols(elf) <==> object_header(elf) is Some && dwarf_loads(elf),
{
}

} // verus!
