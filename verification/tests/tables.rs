use espmonitor::cfi_section::{Cfa, EhBases, Entry, Fde, RowHead, Rule};
use espmonitor::cfi_table::{find_fde, index_fdes, CfiSection, Row, UnwindRow};
use espmonitor::debug_info::{DwarfFrame, DwarfLocation};
use espmonitor::object_file::{Header, Section, SectionKind, Segment, Symbol};
use espmonitor::registers::{REG_RA, REG_SP};
use espmonitor::stack_dump::esp_idf::EspIdf;
use espmonitor::symbols::{
    find_segment, find_symbol, first_name, list_functions, to_place, SymbolFrame,
};
use espmonitor::unwind_data::{
    debug_frame_section, eh_frame_section, list_text_sections, CodeBlock, UnwindTables,
};

fn fde(offset: usize, start: u64, end: u64) -> Fde {
    Fde {
        offset,
        start,
        end,
        len: end - start,
    }
}

#[test]
fn entries_are_indexed_up_to_the_first_malformed_one() {
    let entries = vec![
        Entry::Cie,
        Entry::Fde(fde(1, 30, 40)),
        Entry::BadFde,
        Entry::Fde(fde(2, 10, 20)),
        Entry::Fde(fde(3, 15, 15)),
        Entry::Fde(fde(4, 10, 50)),
        Entry::Malformed,
        Entry::Fde(fde(5, 0, 5)),
    ];
    let fdes = index_fdes(&entries);
    // Sorted by start; equal ones keep their order, and the empty one is gone.
    assert_eq!(fdes, vec![fde(2, 10, 20), fde(4, 10, 50), fde(1, 30, 40)]);
    assert_eq!(index_fdes(&vec![]), vec![]);
}

#[test]
fn the_last_fde_that_covers_an_address_is_found() {
    let mut fdes = vec![fde(0, 0, 100)];
    for start in 1..=4u64 {
        fdes.push(fde(start as usize, 10 * start, 10 * start + 5));
    }
    assert_eq!(find_fde(&fdes, 12), Some(fdes[1]));
    // Nested in a larger one.
    assert_eq!(find_fde(&fdes, 5), Some(fdes[0]));
    assert_eq!(find_fde(&fdes, 36), Some(fdes[0]));
    assert_eq!(find_fde(&fdes, 46), Some(fdes[0]));
    assert_eq!(find_fde(&fdes, 50), Some(fdes[0]));
    assert_eq!(find_fde(&fdes, 100), None);
    assert_eq!(find_fde(&vec![], 0), None);
}

fn row(start: u64, end: u64, register: u16, offset: i64, rules: Vec<(u16, Rule)>) -> UnwindRow {
    UnwindRow {
        head: RowHead {
            start,
            end,
            cfa: Cfa::RegisterAndOffset { register, offset },
        },
        rules,
    }
}

#[test]
fn rows_apply_to_their_addresses() {
    let rows = vec![
        row(10, 12, REG_SP, 0, vec![]),
        row(12, 14, REG_SP, 16, vec![]),
        row(14, 18, 8, 4, vec![(8, Rule::Offset(-8))]),
        row(18, 20, REG_SP, 32, vec![(REG_RA, Rule::Offset(-4))]),
    ];
    let function = fde(0, 0x1_0000_000a, 0x1_0000_0014);
    let found = Row::at(&rows, function, 15).unwrap();
    assert_eq!((found.function_start, found.function_end), (10, 20));
    // Some row has a rule for `ra`, though not this one.
    assert!(found.function_saves_ra);
    assert_eq!(
        found.cfa,
        Cfa::RegisterAndOffset {
            register: 8,
            offset: 4,
        }
    );
    assert_eq!(found.registers, vec![(8, Rule::Offset(-8))]);
    assert_eq!(found.sp_cfa_offset, Some(16));
    assert_eq!(found.rule(8), Some(Rule::Offset(-8)));
    assert_eq!(found.rule(REG_RA), None);

    assert_eq!(Row::at(&rows, function, 10).unwrap().sp_cfa_offset, Some(0));
    assert!(Row::at(&rows, function, 20).is_none());
    assert!(Row::at(&rows, function, 9).is_none());
    let no_sp = vec![row(0, 4, 8, 0, vec![])];
    let found = Row::at(&no_sp, function, 1).unwrap();
    assert_eq!(found.sp_cfa_offset, None);
    assert!(!found.function_saves_ra);
}

fn section(address: u64, kind: SectionKind, data: Option<&[u8]>) -> Section<'_> {
    Section {
        address,
        kind,
        data,
    }
}

#[test]
fn unwind_sections() {
    let header = Header {
        little_endian: true,
        address_size: None,
    };
    let wide = Header {
        little_endian: false,
        address_size: Some(8),
    };
    let data = Some(section(0x100, SectionKind::Other, Some(&[1, 2])));
    let empty = Some(section(0x100, SectionKind::Other, Some(&[])));
    let unreadable = Some(section(0x100, SectionKind::Other, None));

    let debug = CfiSection {
        data: &[1, 2],
        little_endian: true,
        address_size: 4,
        eh_bases: None,
    };
    for tables in [UnwindTables::Auto, UnwindTables::DebugFrame] {
        assert_eq!(debug_frame_section(header, data, tables), Some(debug));
        assert_eq!(debug_frame_section(header, empty, tables), None);
        assert_eq!(debug_frame_section(header, unreadable, tables), None);
        assert_eq!(debug_frame_section(header, None, tables), None);
    }
    assert_eq!(debug_frame_section(header, data, UnwindTables::EhFrame), None);

    let eh = CfiSection {
        data: &[1, 2],
        little_endian: false,
        address_size: 8,
        eh_bases: Some(EhBases {
            eh_frame: 0x100,
            text: Some(7),
            got: None,
        }),
    };
    for tables in [UnwindTables::Auto, UnwindTables::EhFrame] {
        assert_eq!(eh_frame_section(wide, data, Some(7), None, tables), Some(eh));
        assert_eq!(eh_frame_section(wide, empty, Some(7), None, tables), None);
        assert_eq!(eh_frame_section(wide, unreadable, Some(7), None, tables), None);
        assert_eq!(eh_frame_section(wide, None, Some(7), None, tables), None);
    }
    assert_eq!(
        eh_frame_section(wide, data, Some(7), None, UnwindTables::DebugFrame),
        None
    );
    assert_eq!(UnwindTables::default(), UnwindTables::Auto);
}

#[test]
fn executable_sections() {
    let sections = vec![
        section(1, SectionKind::Text, Some(&[1])),
        section(2, SectionKind::Other, Some(&[2])),
        section(3, SectionKind::Text, Some(&[])),
        section(4, SectionKind::Text, None),
        section(5, SectionKind::Text, Some(&[5, 5])),
    ];
    assert_eq!(
        list_text_sections(&sections),
        vec![
            CodeBlock {
                start: 1,
                bytes: &[1],
            },
            CodeBlock {
                start: 5,
                bytes: &[5, 5],
            },
        ]
    );
}

#[test]
fn segments_contain_their_addresses() {
    let segments = vec![
        Segment {
            address: 0x100,
            size: 0x10,
        },
        Segment {
            address: u64::MAX - 1,
            size: 8,
        },
    ];
    assert!(find_segment(&segments, 0x100));
    assert!(find_segment(&segments, 0x10f));
    assert!(!find_segment(&segments, 0x110));
    assert!(!find_segment(&segments, 0xff));
    // A segment that goes beyond the last address has no addresses.
    assert!(!find_segment(&segments, u64::MAX));
    assert!(!find_segment(&segments, u64::MAX - 1));
    assert!(!find_segment(&vec![], 0));
}

#[test]
fn the_first_symbol_that_contains_an_address_counts() {
    let symbol = |address, size, name| Symbol {
        address,
        size,
        name,
    };
    let symbols = vec![
        symbol(0x10, 4, Some("a")),
        symbol(0x10, 8, Some("b")),
        symbol(0x20, 0, Some("")),
        symbol(0x20, 4, Some("c")),
        symbol(0x30, 0, None),
        symbol(0x40, u64::MAX, Some("d")),
        symbol(0x41, u64::MAX - 0x41, Some("e")),
    ];
    assert_eq!(find_symbol(&symbols, 0x10), Some("a"));
    assert_eq!(find_symbol(&symbols, 0x13), Some("a"));
    assert_eq!(find_symbol(&symbols, 0x14), Some("b"));
    assert_eq!(find_symbol(&symbols, 0x17), Some("b"));
    assert_eq!(find_symbol(&symbols, 0x18), None);
    assert_eq!(find_symbol(&symbols, 0x20), None);
    assert_eq!(find_symbol(&symbols, 0x21), Some("c"));
    assert_eq!(find_symbol(&symbols, 0x30), None);
    assert_eq!(find_symbol(&symbols, 0x31), None);
    assert_eq!(find_symbol(&symbols, 0x40), None);
    assert_eq!(find_symbol(&symbols, 0x41), Some("e"));
    assert_eq!(find_symbol(&symbols, u64::MAX - 1), Some("e"));
    assert_eq!(find_symbol(&symbols, u64::MAX), None);

    // One symbol ends where the next begins.
    let symbols = vec![
        symbol(0x42000100, 0x10, Some("A")),
        symbol(0x42000110, 0x10, Some("B")),
        symbol(0x42000130, 0, Some("label")),
    ];
    assert_eq!(find_symbol(&symbols, 0x4200010f), Some("A"));
    assert_eq!(find_symbol(&symbols, 0x42000110), Some("B"));
    assert_eq!(find_symbol(&symbols, 0x42000120), None);
    assert_eq!(find_symbol(&symbols, 0x42000130), Some("label"));
}

fn location(file: Option<&str>, line: Option<u32>) -> Option<DwarfLocation> {
    Some(DwarfLocation {
        file: file.map(String::from),
        line,
    })
}

fn dwarf(function: Option<Option<&str>>, location: Option<DwarfLocation>) -> DwarfFrame {
    DwarfFrame {
        function: function.map(|name| name.map(String::from)),
        location,
    }
}

#[test]
fn places_need_a_file_and_a_line() {
    assert_eq!(to_place(location(Some("a"), Some(1))), Some((String::from("a"), 1)));
    assert_eq!(to_place(location(Some("a"), None)), None);
    assert_eq!(to_place(location(None, Some(1))), None);
    assert_eq!(to_place(None), None);
}

#[test]
fn the_innermost_name_comes_first() {
    let fallback = || Some(String::from("symbol"));
    let inner = || dwarf(Some(Some("inner")), None);
    assert_eq!(
        first_name(vec![inner(), dwarf(Some(Some("outer")), None)], fallback()).as_deref(),
        Some("inner")
    );
    for frames in [vec![], vec![dwarf(None, None), inner()], vec![dwarf(Some(None), None)]] {
        assert_eq!(first_name(frames, fallback()), fallback());
    }
    assert_eq!(first_name(vec![], None), None);
}

#[test]
fn functions_of_the_debug_info_come_first() {
    let fallback = || Some(String::from("symbol"));
    let place = || Some((String::from("s.rs"), 9));
    let symbol = vec![SymbolFrame {
        name: fallback(),
        location: place(),
    }];
    assert_eq!(list_functions(None, fallback(), place()), symbol);
    assert_eq!(list_functions(Some(vec![]), fallback(), place()), symbol);
    assert_eq!(list_functions(None, None, place()), vec![]);
    let frames = vec![
        dwarf(Some(Some("inner")), location(Some("a.rs"), Some(1))),
        dwarf(Some(None), location(Some("b.rs"), None)),
    ];
    assert_eq!(
        list_functions(Some(frames), fallback(), place()),
        vec![
            SymbolFrame {
                name: Some(String::from("inner")),
                location: Some((String::from("a.rs"), 1)),
            },
            SymbolFrame {
                name: None,
                location: None,
            },
        ]
    );
}

#[test]
fn registers_are_taken_in_order() {
    let pair = |name: &str, digits: &str| (String::from(name), String::from(digits));
    let mut collector = EspIdf::default();
    let pairs = vec![
        pair("RA", "10"),
        pair("MEPC", "20"),
        pair("RA", "30"),
        pair("T6", "xyz"),
        pair("FOO", "40"),
    ];
    assert!(collector.take_registers(&pairs));
    let registers = collector.registers.unwrap();
    assert_eq!(registers.pc, 0x20);
    assert_eq!(registers.get(REG_RA), Some(0x30));
    assert_eq!(registers.get(31), None);
    assert!(!collector.take_registers(&vec![pair("RA", "")]));
}
