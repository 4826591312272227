//! A small made-up firmware, and what the monitor makes of its crashes.

use espmonitor::call_graph::Call;
use espmonitor::cfi_section::{Cfa, Rule};
use espmonitor::cfi_table::{CfiTable, Row, RowRules};
use espmonitor::cfi_unwind::{Failure, Frame, Stop};
use espmonitor::output::Output;
use espmonitor::parser::resolve_addresses;
use espmonitor::registers::{Memory, Registers, REG_RA, REG_SP};
use espmonitor::resolving_printer::ResolvingPrinter;
use espmonitor::stack_dump::{print_backtrace, Dump, StackMemory};
use espmonitor::symbols::{LookupError, SymbolFrame, Symbols, SymbolsError};
use espmonitor::unwind_data::{CodeBlock, UnwindTables, Unwinder};
use gimli::constants::{
    DW_AT_abstract_origin, DW_AT_call_file, DW_AT_call_line, DW_AT_comp_dir, DW_AT_high_pc,
    DW_AT_inline, DW_AT_language, DW_AT_linkage_name, DW_AT_low_pc, DW_AT_name, DW_AT_ranges,
    DW_EH_PE_pcrel, DW_EH_PE_sdata4, DW_INL_inlined, DW_LANG_Rust, DW_TAG_inlined_subroutine,
    DW_TAG_subprogram, DwEhPe,
};
use gimli::write::{
    Address, AttributeValue, CallFrameInstruction, CommonInformationEntry, DebugFrame, DwarfUnit,
    EhFrame, EndianVec, FrameDescriptionEntry, FrameTable, LineProgram, LineString, Range,
    RangeList, Sections,
};
use gimli::{Encoding, Format, LineEncoding, LittleEndian, Register};

const TEXT: u32 = 0x42000000;
const EH_FRAME: u32 = 0x3c000000;
const STACK: u32 = 0x40815e00;

/// `main` calls `outer`, which calls `lost`, which calls `handler`. `lost` never
/// returns and doesn't save its return address. `handler` has `helper` inlined.
/// There is no debug info for `plain`.
const MAIN: u32 = TEXT;
const OUTER: u32 = TEXT + 0x40;
const LOST: u32 = TEXT + 0x60;
const HANDLER: u32 = TEXT + 0x80;
const PLAIN: u32 = TEXT + 0xa0;
const END: u32 = TEXT + 0xb0;

const IN_MAIN: u32 = MAIN + 0x0c;
const IN_OUTER: u32 = OUTER + 0x0c;
const IN_LOST: u32 = LOST + 0x0c;
const IN_HANDLER: u32 = HANDLER + 0x10;

fn jal(from: u32, to: u32) -> u32 {
    let offset = to.wrapping_sub(from);
    ((offset >> 20) & 1) << 31
        | ((offset >> 1) & 0x3ff) << 21
        | ((offset >> 11) & 1) << 20
        | ((offset >> 12) & 0xff) << 12
        | 0xef
}

fn put(code: &mut [u8], at: u32, insn: u32) {
    let at = (at - TEXT) as usize;
    code[at..at + 4].copy_from_slice(&insn.to_le_bytes());
}

fn code() -> Vec<u8> {
    // All `c.nop`.
    let mut code = vec![1, 0].repeat((END - TEXT) as usize / 2);
    put(&mut code, IN_MAIN - 4, jal(IN_MAIN - 4, OUTER));
    put(&mut code, IN_OUTER - 4, jal(IN_OUTER - 4, LOST));
    put(&mut code, IN_LOST - 4, jal(IN_LOST - 4, HANDLER));
    code
}

fn encoding(version: u16) -> Encoding {
    Encoding {
        format: Format::Dwarf32,
        version,
        address_size: 4,
    }
}

/// A function of some firmware.
struct Function {
    name: &'static str,
    start: u32,
    size: u32,
    /// The size of its stack frame.
    frame: i32,
    /// Whether it saves `ra` at the top of its frame.
    saves_ra: bool,
    /// Whether it saves `s0` right below, and whether it then uses it as its frame
    /// pointer.
    saves_s0: bool,
    frame_pointer: bool,
    file: &'static str,
    line: u64,
}

fn function_of(name: &'static str, start: u32, size: u32, frame: i32, line: u64) -> Function {
    Function {
        name,
        start,
        size,
        frame,
        saves_ra: frame > 0,
        saves_s0: false,
        frame_pointer: false,
        file: "/src/main.rs",
        line,
    }
}

fn functions() -> Vec<Function> {
    vec![
        function_of("handler", HANDLER, 0x20, 16, 40),
        function_of("main", MAIN, 0x40, 32, 10),
        Function {
            saves_s0: true,
            ..function_of("outer", OUTER, 0x20, 16, 20)
        },
        Function {
            saves_ra: false,
            ..function_of("lost", LOST, 0x20, 16, 30)
        },
    ]
}

/// The unwind tables, for addresses that are `base` bytes too high.
fn frame_table(
    functions: &[Function],
    version: u16,
    pointers: Option<DwEhPe>,
    base: u32,
) -> FrameTable {
    let ra = Register(REG_RA);
    let s0 = Register(8);
    let mut cie = CommonInformationEntry::new(encoding(version), 1, -4, ra);
    if let Some(pointers) = pointers {
        cie.fde_address_encoding = pointers;
    }
    cie.add_instruction(CallFrameInstruction::Cfa(Register(REG_SP), 0));

    let mut table = FrameTable::default();
    let cie = table.add_cie(cie);
    for function in functions {
        let address = Address::Constant(u64::from(function.start.wrapping_sub(base)));
        let mut fde = FrameDescriptionEntry::new(address, function.size);
        fde.add_instruction(2, CallFrameInstruction::CfaOffset(function.frame));
        if function.saves_ra {
            fde.add_instruction(4, CallFrameInstruction::Offset(ra, -4));
        }
        if function.saves_s0 {
            fde.add_instruction(4, CallFrameInstruction::Offset(s0, -8));
        }
        if function.frame_pointer {
            fde.add_instruction(6, CallFrameInstruction::Cfa(s0, 0));
        }
        table.add_fde(cie, fde);
    }
    table
}

fn debug_frame(functions: &[Function]) -> Vec<u8> {
    let mut section = DebugFrame::from(EndianVec::new(LittleEndian));
    frame_table(functions, 4, None, 0)
        .write_debug_frame(&mut section)
        .unwrap();
    section.slice().to_vec()
}

/// Its pointers are relative to where they are.
fn eh_frame(functions: &[Function]) -> Vec<u8> {
    let mut section = EhFrame::from(EndianVec::new(LittleEndian));
    let pointers = DwEhPe(DW_EH_PE_pcrel.0 | DW_EH_PE_sdata4.0);
    frame_table(functions, 1, Some(pointers), EH_FRAME)
        .write_eh_frame(&mut section)
        .unwrap();
    section.slice().to_vec()
}

/// The debug info sections. `handler` has `helper` inlined.
fn dwarf(functions: &[Function]) -> Vec<(String, Vec<u8>)> {
    let line = |text: &str| LineString::String(text.as_bytes().to_vec());
    let program = LineProgram::new(
        encoding(4),
        LineEncoding::default(),
        line("/src"),
        None,
        line("main.rs"),
        None,
    );
    let mut unit = DwarfUnit::new(encoding(4));
    unit.unit.line_program = program;
    let directory = unit.unit.line_program.default_directory();

    let text = |text: &str| AttributeValue::String(text.as_bytes().to_vec());
    let constant = |address: u32| Address::Constant(u64::from(address));
    let root = unit.unit.root();
    let ranges = RangeList(
        functions
            .iter()
            .map(|function| Range::StartEnd {
                begin: constant(function.start),
                end: constant(function.start + function.size),
            })
            .collect(),
    );
    let ranges = unit.unit.ranges.add(ranges);
    let entry = unit.unit.get_mut(root);
    entry.set(DW_AT_name, text("main.rs"));
    entry.set(DW_AT_comp_dir, text("/src"));
    entry.set(DW_AT_language, AttributeValue::Language(DW_LANG_Rust));
    entry.set(DW_AT_ranges, AttributeValue::RangeListRef(ranges));

    let helper = unit.unit.add(root, DW_TAG_subprogram);
    unit.unit.get_mut(helper).set(DW_AT_name, text("helper"));
    unit.unit
        .get_mut(helper)
        .set(DW_AT_inline, AttributeValue::Inline(DW_INL_inlined));
    for function in functions {
        let lines = &mut unit.unit.line_program;
        let file = lines.add_file(line(function.file), directory, None);
        lines.begin_sequence(Some(constant(function.start)));
        let mut rows = vec![(0, function.line)];
        if function.name == "handler" {
            rows.push((0x0c, 50));
            rows.push((0x14, 41));
        }
        for (offset, number) in rows {
            lines.row().address_offset = offset;
            lines.row().file = file;
            lines.row().line = number;
            lines.generate_row();
        }
        lines.end_sequence(u64::from(function.size));

        let id = unit.unit.add(root, DW_TAG_subprogram);
        let entry = unit.unit.get_mut(id);
        entry.set(DW_AT_name, text(function.name));
        if function.name.starts_with("_ZN") {
            entry.set(DW_AT_linkage_name, text(function.name));
        }
        entry.set(DW_AT_low_pc, AttributeValue::Address(constant(function.start)));
        entry.set(DW_AT_high_pc, AttributeValue::Data4(function.size));
        if function.name == "handler" {
            let inlined = unit.unit.add(id, DW_TAG_inlined_subroutine);
            let entry = unit.unit.get_mut(inlined);
            entry.set(DW_AT_abstract_origin, AttributeValue::UnitRef(helper));
            entry.set(
                DW_AT_low_pc,
                AttributeValue::Address(constant(function.start + 0x0c)),
            );
            entry.set(DW_AT_high_pc, AttributeValue::Data4(8));
            entry.set(DW_AT_call_file, AttributeValue::FileIndex(Some(file)));
            entry.set(DW_AT_call_line, AttributeValue::Udata(42));
        }
    }

    let mut sections = Sections::new(EndianVec::new(LittleEndian));
    unit.write(&mut sections).unwrap();
    let mut written = Vec::new();
    sections
        .for_each(|id, data| -> Result<(), ()> {
            if !data.slice().is_empty() {
                written.push((id.name().to_string(), data.slice().to_vec()));
            }
            Ok(())
        })
        .unwrap();
    written
}

fn word(out: &mut Vec<u8>, value: u32) {
    out.extend_from_slice(&value.to_le_bytes());
}

/// A section: its name, type, flags, address and contents.
type Section = (String, u32, u32, u32, Vec<u8>);

const SYMBOLS: [(&str, u32, u32); 4] = [
    ("main", MAIN, 0x40),
    ("_ZN3dev5plain17h0123456789abcdefE", PLAIN, 8),
    ("", PLAIN + 0x0a, 2),
    ("_stack_start", 0x40816000, 0),
];

/// Makes an ELF file for the made-up firmware.
fn elf_file(sections: Vec<Section>) -> Vec<u8> {
    elf_file_with(sections, &[(TEXT, END - TEXT)], &SYMBOLS)
}

/// Makes an ELF file with the given sections, segments and symbols.
fn elf_file_with(
    mut sections: Vec<Section>,
    segments: &[(u32, u32)],
    symbol_list: &[(&str, u32, u32)],
) -> Vec<u8> {
    // The symbol table.
    let mut names = vec![0];
    let mut symbols = vec![0; 16];
    for (name, address, size) in symbol_list.iter().copied() {
        word(&mut symbols, names.len() as u32);
        word(&mut symbols, address);
        word(&mut symbols, size);
        symbols.extend_from_slice(&[0x12, 0, 1, 0]);
        names.extend_from_slice(name.as_bytes());
        names.push(0);
    }
    let symtab = sections.len() as u32 + 1;
    sections.push((String::from(".symtab"), 2, 0, 0, symbols));
    sections.push((String::from(".strtab"), 3, 0, 0, names));

    let mut section_names = vec![0];
    let mut headers = vec![0; 40];
    let mut data = Vec::new();
    let first = 52 + 32 * segments.len() as u32;
    sections.push((String::from(".shstrtab"), 3, 0, 0, Vec::new()));
    let count = sections.len() as u32;
    for (index, (name, kind, flags, address, contents)) in sections.into_iter().enumerate() {
        let name_at = section_names.len() as u32;
        section_names.extend_from_slice(name.as_bytes());
        section_names.push(0);
        let contents = if index as u32 + 1 == count {
            section_names.clone()
        } else {
            contents
        };
        word(&mut headers, name_at);
        word(&mut headers, kind);
        word(&mut headers, flags);
        word(&mut headers, address);
        word(&mut headers, first + data.len() as u32);
        word(&mut headers, contents.len() as u32);
        word(&mut headers, if kind == 2 { symtab + 1 } else { 0 });
        word(&mut headers, u32::from(kind == 2));
        word(&mut headers, 1);
        word(&mut headers, if kind == 2 { 16 } else { 0 });
        data.extend_from_slice(&contents);
    }

    let mut file = vec![0x7f, b'E', b'L', b'F', 1, 1, 1, 0, 0, 0, 0, 0, 0, 0, 0, 0];
    file.extend_from_slice(&[2, 0, 243, 0]);
    for value in [1, TEXT, 52, first + data.len() as u32, 0] {
        word(&mut file, value);
    }
    for value in [52, 32, segments.len() as u32, 40, count + 1, count] {
        file.extend_from_slice(&(value as u16).to_le_bytes());
    }
    for (address, size) in segments.iter().copied() {
        for value in [1, first, address, address, 0, size, 5, 4] {
            word(&mut file, value);
        }
    }
    file.extend_from_slice(&data);
    file.extend_from_slice(&headers);
    file
}

fn text_section() -> Section {
    (String::from(".text"), 1, 6, TEXT, code())
}

/// The debug info and the unwind section of some functions.
fn debug_sections(functions: &[Function], eh: bool) -> Vec<Section> {
    let mut sections = Vec::new();
    for (name, contents) in dwarf(functions) {
        sections.push((name, 1, 0, 0, contents));
    }
    sections.push(if eh {
        (String::from(".eh_frame"), 1, 2, EH_FRAME, eh_frame(functions))
    } else {
        (String::from(".debug_frame"), 1, 0, 0, debug_frame(functions))
    });
    sections
}

/// The firmware with the given unwind section.
fn firmware(eh: bool) -> Vec<u8> {
    let mut sections = vec![text_section()];
    sections.extend(debug_sections(&functions(), eh));
    elf_file(sections)
}

/// The firmware with debug info that can't be read.
fn broken_firmware() -> Vec<u8> {
    // A compilation unit for the code, whose children have no abbreviation.
    let abbreviations = vec![1, 0x11, 1, 0x11, 1, 0x12, 6, 0, 0, 0];
    let mut info = Vec::new();
    word(&mut info, 17);
    info.extend_from_slice(&[4, 0, 0, 0, 0, 0, 4, 1]);
    word(&mut info, TEXT);
    word(&mut info, PLAIN - TEXT);
    info.push(0x7f);
    elf_file(vec![
        text_section(),
        (String::from(".debug_abbrev"), 1, 0, 0, abbreviations),
        (String::from(".debug_info"), 1, 0, 0, info),
    ])
}

/// The stack while `handler` is executing.
fn stack() -> StackMemory {
    let mut words = vec![0; 20];
    words[3] = IN_LOST;
    words[10] = 0x1234;
    words[11] = IN_MAIN;
    let mut memory = StackMemory::default();
    memory.push(STACK, &words);
    memory
}

fn crash() -> Registers {
    let mut registers = Registers::new(IN_HANDLER);
    registers.set(REG_SP, STACK);
    registers.set(9, 0x99);
    registers
}

fn frame(pc: u32, sp: u32, recovered: bool) -> Frame {
    Frame {
        pc,
        sp,
        is_return_address: pc != IN_HANDLER,
        recovered,
    }
}

#[test]
fn unwinds_through_a_function_that_lost_its_return_address() {
    for (elf, tables) in [
        (firmware(false), UnwindTables::DebugFrame),
        (firmware(false), UnwindTables::Auto),
        (firmware(true), UnwindTables::EhFrame),
        (firmware(true), UnwindTables::Auto),
    ] {
        let unwinder = Unwinder::new(&[&elf], tables);
        let (frames, stop) = unwinder.unwind(crash(), &stack(), 100);
        assert_eq!(
            frames,
            vec![
                frame(IN_HANDLER, STACK, false),
                frame(IN_LOST, STACK + 16, false),
                frame(IN_OUTER, STACK + 32, true),
                frame(IN_MAIN, STACK + 48, false),
            ]
        );
        assert_eq!(stop, Stop::EndOfStack);
    }
}

#[test]
fn a_limit_cuts_the_walk() {
    let elf = firmware(false);
    let unwinder = Unwinder::new(&[&elf], UnwindTables::Auto);
    let (all, _) = unwinder.unwind(crash(), &stack(), 100);
    for limit in 0..4 {
        let (frames, stop) = unwinder.unwind(crash(), &stack(), limit);
        // The starting frame is there in any case.
        assert_eq!(frames, all[..limit.max(1)]);
        assert_eq!(stop, Stop::TooManyFrames);
    }
}

#[test]
fn sections_that_are_not_selected_are_not_used() {
    let debug = firmware(false);
    let eh = firmware(true);
    for (elf, tables) in [(&debug, UnwindTables::EhFrame), (&eh, UnwindTables::DebugFrame)] {
        let unwinder = Unwinder::new(&[elf], tables);
        assert!(unwinder.row(u64::from(MAIN)).is_none());
        let (frames, stop) = unwinder.unwind(crash(), &stack(), 100);
        assert_eq!(frames.len(), 1);
        assert_eq!(stop, Stop::NoUnwindInfo(IN_HANDLER));
    }
}

#[test]
fn files_that_are_no_elf_files_are_skipped() {
    let elf = firmware(false);
    let unwinder = Unwinder::new(&[b"not an ELF file", &elf], UnwindTables::Auto);
    assert_eq!(unwinder.tables.len(), 1);
    assert_eq!(
        unwinder.code,
        vec![CodeBlock {
            start: u64::from(TEXT),
            bytes: &code(),
        }]
    );
    assert_eq!(unwinder.unwind(crash(), &stack(), 100).0.len(), 4);
}

#[test]
fn rows_hold_the_rules_at_an_address() {
    let elf = firmware(false);
    let unwinder = Unwinder::new(&[&elf], UnwindTables::Auto);
    let row = unwinder.row(u64::from(OUTER + 1)).unwrap();
    assert_eq!((row.function_start, row.function_end), (OUTER, LOST));
    assert!(row.function_saves_ra);
    assert_eq!(
        row.cfa,
        Cfa::RegisterAndOffset {
            register: REG_SP,
            offset: 0,
        }
    );
    assert_eq!(row.sp_cfa_offset, Some(0));
    assert_eq!(row.rule(REG_RA), None);

    let row = unwinder.row(u64::from(OUTER + 4)).unwrap();
    assert_eq!(row.rule(REG_RA), Some(Rule::Offset(-4)));
    assert_eq!(row.rule(8), Some(Rule::Offset(-8)));
    assert_eq!(row.rule(9), None);
    assert_eq!(row.sp_cfa_offset, Some(16));

    let row = unwinder.row(u64::from(LOST)).unwrap();
    assert!(!row.function_saves_ra);
    assert!(unwinder.row(u64::from(PLAIN)).is_none());
    assert!(unwinder.row(u64::from(MAIN) - 1).is_none());
}

#[test]
fn steps_restore_registers() {
    let elf = firmware(false);
    let unwinder = Unwinder::new(&[&elf], UnwindTables::Auto);
    let caller = unwinder.step(&crash(), IN_HANDLER, &stack(), true).unwrap();
    assert_eq!(caller.pc, IN_LOST);
    assert_eq!(caller.get(REG_SP), Some(STACK + 16));
    assert_eq!(caller.get(9), Some(0x99));
    assert_eq!(caller.get(REG_RA), None);

    let lost = unwinder.step(&caller, IN_LOST - 1, &stack(), false).unwrap_err();
    assert_eq!(
        lost,
        Failure::ReturnAddressLost {
            cfa: STACK + 32,
            function_start: LOST,
        }
    );
    let (frames, registers) = unwinder
        .recover(STACK + 32, LOST, &stack(), true)
        .unwrap();
    assert_eq!(frames, vec![frame(IN_OUTER, STACK + 32, true)]);
    assert_eq!(registers.pc, IN_MAIN);
    assert_eq!(registers.get(REG_SP), Some(STACK + 48));
    assert_eq!(registers.get(8), Some(0x1234));
    assert!(registers.sp_is_placeholder);
    assert!(unwinder.recover(STACK + 36, LOST, &stack(), true).is_none());
}

#[test]
fn unavailable_memory_and_registers_stop_the_walk() {
    let elf = firmware(false);
    let unwinder = Unwinder::new(&[&elf], UnwindTables::Auto);
    let (frames, stop) = unwinder.unwind(crash(), &StackMemory::default(), 100);
    assert_eq!(frames.len(), 1);
    assert_eq!(stop, Stop::MemoryUnavailable(STACK + 12));

    let (frames, stop) = unwinder.unwind(Registers::new(IN_HANDLER), &stack(), 100);
    assert_eq!(frames, vec![frame(IN_HANDLER, 0, false)]);
    assert_eq!(stop, Stop::UnknownRegister(REG_SP));
    let (frames, stop) = unwinder.unwind(Registers::new(IN_HANDLER), &stack(), 0);
    assert_eq!(frames, vec![frame(IN_HANDLER, 0, false)]);
    assert_eq!(stop, Stop::UnknownRegister(REG_SP));

    // The stack ends before the caller's frame.
    let mut memory = StackMemory::default();
    memory.push(STACK, &[0, 0, 0, IN_LOST]);
    let (frames, stop) = unwinder.unwind(crash(), &memory, 100);
    assert_eq!(frames.len(), 2);
    assert_eq!(stop, Stop::ReturnAddressLost(IN_LOST));
}

#[test]
fn finds_calls() {
    let elf = firmware(false);
    let unwinder = Unwinder::new(&[&elf], UnwindTables::Auto);
    assert_eq!(
        unwinder.call_before(IN_MAIN),
        Some(Call {
            target: Some(OUTER),
        })
    );
    assert_eq!(unwinder.call_before(IN_MAIN + 2), None);
    assert_eq!(unwinder.call_before(0), None);
    assert_eq!(unwinder.calls(MAIN, LOST), vec![(IN_MAIN, Some(OUTER)), (IN_OUTER, Some(LOST))]);
    assert_eq!(unwinder.calls(END, END + 4), vec![]);
    assert_eq!(
        unwinder.call_chain(OUTER, LOST, HANDLER, 1),
        Some(vec![(IN_OUTER, 16), (IN_LOST, 16)])
    );
    assert_eq!(unwinder.call_chain(OUTER, LOST, HANDLER, 0), None);
    // `outer` saves `ra`, so no chain leads through it.
    assert_eq!(unwinder.call_chain(MAIN, OUTER, LOST, 8), None);
}

/// Rules for every address.
struct Everywhere(Row);

impl CfiTable for Everywhere {
    // Of no use when the program runs.
    fn rules_at(&self, _pc: u64) -> Option<RowRules> {
        None
    }

    fn row(&self, _pc: u64) -> Option<Row> {
        Some(self.0.clone())
    }
}

fn everywhere(cfa: Cfa, registers: Vec<(u16, Rule)>, sp_cfa_offset: Option<i64>) -> Everywhere {
    Everywhere(Row {
        function_start: MAIN,
        function_end: END,
        function_saves_ra: true,
        cfa,
        registers,
        sp_cfa_offset,
    })
}

fn step(
    table: Everywhere,
    registers: &Registers,
    innermost: bool,
) -> Result<Registers, Failure> {
    let unwinder = Unwinder {
        tables: vec![table],
        code: Vec::new(),
    };
    unwinder.step(registers, registers.pc, &stack(), innermost)
}

#[test]
fn every_kind_of_rule() {
    let cfa = Cfa::RegisterAndOffset {
        register: REG_SP,
        offset: 16,
    };
    let rules = vec![
        (REG_RA, Rule::Constant(0x1_0000_1000)),
        (3, Rule::Undefined),
        (4, Rule::SameValue),
        (8, Rule::Offset(-4)),
        (9, Rule::ValOffset(-32)),
        (10, Rule::Register(9)),
        (11, Rule::Unsupported),
        (18, Rule::Offset(0x1000)),
        (40, Rule::ValOffset(0)),
    ];
    let mut registers = crash();
    registers.set(3, 3);
    registers.set(4, 4);
    registers.set(18, 18);
    registers.set(19, 19);
    let caller = step(everywhere(cfa, rules, None), &registers, false).unwrap();
    assert_eq!(caller.pc, 0x1000);
    assert_eq!(caller.get(REG_SP), Some(STACK + 16));
    assert_eq!(caller.get(3), None);
    assert_eq!(caller.get(4), Some(4));
    assert_eq!(caller.get(8), Some(IN_LOST));
    assert_eq!(caller.get(9), Some(STACK - 16));
    assert_eq!(caller.get(10), Some(0x99));
    assert_eq!(caller.get(11), None);
    assert_eq!(caller.get(18), None);
    assert_eq!(caller.get(19), Some(19));
}

#[test]
fn every_kind_of_return_address_rule() {
    let cfa = Cfa::RegisterAndOffset {
        register: REG_SP,
        offset: 16,
    };
    let mut registers = crash();
    registers.set(REG_RA, 0x2000);
    let pc = |rule: Rule| step(everywhere(cfa, vec![(REG_RA, rule)], None), &registers, false)
        .map(|caller| caller.pc);
    assert_eq!(pc(Rule::Undefined), Err(Failure::Stop(Stop::EndOfStack)));
    assert_eq!(pc(Rule::SameValue), Ok(0x2000));
    assert_eq!(pc(Rule::Offset(-4)), Ok(IN_LOST));
    assert_eq!(pc(Rule::Offset(-8)), Err(Failure::Stop(Stop::EndOfStack)));
    assert_eq!(
        pc(Rule::Offset(0x1000)),
        Err(Failure::Stop(Stop::MemoryUnavailable(STACK + 0x1010)))
    );
    assert_eq!(pc(Rule::ValOffset(-16)), Ok(STACK));
    assert_eq!(pc(Rule::Register(9)), Ok(0x99));
    assert_eq!(pc(Rule::Register(10)), Err(Failure::Stop(Stop::UnknownRegister(10))));
    assert_eq!(pc(Rule::Constant(0)), Err(Failure::Stop(Stop::EndOfStack)));
    assert_eq!(
        pc(Rule::Unsupported),
        Err(Failure::Stop(Stop::Unsupported(IN_HANDLER)))
    );

    // Without a rule, the live value counts for the innermost frame only.
    let innermost = step(everywhere(cfa, vec![], None), &registers, true).unwrap();
    assert_eq!(innermost.pc, 0x2000);
    registers.set(REG_RA, 0);
    assert_eq!(
        step(everywhere(cfa, vec![], None), &registers, true),
        Err(Failure::Stop(Stop::EndOfStack))
    );
    registers.clear(REG_RA);
    for rules in [vec![], vec![(REG_RA, Rule::SameValue)]] {
        assert_eq!(
            step(everywhere(cfa, rules, None), &registers, true),
            Err(Failure::Stop(Stop::UnknownRegister(REG_RA)))
        );
    }
    assert_eq!(
        step(everywhere(cfa, vec![], None), &registers, false),
        Err(Failure::ReturnAddressLost {
            cfa: STACK + 16,
            function_start: MAIN,
        })
    );
}

#[test]
fn frame_pointer_based_rules() {
    let cfa = Cfa::RegisterAndOffset {
        register: 8,
        offset: -16,
    };
    let rules = vec![(REG_RA, Rule::Constant(0x1000))];
    let sp = |registers: &Registers, fallback: Option<i64>| {
        step(everywhere(cfa, rules.clone(), fallback), registers, false)
            .map(|caller| caller.get(REG_SP))
    };
    let mut registers = crash();
    assert_eq!(sp(&registers, Some(64)), Ok(Some(STACK + 64)));
    assert_eq!(
        sp(&registers, None),
        Err(Failure::Stop(Stop::UnknownRegister(8)))
    );
    registers.set(8, STACK + 0x100);
    assert_eq!(sp(&registers, Some(64)), Ok(Some(STACK + 0xf0)));
    // A placeholder isn't combined with real addresses.
    registers.sp_is_placeholder = true;
    assert_eq!(sp(&registers, Some(64)), Ok(Some(STACK + 64)));

    let expression = everywhere(Cfa::Expression, rules.clone(), Some(64));
    assert_eq!(
        step(expression, &registers, false),
        Err(Failure::Stop(Stop::Unsupported(IN_HANDLER)))
    );
}

#[test]
fn the_stack_must_grow_downwards() {
    let rules = vec![(REG_RA, Rule::Constant(u64::from(IN_HANDLER)))];
    for (offset, frames_found) in [(-16, 1), (0, 1), (16, 2)] {
        let cfa = Cfa::RegisterAndOffset {
            register: REG_SP,
            offset,
        };
        let unwinder = Unwinder {
            tables: vec![everywhere(cfa, rules.clone(), None)],
            code: Vec::new(),
        };
        let (frames, stop) = unwinder.unwind(crash(), &stack(), 2);
        assert_eq!(frames.len(), frames_found);
        let expected = if frames_found == 1 {
            Stop::Inconsistent
        } else {
            Stop::TooManyFrames
        };
        assert_eq!(stop, expected);
    }
}

#[test]
fn only_the_innermost_frame_may_be_level_with_its_caller() {
    let cfa = Cfa::RegisterAndOffset {
        register: REG_SP,
        offset: 0,
    };
    let unwinder = Unwinder {
        tables: vec![everywhere(cfa, vec![(REG_RA, Rule::Register(9))], None)],
        code: Vec::new(),
    };
    // Both callers are level with their callees.
    let mut registers = crash();
    registers.set(9, IN_LOST);
    let (frames, stop) = unwinder.unwind(registers, &stack(), 100);
    assert_eq!(frames, vec![frame(IN_HANDLER, STACK, false), frame(IN_LOST, STACK, false)]);
    assert_eq!(stop, Stop::Inconsistent);

    // The second caller is elsewhere, but still level.
    let rules = vec![(REG_RA, Rule::Register(9)), (9, Rule::Constant(u64::from(IN_MAIN)))];
    let unwinder = Unwinder {
        tables: vec![everywhere(cfa, rules, None)],
        code: Vec::new(),
    };
    let (frames, stop) = unwinder.unwind(registers, &stack(), 100);
    assert_eq!(frames, vec![frame(IN_HANDLER, STACK, false), frame(IN_LOST, STACK, false)]);
    assert_eq!(stop, Stop::Inconsistent);

    // A stack pointer that isn't known is no reason to call it inconsistent.
    let rules = vec![
        (REG_SP, Rule::Undefined),
        (REG_RA, Rule::Constant(u64::from(IN_MAIN))),
    ];
    let unwinder = Unwinder {
        tables: vec![everywhere(cfa, rules, None)],
        code: Vec::new(),
    };
    let (frames, stop) = unwinder.unwind(registers, &stack(), 100);
    assert_eq!(frames, vec![frame(IN_HANDLER, STACK, false)]);
    assert_eq!(stop, Stop::UnknownRegister(REG_SP));
}

#[test]
fn half_of_an_instruction_is_no_call() {
    let unwinder: Unwinder<Everywhere> = Unwinder {
        tables: vec![],
        code: vec![CodeBlock {
            start: 0x1000,
            // lui a0, 0x20010; c.jal 0x1008; jal ra, 0x1010
            bytes: &[0x37, 0x05, 0x01, 0x20, 0x11, 0x20, 0xef, 0x00, 0xa0, 0x00],
        }],
    };
    assert_eq!(unwinder.calls(0x1000, 0x1004), vec![]);
    assert_eq!(
        unwinder.calls(0x1000, 0x100a),
        vec![(0x1006, Some(0x1008)), (0x100a, Some(0x1010))]
    );
}

#[test]
fn every_kind_of_call() {
    let base = 0x1000u32;
    let call = |bytes: &[u8]| {
        let unwinder: Unwinder<Everywhere> = Unwinder {
            tables: vec![],
            code: vec![CodeBlock {
                start: u64::from(base),
                bytes,
            }],
        };
        unwinder.call_before(base + bytes.len() as u32)
    };
    let words = |words: &[u32]| words.iter().flat_map(|w| w.to_le_bytes()).collect::<Vec<_>>();
    let target = |target: Option<u32>| Some(Call { target });
    // jal ra, -4
    assert_eq!(call(&words(&[0xffdff0ef])), target(Some(base - 4)));
    // auipc ra, 0x2; jalr ra, -8(ra)
    assert_eq!(call(&words(&[0x00002097, 0xff8080e7])), target(Some(base + 0x1ff8)));
    // auipc t0, 0x2; jalr ra, -8(ra)
    assert_eq!(call(&words(&[0x00002297, 0xff8080e7])), target(None));
    // auipc ra, 0x2; jalr ra, -8(t0)
    assert_eq!(call(&words(&[0x00002097, 0xff8280e7])), target(None));
    // jalr ra, 0(ra), with nothing before it
    assert_eq!(call(&words(&[0x000080e7])), target(None));
    // c.jal 2, c.jalr a0, c.ebreak, c.nop
    assert_eq!(call(&[0x09, 0x20]), target(Some(base + 2)));
    assert_eq!(call(&[0x02, 0x95]), target(None));
    assert_eq!(call(&[0x02, 0x90]), None);
    assert_eq!(call(&[0x01, 0x00]), None);
    assert_eq!(call(&[0x09]), None);
}

#[test]
fn symbols_need_an_elf_file_with_readable_debug_info() {
    assert!(matches!(Symbols::try_from(b"text"), Err(SymbolsError::NotAnObject)));
    let bad = elf_file(vec![
        text_section(),
        (String::from(".debug_info"), 1, 0, 0, vec![0xff; 3]),
    ]);
    assert!(matches!(Symbols::try_from(&bad), Err(SymbolsError::BadDebugInfo)));
    let bare = elf_file(vec![text_section()]);
    assert!(Symbols::try_from(&bare).is_ok());
}

fn function(name: &str, line: u32) -> SymbolFrame {
    SymbolFrame {
        name: Some(String::from(name)),
        location: Some((String::from("/src/main.rs"), line)),
    }
}

#[test]
fn names_and_locations() {
    let elf = firmware(false);
    let symbols = Symbols::try_from(&elf).unwrap();
    let name = |addr: u32| symbols.name(u64::from(addr)).unwrap();
    assert_eq!(name(MAIN).as_deref(), Some("main"));
    assert_eq!(name(LOST + 4).as_deref(), Some("lost"));
    assert_eq!(name(IN_HANDLER).as_deref(), Some("helper"));
    // Without debug info, the symbol table is next.
    assert_eq!(name(PLAIN).as_deref(), Some("dev::plain"));
    assert_eq!(name(PLAIN + 7).as_deref(), Some("dev::plain"));
    assert_eq!(name(PLAIN + 8), None);
    // A symbol without a name is no help.
    assert_eq!(name(PLAIN + 0x0a), None);
    // Nothing is known outside the segments.
    assert_eq!(name(END), None);
    assert_eq!(name(0x40816000), None);

    let location = |addr: u32| symbols.location(u64::from(addr));
    assert_eq!(location(OUTER), Some((String::from("/src/main.rs"), 20)));
    assert_eq!(location(IN_HANDLER), Some((String::from("/src/main.rs"), 50)));
    assert_eq!(location(PLAIN), None);

    assert_eq!(symbols.symbol_address("_stack_start"), Some(0x40816000));
    assert_eq!(symbols.symbol_address("_stack_end"), None);
}

#[test]
fn functions_with_those_they_were_inlined_into() {
    let elf = firmware(false);
    let symbols = Symbols::try_from(&elf).unwrap();
    let frames = |addr: u32| symbols.frames(u64::from(addr));
    assert_eq!(frames(OUTER), vec![function("outer", 20)]);
    assert_eq!(
        frames(IN_HANDLER),
        vec![function("helper", 50), function("handler", 42)]
    );
    assert_eq!(
        frames(PLAIN),
        vec![SymbolFrame {
            name: Some(String::from("dev::plain")),
            location: None,
        }]
    );
    assert_eq!(frames(PLAIN + 9), vec![]);
    assert_eq!(frames(END), vec![]);
}

#[test]
fn malformed_debug_info_fails_the_lookup_of_names() {
    let elf = broken_firmware();
    let symbols = Symbols::try_from(&elf).unwrap();
    let error = LookupError {
        addr: u64::from(MAIN),
    };
    assert_eq!(symbols.name(u64::from(MAIN)), Err(error));
    // Outside the unit nothing goes wrong.
    assert_eq!(
        symbols.name(u64::from(PLAIN)),
        Ok(Some(String::from("dev::plain")))
    );
    // The functions make do with the symbol table.
    assert_eq!(
        symbols.frames(u64::from(MAIN)),
        vec![SymbolFrame {
            name: Some(String::from("main")),
            location: None,
        }]
    );

    let mut out = Vec::new();
    let line = format!("0x{PLAIN:08x} 0x{MAIN:08x} 0x{PLAIN:08x}");
    assert_eq!(resolve_addresses(&symbols, &line, &mut out, false), Err(error));
    // What was printed before stays.
    assert_eq!(out.len(), 1);

    let mut printer = ResolvingPrinter::new(vec![&elf], false, UnwindTables::Auto);
    let mut out = Vec::new();
    assert_eq!(printer.write(format!("{line}\n").as_bytes(), &mut out), Err(error));
    assert_eq!(out.len(), 3);
}

fn highlighted(text: &str) -> Output {
    Output::Highlighted(String::from(text))
}

#[test]
fn addresses_are_resolved() {
    let elf = firmware(false);
    let symbols = Symbols::try_from(&elf).unwrap();
    let resolve = |line: &str, all: bool| {
        let mut out = Vec::new();
        resolve_addresses(&symbols, line, &mut out, all).unwrap();
        out
    };
    assert_eq!(
        resolve("at 0X42000040, 0x420000a0000x42000060 0xdeadbeef 0x4200004", false),
        vec![
            highlighted("0X42000040 - outer\r\n    at /src/main.rs:20\r\n"),
            highlighted("0x420000a0 - dev::plain\r\n    at ??:??\r\n"),
            highlighted("0x42000060 - lost\r\n    at /src/main.rs:30\r\n"),
        ]
    );
    // An address with a line of its own isn't repeated.
    assert_eq!(
        resolve("  0x42000040\t", false),
        vec![highlighted("outer\r\n    at /src/main.rs:20\r\n")]
    );
    assert_eq!(
        resolve("0x420000a0", false),
        vec![highlighted("dev::plain\r\n    at ??:??\r\n")]
    );
    for prefix in ["Saved PC:", "load:0x", "entry 0x"] {
        let line = format!("{prefix} 0x42000040");
        assert_eq!(resolve(&line, false), vec![]);
        assert_eq!(resolve(&line, true).len(), 1);
    }
}

/// What was printed, with what the monitor added in brackets.
fn shown(out: &[Output]) -> String {
    out.iter()
        .map(|piece| match piece {
            Output::Plain(text) => text.clone(),
            Output::Highlighted(text) => format!("[{text}]"),
        })
        .collect()
}

fn print(printer: &mut ResolvingPrinter<'_>, text: &str) -> Vec<Output> {
    let mut out = Vec::new();
    assert_eq!(printer.write(text.as_bytes(), &mut out), Ok(text.len()));
    out
}

const BACKTRACE: &str = "\r\nBacktrace (decoded from the stack dump):\r\n\
0x42000090 - helper\r\n    at /src/main.rs:50\r\n    (inlined by) handler\r\n    at /src/main.rs:42\r\n\
0x4200006c - lost\r\n    at /src/main.rs:30\r\n\
0x4200004c - outer\r\n    at /src/main.rs:20\r\n\
0x4200000c - main\r\n    at /src/main.rs:10\r\n\r\n";

const CRASH: &str = "\
Core  0 register dump:
MEPC    : 0x42000090  RA      : 0x00000000  SP      : 0x40815e00

Stack memory:
40815e00: 0x00000000 0x00000000 0x00000000 0x4200006c 0x00000000 0x00000000 0x00000000 0x00000000
40815e20: 0x00000000 0x00000000 0x00001234 0x4200000c 0x00000000 0x00000000 0x00000000 0x00000000
40815e40: 0x00000000 0x00000000 0x00000000 0x00000000
Rebooting...
";

#[test]
fn decodes_the_dump_of_the_crash() {
    for (eh, resolve_all) in [(false, false), (true, false), (false, true)] {
        let elf = firmware(eh);
        let mut printer = ResolvingPrinter::new(vec![&elf], resolve_all, UnwindTables::Auto);
        let out = print(&mut printer, CRASH);
        let text = shown(&out);
        assert!(
            text.contains(&format!("[{BACKTRACE}]Rebooting...\r\n")),
            "{text}"
        );
        // The words of the stack memory are only resolved on demand.
        assert_eq!(text.contains("0x4200000c - main\r\n    at /src/main.rs:10\r\n]"), resolve_all);
        assert!(text.contains("[0x42000090 - helper\r\n    at /src/main.rs:50\r\n]"));
    }
}

#[test]
fn decodes_the_dump_in_a_line() {
    // The dump ends at `_stack_start`.
    let sp = 0x40816000 - 80;
    let mut words = vec![0u32; 20];
    words[3] = IN_LOST;
    words[11] = IN_MAIN;
    let mut line = format!("STACKDUMP: {:08x} ", IN_HANDLER + 1);
    for byte in words.iter().flat_map(|word| word.to_le_bytes()) {
        line.push_str(&format!("{byte:02x}"));
    }
    let elf = firmware(true);
    let mut printer = ResolvingPrinter::new(vec![&elf], false, UnwindTables::Auto);
    let out = print(&mut printer, &format!("{line}\nafter\n"));
    let backtrace = BACKTRACE.replace("0x42000090", "0x42000091");
    assert_eq!(shown(&out), format!("{line}\r\n[{backtrace}]after\r\n"));

    let symbols = vec![Symbols::try_from(&elf).unwrap()];
    let dump = espmonitor::stack_dump::esp_backtrace::parse(&line, &symbols).unwrap();
    assert_eq!(dump.registers.get(REG_SP), Some(sp));
    assert!(!dump.registers.sp_is_placeholder);
    assert_eq!(dump.memory.read_u32(sp + 12), Some(IN_LOST));
}

#[test]
fn prints_a_backtrace() {
    let elf = firmware(false);
    let unwinder = Unwinder::new(&[&elf], UnwindTables::Auto);
    let symbols = vec![Symbols::try_from(&elf).unwrap()];
    let dump = Dump {
        registers: crash(),
        memory: stack(),
    };
    let mut out = Vec::new();
    print_backtrace(&dump, &unwinder, &symbols, &mut out);
    assert_eq!(out, vec![highlighted(BACKTRACE)]);
}

/// What the device sent, and what the monitor added.
fn parts(out: &[Output]) -> (String, Vec<String>) {
    let mut plain = String::new();
    let mut added = Vec::new();
    for piece in out {
        match piece {
            Output::Plain(text) => plain.push_str(text),
            Output::Highlighted(text) => added.push(text.clone()),
        }
    }
    (plain, added)
}

#[test]
fn output_may_be_printed_in_pieces() {
    let elf = firmware(false);
    let mut printer = ResolvingPrinter::new(vec![&elf], false, UnwindTables::Auto);
    let whole = parts(&print(&mut printer, CRASH));
    assert_eq!(whole.0, CRASH.replace('\n', "\r\n"));
    for size in [1, 7, 64] {
        let mut printer = ResolvingPrinter::new(vec![&elf], false, UnwindTables::Auto);
        let mut out = Vec::new();
        for piece in CRASH.as_bytes().chunks(size) {
            printer.write(piece, &mut out).unwrap();
        }
        assert_eq!(parts(&out), whole);
    }
}

#[test]
fn a_printer_without_addresses_adds_nothing() {
    let elf = firmware(false);
    let mut printer = ResolvingPrinter::new_no_addresses(Some(&elf));
    let out = print(&mut printer, CRASH);
    assert_eq!(shown(&out), CRASH.replace('\n', "\r\n"));
    assert!(out.iter().all(|piece| matches!(piece, Output::Plain(_))));
}

#[test]
fn incomplete_lines_are_printed_at_once() {
    let elf = firmware(false);
    let mut printer = ResolvingPrinter::new(vec![b"junk", &elf], false, UnwindTables::Auto);
    assert_eq!(shown(&print(&mut printer, "pc 0x4200")), "pc 0x4200");
    assert_eq!(
        shown(&print(&mut printer, "0040\r\nx")),
        "0040\r\n[0x42000040 - outer\r\n    at /src/main.rs:20\r\n]x"
    );
    assert_eq!(shown(&print(&mut printer, "")), "");
    assert_eq!(shown(&print(&mut printer, "\n")), "\r\n");
}

/// A firmware with the functions that the crash dump of an ESP-IDF application
/// shows; its unwind tables are in `.debug_frame`.
fn espidf_elf() -> Vec<u8> {
    let idf = |name, start, size, frame, file, line| Function {
        file,
        ..function_of(name, start, size, frame, line)
    };
    let functions = [
        idf(
            "panic_abort",
            0x40803940,
            0x20,
            0,
            "/Users/playfulfence/esp/esp-idf/components/esp_system/panic.c",
            491,
        ),
        idf(
            "esp_system_abort",
            0x40803900,
            0x20,
            16,
            "/Users/playfulfence/esp/esp-idf/components/esp_system/port/esp_system_chip.c",
            87,
        ),
        idf(
            "abort",
            0x40808220,
            0x70,
            112,
            "/Users/playfulfence/esp/esp-idf/components/newlib/src/abort.c",
            38,
        ),
        idf(
            "app_main",
            0x42005e60,
            0x40,
            32,
            "/Users/playfulfence/esp/esp-idf/examples/get-started/hello_world/main/hello_world_main.c",
            18,
        ),
        idf(
            "main_task",
            0x4200e560,
            0x40,
            32,
            "/Users/playfulfence/esp/esp-idf/components/freertos/app_startup.c",
            208,
        ),
    ];
    elf_file_with(
        debug_sections(&functions, false),
        &[(0x40800000, 0x10000), (0x42000000, 0x10000)],
        &[],
    )
}

/// A firmware with the functions that a panic of a bare-metal application shows;
/// its unwind tables are in `.eh_frame`, and are frame pointer based.
fn esp_backtrace_elf() -> Vec<u8> {
    let rust = |name, start, size, frame, file, line| Function {
        saves_s0: true,
        frame_pointer: true,
        file,
        ..function_of(name, start, size, frame, line)
    };
    let functions = [
        rust("main", 0x42001280, 0x50, 32, "/app/src/main.rs", 27),
        rust(
            "_ZN4core9panicking18panic_bounds_check17h0123456789abcdefE",
            0x420012d0,
            0x50,
            64,
            "/rust/library/core/src/panicking.rs",
            280,
        ),
    ];
    elf_file_with(
        debug_sections(&functions, true),
        &[(0x42000000, 0x10000)],
        &[("_stack_start", 0x4086e610, 0)],
    )
}

/// Runs `text` through a `ResolvingPrinter` loaded with the given ELF files and
/// returns what it printed.
fn print_with(elfs: Vec<&[u8]>, text: &str, tables: UnwindTables) -> String {
    let mut printer = ResolvingPrinter::new(elfs, false, tables);
    print(&mut printer, text)
        .into_iter()
        .map(|piece| match piece {
            Output::Plain(text) | Output::Highlighted(text) => text,
        })
        .collect()
}

/// Builds the `STACKDUMP:` line `esp-backtrace` prints for a stack of `words`
/// (little-endian, starting at `sp`).
fn stack_dump_line(pc: u32, words: &[u32]) -> String {
    let mut line = format!("STACKDUMP: {pc:08x} ");
    for word in words {
        for byte in word.to_le_bytes() {
            line.push_str(&format!("{byte:02x}"));
        }
    }
    line.push_str("\r\n");

    line
}

/// A stack as `esp-backtrace` would dump it while
/// `core::panicking::panic_bounds_check` (64 byte frame) is executing, called from
/// `main` (32 byte frame) whose saved `ra` is zero. Both functions switch their CFA
/// to `s0` after the prologue. `len` is the number of words to dump; anything not
/// needed by the unwinder is zero.
fn esp_backtrace_stack(len: usize, main_s0: u32) -> Vec<u32> {
    let mut words = vec![0; len];
    words[14] = main_s0; // s0 saved by panic_bounds_check = CFA of main
    words[15] = 0x420012cc; // ra saved by panic_bounds_check: after the call in main
    words
}

/// Asserts that `needles` occur in `haystack` in the given order.
fn assert_in_order(haystack: &str, needles: &[&str]) {
    let mut from = 0;
    for needle in needles {
        match haystack[from..].find(needle) {
            Some(index) => from += index + needle.len(),
            None => panic!("{needle:?} not found after offset {from} in:\n{haystack}"),
        }
    }
}

#[test]
fn decodes_esp_backtrace_dump_with_recovered_sp() {
    // 128 bytes are less than the smallest dump size esp-backtrace can be
    // configured with, so the dump ended at `_stack_start` (0x4086e610 in
    // this ELF), which makes sp = 0x4086e590 and the CFA of main
    // 0x4086e590 + 64 + 32.
    let elf = esp_backtrace_elf();
    let line = stack_dump_line(0x420012e8, &esp_backtrace_stack(32, 0x4086e5f0));
    let output = print_with(vec![&elf], &line, UnwindTables::Auto);

    assert_in_order(
        &output,
        &[
            "Backtrace (decoded from the stack dump):\r\n",
            "0x420012e8 - core::panicking::panic_bounds_check\r\n    at ",
            "0x420012cc - main\r\n    at ",
            "main.rs:",
        ],
    );
    assert!(!output.contains("backtrace stopped"), "{output}");
}

#[test]
fn decodes_esp_backtrace_dump_with_placeholder_sp() {
    // A dump of the maximum size doesn't reveal the stack pointer, so the
    // frame pointer based CFA rules have to be replaced by the stack
    // pointer based ones, and the saved `s0` is ignored.
    let elf = esp_backtrace_elf();
    let line = stack_dump_line(0x420012e8, &esp_backtrace_stack(1024, 0xdeadbeef));
    let output = print_with(vec![&elf], &line, UnwindTables::Auto);

    assert_in_order(
        &output,
        &[
            "0x420012e8 - core::panicking::panic_bounds_check\r\n",
            "0x420012cc - main\r\n",
        ],
    );
    assert!(!output.contains("backtrace stopped"), "{output}");
}

#[test]
fn esp_backtrace_dump_needs_eh_frame_here() {
    // The bare-metal ELF only has `.eh_frame`, so restricting the unwinder
    // to `.debug_frame` leaves nothing to unwind with.
    let elf = esp_backtrace_elf();
    let line = stack_dump_line(0x420012e8, &esp_backtrace_stack(32, 0x4086e5f0));
    let output = print_with(vec![&elf], &line, UnwindTables::DebugFrame);

    assert_in_order(
        &output,
        &[
            "0x420012e8 - core::panicking::panic_bounds_check\r\n",
            "(backtrace stopped: no unwind info for 0x420012e8",
        ],
    );
}

/// An `abort()` crash dump laid out by hand for the ESP-IDF ELF, with the return
/// addresses at the places the CFI of each function dictates:
///
/// - `panic_abort` (frameless, `ra` still live) called from
/// - `esp_system_abort` (16 byte frame, `ra` at the top) called from
/// - `abort` (112 byte frame) called from
/// - `app_main` (32 byte frame) called from
/// - `main_task` (32 byte frame), whose saved `ra` is zero.
const ESPIDF_ABORT_DUMP: &str = "\
Guru Meditation Error: Core  0 panic'ed (Illegal instruction). Exception was unhandled.

Core  0 register dump:
MEPC    : 0x40803956  RA      : 0x40803914  SP      : 0x40815e10  GP      : 0x4080c000
TP      : 0x00000000  T0      : 0x00000000  T1      : 0x00000000  T2      : 0x00000000
S0/FP   : 0x00000000  S1      : 0x00000000  A0      : 0x00000000  A1      : 0x00000000
A2      : 0x00000000  A3      : 0x00000000  A4      : 0x00000000  A5      : 0x00000000
A6      : 0x00000000  A7      : 0x00000000  S2      : 0x00000000  S3      : 0x00000000
S4      : 0x00000000  S5      : 0x00000000  S6      : 0x00000000  S7      : 0x00000000
S8      : 0x00000000  S9      : 0x00000000  S10     : 0x00000000  S11     : 0x00000000
T3      : 0x00000000  T4      : 0x00000000  T5      : 0x00000000  T6      : 0x00000000
MSTATUS : 0x00001881  MTVEC   : 0x40800001  MCAUSE  : 0x00000002  MTVAL   : 0x00000000
MHARTID : 0x00000000

Stack memory:
40815e10: 0x00000000 0x00000000 0x00000000 0x40808282 0x00000000 0x00000000 0x00000000 0x00000000
40815e30: 0x00000000 0x00000000 0x00000000 0x00000000 0x00000000 0x00000000 0x00000000 0x00000000
40815e50: 0x00000000 0x00000000 0x00000000 0x00000000 0x00000000 0x00000000 0x00000000 0x00000000
40815e70: 0x00000000 0x00000000 0x00000000 0x00000000 0x00000000 0x00000000 0x00000000 0x42005e86
40815e90: 0x00000000 0x00000000 0x00000000 0x00000000 0x00000000 0x00000000 0x00000000 0x4200e598
40815eb0: 0x00000000 0x00000000 0x00000000 0x00000000 0x00000000 0x00000000 0x00000000 0x00000000
40815ed0: 0x00000000 0x00000000 0x00000000 0x00000000 0x00000000 0x00000000 0x00000000 0x00000000
40815ef0: 0x00000000 0x00000000 0x00000000 0x00000000 0x00000000 0x00000000 0x00000000 0x00000000


ELF file SHA256: 0000000000000000

Rebooting...
";

#[test]
fn decodes_espidf_abort_dump() {
    let elf = espidf_elf();
    let output = print_with(vec![&elf], ESPIDF_ABORT_DUMP, UnwindTables::Auto);

    assert_in_order(
        &output,
        &[
            "Backtrace (decoded from the stack dump):\r\n",
            "0x40803956 - panic_abort\r\n    at /Users/playfulfence/esp/esp-idf/components/esp_system/panic.c:491\r\n",
            "0x40803914 - esp_system_abort\r\n    at /Users/playfulfence/esp/esp-idf/components/esp_system/port/esp_system_chip.c:87\r\n",
            "0x40808282 - abort\r\n    at /Users/playfulfence/esp/esp-idf/components/newlib/src/abort.c:38\r\n",
            "0x42005e86 - app_main\r\n    at /Users/playfulfence/esp/esp-idf/examples/get-started/hello_world/main/hello_world_main.c:18\r\n",
            "0x4200e598 - main_task\r\n    at /Users/playfulfence/esp/esp-idf/components/freertos/app_startup.c:208\r\n",
            // The backtrace is printed before the line that ended the dump.
            "ELF file SHA256",
        ],
    );
    assert!(!output.contains("backtrace stopped"), "{output}");

    // The words of the stack memory aren't resolved as addresses, so
    // `app_main` only shows up in the backtrace.
    assert_eq!(output.matches("app_main").count(), 1, "{output}");
}

#[test]
fn decodes_espidf_dump_with_bogus_pc() {
    // A jump through a bad pointer: no unwind info for the PC, so the
    // caller is where `ra` points.
    let elf = espidf_elf();
    let dump = ESPIDF_ABORT_DUMP.replace("MEPC    : 0x40803956", "MEPC    : 0x1c80006e");
    let output = print_with(vec![&elf], &dump, UnwindTables::Auto);

    assert_in_order(
        &output,
        &[
            "0x1c80006e - ??\r\n    at ??:??\r\n",
            "0x40803914 - esp_system_abort\r\n",
            "0x40808282 - abort\r\n",
            "0x42005e86 - app_main\r\n",
            "0x4200e598 - main_task\r\n",
        ],
    );
    assert!(!output.contains("backtrace stopped"), "{output}");
}

#[test]
fn reports_exhausted_stack_memory() {
    let elf = espidf_elf();
    let (head, _) = ESPIDF_ABORT_DUMP.split_once("40815e50: ").unwrap();
    let output = print_with(
        vec![&elf],
        &format!("{head}\r\nRebooting...\r\n"),
        UnwindTables::Auto,
    );

    assert_in_order(
        &output,
        &[
            "0x40803956 - panic_abort\r\n",
            "0x40803914 - esp_system_abort\r\n",
            "0x40808282 - abort\r\n",
            "(backtrace stopped: 0x40815e8c is outside the dumped stack memory (64 bytes))",
        ],
    );
    assert!(!output.contains("app_main"), "{output}");
}

#[test]
fn espidf_dump_without_elf_stops_after_ra() {
    let output = print_with(Vec::new(), ESPIDF_ABORT_DUMP, UnwindTables::Auto);

    assert_in_order(
        &output,
        &[
            "Stack memory:",
            "0x40803956 - ??\r\n",
            "0x40803914 - ??\r\n",
            "(backtrace stopped: no unwind info for 0x40803914",
        ],
    );
}
