use espmonitor::cfi_unwind::{Frame, Stop};
use espmonitor::registers::{Memory, Registers, REG_RA, REG_SP};
use espmonitor::stack_dump::esp_backtrace::{parse, to_dump, to_words, EspBacktrace};
use espmonitor::stack_dump::esp_idf::{EspIdf, State};
use espmonitor::stack_dump::{
    default_collector, explain, format_backtrace, format_functions, Collector, Dump, Line,
    StackMemory,
};
use espmonitor::symbols::SymbolFrame;

#[test]
fn parses_stack_dump_line_without_symbols() {
    let Dump { registers, memory } = parse("STACKDUMP: 420012e8 01000000cc120042\n", &[]).unwrap();

    assert_eq!(registers.pc, 0x420012e8);
    assert!(registers.pc_is_return_address);
    assert!(registers.sp_is_placeholder);
    let sp = registers.get(REG_SP).unwrap();
    assert_eq!(memory.len(), 8);
    assert_eq!(memory.read_u32(sp), Some(1));
    assert_eq!(memory.read_u32(sp + 4), Some(0x420012cc));
    assert_eq!(memory.read_u32(sp + 8), None);
}

#[test]
fn esp_backtrace_collector_completes_on_the_line_itself() {
    let mut collector = EspBacktrace;

    assert_eq!(collector.feed("Hello, world!", &[]), Line::Other);
    assert!(matches!(
        collector.feed("STACKDUMP: 420012e8 01000000", &[]),
        Line::Complete {
            includes_line: true,
            ..
        }
    ));
}

#[test]
fn rejects_malformed_stack_dump_lines() {
    assert!(parse("STACKDUMP: 420012e8", &[]).is_none());
    assert!(parse("STACKDUMP: xyz 01000000", &[]).is_none());
    assert!(parse("STACKDUMP: 420012e8 0100zz00", &[]).is_none());
    assert!(parse("Backtrace: 0x420012e8", &[]).is_none());
}

#[test]
fn parses_signs_and_ignores_an_unpaired_character() {
    // Like the numbers of the standard library, with an optional sign.
    let dump = parse("STACKDUMP: +10 +f020304  ", &[]).unwrap();
    assert_eq!(dump.registers.pc, 0x10);
    assert_eq!(dump.memory.read_u32(0x1000_0000), Some(0x0403020f));

    for line in ["STACKDUMP: 10 010203040", "STACKDUMP: 10 01020304z"] {
        let dump = parse(line, &[]).unwrap();
        assert_eq!(dump.memory.read_u32(0x1000_0000), Some(0x04030201));
        assert_eq!(dump.memory.len(), 4);
    }
    // A sign alone is no number.
    assert!(parse("STACKDUMP: + 01020304", &[]).is_none());
    assert!(parse("STACKDUMP: 10 0102++04", &[]).is_none());
    assert!(parse("STACKDUMP: 10 -1020304", &[]).is_none());

    // An incomplete word doesn't count.
    let dump = parse("STACKDUMP: 10 0102030405", &[]).unwrap();
    assert_eq!(dump.memory.len(), 4);
}

#[test]
fn rejects_stack_dump_lines_with_other_characters() {
    assert!(parse("STACKDUMP: 10 0102030é", &[]).is_none());
    assert!(parse("STACKDUMP: 10 01020304é", &[]).is_none());
    assert!(parse("STACKDUMP: 100000000 01020304", &[]).is_none());
    assert!(parse(" STACKDUMP: 10 01020304", &[]).is_none());
    assert!(parse("STACKDUMP: 10  01020304", &[]).is_none());
}

#[test]
fn short_dumps_end_at_the_stack_start() {
    let dump = to_dump(0x42000000, &vec![0; 128], Some(0x4086e610));
    assert_eq!(dump.registers.get(REG_SP), Some(0x4086e590));
    assert!(!dump.registers.sp_is_placeholder);
    assert_eq!(dump.memory.read_u32(0x4086e590), Some(0));
    assert_eq!(dump.memory.read_u32(0x4086e60c), Some(0));
    assert_eq!(dump.memory.read_u32(0x4086e610), None);

    let dump = to_dump(0x42000000, &vec![0; 4096], Some(0x4086e610));
    assert_eq!(dump.registers.get(REG_SP), Some(0x1000_0000));
    assert!(dump.registers.sp_is_placeholder);
}

#[test]
fn words_are_little_endian() {
    assert_eq!(to_words(&vec![1, 2, 3, 4, 5, 6, 7]), vec![0x04030201]);
}

const DUMP: &str = "\
Guru Meditation Error: Core  0 panic'ed (Instruction access fault). Exception was unhandled.

Core  0 register dump:
MEPC    : 0x1c80006e  RA      : 0x4212bca4  SP      : 0x4087e1f0  GP      : 0x408173f4
TP      : 0x00000000  T0      : 0x400228f4  T1      : 0x40800bd0  T2      : 0x00000000
S0/FP   : 0x4227e2a4  S1      : 0x4227e000  A0      : 0x00000000  A1      : 0x00000004
A2      : 0x00000019  A3      : 0x00000000  A4      : 0x000000e9  A5      : 0x1c80006f
A6      : 0xa0000000  A7      : 0x0000000a  S2      : 0xffff8000  S3      : 0x40800810
S4      : 0x42000000  S5      : 0x43000000  S6      : 0x000a0020  S7      : 0x001ed084
S8      : 0x0008e268  S9      : 0x421f0000  S10     : 0x00000000  S11     : 0x00000000
T3      : 0x00000000  T4      : 0x00280000  T5      : 0x00180000  T6      : 0x0000001b
MSTATUS : 0x00001881  MTVEC   : 0x40800001  MCAUSE  : 0x00000001  MTVAL   : 0x1c80006e
MHARTID : 0x00000000

Stack memory:
4087e1f0: 0xffff8000 0x4227e287 0x421ed0a3 0x4086fb7a 0x422419ca 0xf8fc5606 0xdf1a9ebd 0x00010000
4087e210: 0x24f856d7 0x001f0000 0x00010020 0x000a0020 0x421f0020 0x42000020 0x0008e268 0x001ed084


ELF file SHA256: 0000000000000000

Rebooting...
";

/// Feeds `text` line by line, returning what each line was and the dumps
/// completed along the way.
fn collect(text: &str) -> (Vec<Line>, Vec<Dump>) {
    let mut collector = EspIdf::default();
    let mut lines = Vec::new();
    let mut dumps = Vec::new();

    for line in text.lines() {
        let fed = collector.feed(line, &[]);
        if let Line::Complete {
            dump,
            includes_line,
        } = &fed
        {
            assert!(!includes_line);
            dumps.push((**dump).clone());
        }
        lines.push(fed);
    }

    (lines, dumps)
}

#[test]
fn collects_registers_and_stack() {
    let (lines, dumps) = collect(DUMP);
    let [dump] = dumps.as_slice() else {
        panic!("expected one dump, got {}", dumps.len());
    };

    let registers = &dump.registers;
    assert_eq!(registers.pc, 0x1c80006e);
    assert!(!registers.pc_is_return_address);
    assert!(!registers.sp_is_placeholder);
    assert_eq!(registers.get(REG_RA), Some(0x4212bca4));
    assert_eq!(registers.get(REG_SP), Some(0x4087e1f0));
    assert_eq!(registers.get(8), Some(0x4227e2a4)); // S0/FP
    assert_eq!(registers.get(31), Some(0x1b)); // T6
    assert_eq!(registers.get(0), Some(0));

    assert_eq!(dump.memory.len(), 64);
    assert_eq!(dump.memory.read_u32(0x4087e1f0), Some(0xffff8000));
    assert_eq!(dump.memory.read_u32(0x4087e1f4), Some(0x4227e287));
    assert_eq!(dump.memory.read_u32(0x4087e22c), Some(0x001ed084));
    assert_eq!(dump.memory.read_u32(0x4087e230), None);
    assert_eq!(dump.memory.read_u32(0x4087e1ec), None);
    assert_eq!(dump.memory.read_u32(0x4087e1f1), None);

    // Only the stack memory lines are data; the dump completes on the
    // first line after them.
    let data_lines = lines.iter().filter(|line| **line == Line::Data).count();
    assert_eq!(data_lines, 2);
    assert!(matches!(lines[17], Line::Complete { .. }));
    assert!(lines
        .iter()
        .enumerate()
        .all(|(index, line)| *line == Line::Other || (15..=17).contains(&index)));
}

#[test]
fn stack_memory_without_registers_is_not_collected() {
    let text = "Stack memory:\n40800000: 0x00000001 0x00000002\n\n";
    let (lines, dumps) = collect(text);

    assert!(dumps.is_empty());
    assert!(lines.iter().all(|line| *line == Line::Other));
}

#[test]
fn unrelated_output_after_registers_aborts_collection() {
    let text = "Core  1 register dump:\nMEPC    : 0x40800000  RA      : 0x40800004\nBacktrace: 0x40800000:0x40800000\n\n";
    let (lines, dumps) = collect(text);

    assert!(dumps.is_empty());
    assert!(lines.iter().all(|line| *line == Line::Other));
}

#[test]
fn back_to_back_dumps() {
    let text = "Core  0 register dump:\nMEPC    : 0x40800000  RA      : 0x40800004  SP      : 0x40810000\n\nStack memory:\n40810000: 0x00000001 0x00000002\nCore  1 register dump:\nMEPC    : 0x40800010  RA      : 0x40800014  SP      : 0x40820000\n\nStack memory:\n40820000: 0x00000003 0x00000004\n\n";
    let (_, dumps) = collect(text);

    assert_eq!(dumps.len(), 2);
    assert_eq!(dumps[0].registers.pc, 0x40800000);
    assert_eq!(dumps[0].memory.read_u32(0x40810004), Some(2));
    assert_eq!(dumps[1].registers.pc, 0x40800010);
    assert_eq!(dumps[1].memory.read_u32(0x40820000), Some(3));
}

#[test]
fn stack_memory_header_without_any_register_aborts_collection() {
    let mut collector = EspIdf::default();
    collector.feed("Core 0 register dump:", &[]);
    assert_eq!(collector.state, State::Registers);
    collector.feed("Stack memory:", &[]);
    assert_eq!(collector.state, State::Idle);
}

#[test]
fn register_dump_headers() {
    for header in [
        "Core  0 register dump:",
        "Core\t12 register dump: more",
        "Core \u{a0}0 register dump:",
        "Core 0\u{664} register dump:",
    ] {
        let mut collector = EspIdf::default();
        collector.start(header);
        assert_eq!(collector.state, State::Registers, "{header}");
    }
    for other in [
        "Core0 register dump:",
        "Core 0  register dump:",
        " Core 0 register dump:",
        "Core x register dump:",
        "core 0 register dump:",
        "Core 0 register dump",
        "Core \u{e9} register dump:",
        "",
    ] {
        let mut collector = EspIdf::default();
        collector.start(other);
        assert_eq!(collector.state, State::Idle, "{other}");
    }
}

#[test]
fn register_pairs_are_found_from_left_to_right() {
    let mut collector = EspIdf::default();
    assert!(collector.parse_registers("xRA:0x12345678A0\u{3000}:\t0xabcSP : 1 GP: 0x"));
    let registers = collector.registers.unwrap();
    assert_eq!(registers.get(REG_RA), Some(0x12345678));
    // The digits stop after eight, and the rest isn't a name of its own.
    assert_eq!(registers.get(10), Some(0xabc));
    assert_eq!(registers.get(REG_SP), None);
    assert_eq!(registers.get(3), None);
    assert_eq!(collector.pc, None);
    assert_eq!(registers.pc, 0);
}

#[test]
fn register_pairs_after_many_digits() {
    let mut collector = EspIdf::default();
    // Nine digits: the ninth is left over.
    assert!(collector.parse_registers("RA : 0x123456789 MEPC: 0x40000000"));
    let registers = collector.registers.unwrap();
    assert_eq!(registers.get(REG_RA), Some(0x12345678));
    assert_eq!(registers.pc, 0x40000000);
}

#[test]
fn unknown_registers_are_matched_but_ignored() {
    let mut collector = EspIdf::default();
    assert!(collector.parse_registers("MSTATUS : 0x00001881"));
    assert!(collector.registers.is_none());
    assert!(!collector.parse_registers("nothing here"));
}

#[test]
fn stack_lines() {
    let mut collector = EspIdf::default();
    assert!(collector.parse_stack_line("4080e1F0: 0x00000001\t0xffffffff  "));
    assert_eq!(collector.stack.read_u32(0x4080e1f0), Some(1));
    assert_eq!(collector.stack.read_u32(0x4080e1f4), Some(0xffffffff));
    assert_eq!(collector.stack.len(), 8);
    for line in [
        "4080e1f0:",
        "4080e1f0: ",
        "4080e1f0: 0x0000001",
        "4080e1f0: 0x000000011",
        "4080e1f0: 0x00000001 x",
        "4080e1f: 0x00000001",
        "4080e1f0:0x00000001",
        "4080e1f0 : 0x00000001",
        " 4080e1f0: 0x00000001",
        "4080e1f0: 0X00000001",
    ] {
        assert!(!collector.parse_stack_line(line), "{line}");
    }
    assert_eq!(collector.stack.len(), 8);
}

#[test]
fn finish_and_reset_drop_what_was_collected() {
    let mut collector = EspIdf::default();
    collector.parse_registers("MEPC: 0x10");
    collector.parse_stack_line("40000000: 0x00000001");
    let dump = collector.finish();
    assert_eq!(dump.registers.pc, 0x10);
    assert_eq!(dump.memory.len(), 4);
    assert_eq!(collector.state, State::Idle);
    assert!(collector.registers.is_none());
    assert_eq!(collector.finish().registers, Registers::new(0));

    collector.start("Core 0 register dump:");
    collector.reset();
    assert_eq!(collector.state, State::Idle);
}

#[test]
fn both_collectors_see_every_line() {
    let mut collector = default_collector();
    for line in ["Core 0 register dump:", "MEPC: 0x40000000 SP: 0x40810000", "Stack memory:"] {
        assert_eq!(collector.feed(line, &[]), Line::Other);
    }
    assert_eq!(collector.feed("40810000: 0x00000001", &[]), Line::Data);
    // The first collector to recognize the line decides what it is.
    assert!(matches!(
        collector.feed("STACKDUMP: 420012e8 01000000", &[]),
        Line::Complete {
            includes_line: true,
            ..
        }
    ));
    assert_eq!(collector.1.state, State::Idle);
}

#[test]
fn adjacent_words_form_one_segment() {
    let mut memory = StackMemory::default();
    assert_eq!(memory.len(), 0);
    assert_eq!(memory.read_u32(0), None);
    memory.push(0x100, &[1, 2]);
    memory.push(0x108, &[3]);
    memory.push(0x200, &[4]);
    memory.push(0x104, &[5, 6]);
    assert_eq!(memory.segments.len(), 3);
    assert_eq!(memory.len(), 24);
    assert_eq!(memory.read_u32(0x108), Some(3));
    assert_eq!(memory.read_u32(0x200), Some(4));
    // The segment that came first counts.
    assert_eq!(memory.read_u32(0x104), Some(2));
    assert_eq!(memory.read_u32(0x102), None);
    assert_eq!(memory.read_u32(0x10c), None);
    assert_eq!(memory.read_u32(0xfc), None);
}

#[test]
fn explains_why_unwinding_stopped() {
    let note = |stop: Stop| explain(stop, 64);
    assert_eq!(note(Stop::EndOfStack), None);
    assert_eq!(
        note(Stop::ReturnAddressLost(0x1c)).unwrap(),
        "the function at 0x0000001c didn't save its return address"
    );
    assert_eq!(
        note(Stop::NoUnwindInfo(0x420012e8)).unwrap(),
        "no unwind info for 0x420012e8; is the ELF built with debug info?"
    );
    assert_eq!(
        note(Stop::MemoryUnavailable(0x40815e8c)).unwrap(),
        "0x40815e8c is outside the dumped stack memory (64 bytes)"
    );
    assert_eq!(
        note(Stop::UnknownRegister(8)).unwrap(),
        "the value of S0/FP is unknown"
    );
    assert_eq!(
        note(Stop::UnknownRegister(32)).unwrap(),
        "the value of a register is unknown"
    );
    assert_eq!(
        note(Stop::Unsupported(0xabcdef01)).unwrap(),
        "unsupported unwind rule at 0xabcdef01"
    );
    assert_eq!(note(Stop::TooManyFrames).unwrap(), "more than 100 frames");
    assert_eq!(note(Stop::Inconsistent).unwrap(), "inconsistent stack frame");
}

#[test]
fn formats_functions_innermost_first() {
    let functions = vec![
        SymbolFrame {
            name: Some(String::from("inner")),
            location: Some((String::from("a.rs"), 120)),
        },
        SymbolFrame {
            name: None,
            location: None,
        },
    ];
    let mut text = String::from("> ");
    format_functions(0x42, &functions, &mut text);
    assert_eq!(
        text,
        "> 0x00000042 - inner\r\n    at a.rs:120\r\n    (inlined by) ??\r\n    at ??:??\r\n"
    );
}

#[test]
fn formats_unknown_functions() {
    let frames = vec![Frame {
        pc: 0x1c80006e,
        sp: 0,
        is_return_address: false,
        recovered: false,
    }];
    assert_eq!(
        format_backtrace(&frames, Stop::Inconsistent, &[], 0),
        "\r\nBacktrace (decoded from the stack dump):\r\n0x1c80006e - ??\r\n    at ??:??\r\n(backtrace stopped: inconsistent stack frame)\r\n\r\n"
    );
}
