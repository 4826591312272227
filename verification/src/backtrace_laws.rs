//! What holds of printed backtraces.
use crate::cfi_unwind::{
    goes_down, law_limit_cuts_the_walk, law_recovered_frames_follow_calls, Failure, Frame, Stop,
};
use crate::registers::{RegisterValues, REGISTER_NAMES};
use crate::riscv::wrap;
use crate::scan::ADDRESS_COUNT;
use crate::stack_dump::{
    byte_count, dump_backtrace, dumped_bytes, dumped_word, dumped_words, holds, printed_frame,
    printed_frames, printed_functions, resolved, stop_note, with_words, DumpData, SegmentWords,
};
use crate::symbols::{elf_functions, SymbolText};
use crate::text::{decimal_text, hex_digits};
use crate::unwind_data::UnwindData;
use crate::unwind_laws::rules_address;
use vstd::prelude::*;

verus! {

/// An address as it is printed: `0x` and eight digits.
pub open spec fn address_line(address: u32) -> Seq<char> {
    "0x"@ + hex_digits(address as nat, 8)
}

/// What is printed for a function of a frame: its name and its place in the source code,
/// as far as they are known.
pub open spec fn function_lines(head: Seq<char>, function: SymbolText) -> Seq<char> {
    let name = match function.name {
        Some(name) => name,
        None => "??"@,
    };
    let place = match function.location {
        Some((file, line)) => "    at "@ + file + ":"@ + decimal_text(line as nat) + "\r\n"@,
        None => "    at ??:??\r\n"@,
    };
    head + name + "\r\n"@ + place
}

/// What is printed for a frame whose functions are known: the innermost one follows the
/// address, and the others are those that it was inlined into.
pub open spec fn known_frame_lines(pc: u32, functions: Seq<SymbolText>) -> Seq<char> {
    Seq::new(
        functions.len(),
        |i: int|
            function_lines(
                if i == 0 {
                    address_line(pc) + " - "@
                } else {
                    "    (inlined by) "@
                },
                functions[i],
            ),
    ).flatten_alt()
}

/// The functions at an address, per the first of the ELF files that has any.
pub open spec fn are_functions_at(
    elfs: Seq<Seq<u8>>,
    addr: u64,
    functions: Seq<SymbolText>,
) -> bool {
    if functions.len() == 0 {
        forall|i: int| 0 <= i < elfs.len() ==> elf_functions(#[trigger] elfs[i], addr).len() == 0
    } else {
        exists|k: int|
            0 <= k < elfs.len() && functions == elf_functions(#[trigger] elfs[k], addr) && forall|
                i: int,
            |
                0 <= i < k ==> elf_functions(#[trigger] elfs[i], addr).len() == 0
    }
}

/// Whether the text is what is printed for a frame.
pub open spec fn is_frame_text(elfs: Seq<Seq<u8>>, frame: Frame, text: Seq<char>) -> bool {
    exists|functions: Seq<SymbolText>| #[trigger]
        are_functions_at(elfs, rules_address(frame) as u64, functions) && text == if functions.len()
            == 0 {
            address_line(frame.pc) + " - ??\r\n    at ??:??\r\n"@
        } else {
            known_frame_lines(frame.pc, functions)
        }
}

/// The functions at an address are those of the first ELF file that has any.
pub proof fn law_first_file_with_functions_counts(elfs: Seq<Seq<u8>>, addr: u64)
    ensures
        are_functions_at(elfs, addr, resolved(elfs, addr)),
    decreases elfs.len(),
{
    if elfs.len() > 0 {
        if elf_functions(elfs[0], addr).len() > 0 {
            assert(resolved(elfs, addr) == elf_functions(elfs[0], addr));
        } else {
            let rest = elfs.drop_first();
            law_first_file_with_functions_counts(rest, addr);
            let functions = resolved(rest, addr);
            if functions.len() == 0 {
                assert forall|i: int| 0 <= i < elfs.len() implies elf_functions(
                    #[trigger] elfs[i],
                    addr,
                ).len() == 0 by {
                    if i > 0 {
                        assert(rest[i - 1] == elfs[i]);
                    }
                }
            } else {
                let k = choose|k: int|
                    0 <= k < rest.len() && functions == elf_functions(#[trigger] rest[k], addr)
                        && forall|i: int|
                        0 <= i < k ==> elf_functions(#[trigger] rest[i], addr).len() == 0;
                assert(functions == elf_functions(elfs[k + 1], addr));
                assert forall|i: int| 0 <= i < k + 1 implies elf_functions(
                    #[trigger] elfs[i],
                    addr,
                ).len() == 0 by {
                    if i > 0 {
                        assert(rest[i - 1] == elfs[i]);
                    }
                }
            }
        }
    }
}

/// What is printed for the functions of a frame.
proof fn lemma_known_frame(pc: u32, functions: Seq<SymbolText>)
    ensures
        printed_functions(pc, functions) == known_frame_lines(pc, functions),
    decreases functions.len(),
{
    let lines = Seq::new(
        functions.len(),
        |i: int|
            function_lines(
                if i == 0 {
                    address_line(pc) + " - "@
                } else {
                    "    (inlined by) "@
                },
                functions[i],
            ),
    );
    if functions.len() > 0 {
        let rest = functions.drop_last();
        lemma_known_frame(pc, rest);
        let rest_lines = Seq::new(
            rest.len(),
            |i: int|
                function_lines(
                    if i == 0 {
                        address_line(pc) + " - "@
                    } else {
                        "    (inlined by) "@
                    },
                    rest[i],
                ),
        );
        assert(lines.drop_last() =~= rest_lines);
    }
}

/// Whether the text is that of the frames, one after the other.
pub open spec fn are_frame_texts(
    elfs: Seq<Seq<u8>>,
    frames: Seq<Frame>,
    texts: Seq<Seq<char>>,
) -> bool {
    &&& texts.len() == frames.len()
    &&& forall|i: int| 0 <= i < frames.len() ==> is_frame_text(elfs, frames[i], #[trigger] texts[i])
}

/// Frames are printed one after the other.
proof fn lemma_frame_texts(elfs: Seq<Seq<u8>>, frames: Seq<Frame>)
    ensures
        exists|texts: Seq<Seq<char>>| #[trigger]
            are_frame_texts(elfs, frames, texts) && printed_frames(frames, elfs)
                == texts.flatten_alt(),
    decreases frames.len(),
{
    if frames.len() == 0 {
        let texts: Seq<Seq<char>> = seq![];
        assert(are_frame_texts(elfs, frames, texts));
        assert(printed_frames(frames, elfs) =~= texts.flatten_alt());
    } else {
        let rest = frames.drop_last();
        lemma_frame_texts(elfs, rest);
        let before = choose|texts: Seq<Seq<char>>| #[trigger]
            are_frame_texts(elfs, rest, texts) && printed_frames(rest, elfs) == texts.flatten_alt();
        let frame = frames.last();
        let functions = resolved(elfs, frame.lookup() as u64);
        let text = printed_frame(frame.pc, functions);
        law_first_file_with_functions_counts(elfs, frame.lookup() as u64);
        assert(frame.lookup() == rules_address(frame));
        lemma_known_frame(frame.pc, functions);
        assert(is_frame_text(elfs, frame, text));
        let texts = before.push(text);
        assert(texts.drop_last() =~= before);
        assert forall|i: int| 0 <= i < frames.len() implies is_frame_text(
            elfs,
            frames[i],
            #[trigger] texts[i],
        ) by {
            if i < rest.len() {
                assert(texts[i] == before[i]);
                assert(rest[i] == frames[i]);
            }
        }
        assert(are_frame_texts(elfs, frames, texts));
    }
}

/// Why a backtrace stops as it is printed; reaching the outermost frame is no reason.
pub open spec fn note_lines(stop: Stop, dumped: nat) -> Seq<char> {
    let note = match stop {
        Stop::EndOfStack => seq![],
        Stop::ReturnAddressLost(pc) => "the function at "@ + address_line(pc)
            + " didn't save its return address"@,
        Stop::NoUnwindInfo(pc) => "no unwind info for "@ + address_line(pc)
            + "; is the ELF built with debug info?"@,
        Stop::MemoryUnavailable(addr) => address_line(addr)
            + " is outside the dumped stack memory ("@ + decimal_text(dumped) + " bytes)"@,
        Stop::UnknownRegister(reg) => "the value of "@ + (if reg < 32 {
            REGISTER_NAMES[reg as int]@
        } else {
            "a register"@
        }) + " is unknown"@,
        Stop::Unsupported(pc) => "unsupported unwind rule at "@ + address_line(pc),
        Stop::TooManyFrames => "more than "@ + decimal_text(100) + " frames"@,
        Stop::Inconsistent => "inconsistent stack frame"@,
    };
    if stop is EndOfStack {
        seq![]
    } else {
        "(backtrace stopped: "@ + note + ")\r\n"@
    }
}

/// The backtrace of a dump lists every frame of the call chain, innermost first, if there
/// are at most a hundred of them, and then says why there are no more: whatever limit up to
/// a hundred is enough to unwind all of the dump gives the frames that are printed.
pub proof fn law_backtrace_lists_all_frames(
    dump: DumpData,
    data: UnwindData,
    elfs: Seq<Seq<u8>>,
    limit: nat,
)
    requires
        limit <= 100,
        limit == 100 || data.unwind(
            dump.registers,
            dumped_words(dump.memory),
            limit,
        ).1 != Stop::TooManyFrames,
    ensures
        ({
            let (frames, stop) = data.unwind(dump.registers, dumped_words(dump.memory), limit);
            exists|texts: Seq<Seq<char>>| #[trigger]
                are_frame_texts(elfs, frames, texts) && dump_backtrace(dump, data, elfs)
                    == "\r\nBacktrace (decoded from the stack dump):\r\n"@ + texts.flatten_alt()
                    + note_lines(stop, dumped_bytes(dump.memory)) + "\r\n"@
        }),
{
    let words = dumped_words(dump.memory);
    let (frames, stop) = data.unwind(dump.registers, words, limit);
    law_limit_cuts_the_walk(data, dump.registers, words, limit, 100);
    lemma_frame_texts(elfs, frames);
    let texts = choose|texts: Seq<Seq<char>>| #[trigger]
        are_frame_texts(elfs, frames, texts) && printed_frames(frames, elfs) == texts.flatten_alt();
    let dumped = dumped_bytes(dump.memory);
    assert(note_lines(stop, dumped) =~= match stop_note(stop, dumped) {
        Some(note) => "(backtrace stopped: "@ + note + ")\r\n"@,
        None => seq![],
    });
    assert(dump_backtrace(dump, data, elfs) =~= "\r\nBacktrace (decoded from the stack dump):\r\n"@
        + texts.flatten_alt() + note_lines(stop, dumped) + "\r\n"@);
}

/// A walk is only stopped by the limit if that many frames were found, or if the ones that
/// were reconstructed next, of which there are at most nine, would have been too many.
#[verifier::rlimit(40)]
#[verifier::spinoff_prover]
proof fn lemma_limit_is_reached(
    data: UnwindData,
    registers: RegisterValues,
    is_return_address: bool,
    words: Map<u32, u32>,
    max_frames: nat,
    frames: Seq<Frame>,
)
    requires
        frames.len() <= max_frames,
    ensures
        ({
            let (all, stop) = data.walk(registers, is_return_address, words, max_frames, frames);
            stop == Stop::TooManyFrames ==> all.len() == max_frames || all.len() + 9 > max_frames
        }),
    decreases max_frames - frames.len(),
{
    if let Some(sp) = registers.get(2) {
        if frames.len() < max_frames {
            let frame = Frame { pc: registers.pc, sp, is_return_address, recovered: false };
            let pushed = frames.push(frame);
            let step = data.step(registers, frame.lookup(), words, pushed.len() == 1);
            let (next, caller) = data.next_frame(registers, words, max_frames, pushed);
            assert(pushed.last() == frame);
            if let Err(Failure::ReturnAddressLost { cfa, function_start }) = step {
                if data.recover(
                    cfa,
                    function_start,
                    words,
                    registers.sp_is_placeholder,
                ) is Some {
                    law_recovered_frames_follow_calls(
                        data,
                        cfa,
                        function_start,
                        words,
                        registers.sp_is_placeholder,
                        cfa,
                        ADDRESS_COUNT as nat,
                    );
                }
            }
            if let Ok(caller) = caller {
                if !goes_down(registers, sp, caller, frames.len() == 0) {
                    lemma_limit_is_reached(data, caller, true, words, max_frames, next);
                }
            }
        }
    }
}

/// Unwinding only stops for the limit if that many frames were found, or if the ones that
/// are reconstructed next, of which there are at most nine, would be too many.
#[verifier::rlimit(40)]
#[verifier::spinoff_prover]
pub proof fn law_limit_is_reached(
    data: UnwindData,
    registers: RegisterValues,
    words: Map<u32, u32>,
    max_frames: nat,
)
    ensures
        ({
            let (frames, stop) = data.unwind(registers, words, max_frames);
            stop == Stop::TooManyFrames ==> frames.len() + 9 > max_frames
        }),
{
    if registers.get(2) is Some && max_frames > 0 {
        lemma_limit_is_reached(
            data,
            registers,
            registers.pc_is_return_address,
            words,
            max_frames,
            Seq::<Frame>::empty(),
        );
    }
}

/// Whether a segment covers an address.
pub open spec fn covers_address(segment: SegmentWords, addr: u32) -> bool {
    segment.base <= addr && addr < segment.base + 4 * segment.words.len()
}

/// A word at an aligned address is read from the first segment that covers it, by its distance
/// from the address of that segment.
pub proof fn law_words_are_read_where_dumped(segments: Seq<SegmentWords>, addr: u32, k: int)
    requires
        0 <= k < segments.len(),
        addr % 4 == 0,
        covers_address(segments[k], addr),
        forall|j: int| 0 <= j < k ==> !covers_address(#[trigger] segments[j], addr),
    ensures
        dumped_word(segments, addr) == Some(
            segments[k].words[(addr - segments[k].base) / 4],
        ),
        dumped_words(segments).dom().contains(addr),
        dumped_words(segments)[addr] == segments[k].words[(addr - segments[k].base) / 4],
    decreases k,
{
    if k > 0 {
        let rest = segments.drop_first();
        assert(!covers_address(segments[0], addr));
        assert(!holds(segments[0], addr));
        assert forall|j: int| 0 <= j < k - 1 implies !covers_address(
            #[trigger] rest[j],
            addr,
        ) by {
            assert(rest[j] == segments[j + 1]);
        }
        law_words_are_read_where_dumped(rest, addr, k - 1);
    }
}

/// Nothing can be read where nothing was dumped, nor at an address that isn't aligned.
pub proof fn law_other_words_are_unavailable(segments: Seq<SegmentWords>, addr: u32)
    requires
        addr % 4 != 0 || forall|j: int|
            0 <= j < segments.len() ==> !covers_address(#[trigger] segments[j], addr),
    ensures
        dumped_word(segments, addr) is None,
        !dumped_words(segments).dom().contains(addr),
    decreases segments.len(),
{
    if segments.len() > 0 && addr % 4 == 0 {
        let rest = segments.drop_first();
        assert(!covers_address(segments[0], addr));
        assert forall|j: int| 0 <= j < rest.len() implies !covers_address(
            #[trigger] rest[j],
            addr,
        ) by {
            assert(rest[j] == segments[j + 1]);
        }
        law_other_words_are_unavailable(rest, addr);
    }
}

/// Words that follow the last ones that were dumped belong to the same segment, and others
/// begin a new one.
pub proof fn law_consecutive_words_are_joined(
    segments: Seq<SegmentWords>,
    addr: u32,
    words: Seq<u32>,
)
    ensures
        ({
            let all = with_words(segments, addr, words);
            if segments.len() > 0 && wrap(
                segments[segments.len() - 1].base + 4 * segments[segments.len() - 1].words.len(),
            ) == addr {
                &&& all.len() == segments.len()
                &&& forall|i: int|
                    0 <= i < segments.len() - 1 ==> #[trigger] all[i] == segments[i]
                &&& all[all.len() - 1].base == segments[segments.len() - 1].base
                &&& all[all.len() - 1].words == segments[segments.len() - 1].words + words
            } else {
                &&& all.len() == segments.len() + 1
                &&& forall|i: int| 0 <= i < segments.len() ==> #[trigger] all[i] == segments[i]
                &&& all[all.len() - 1].base == addr
                &&& all[all.len() - 1].words == words
            }
        }),
{
}

/// The number of bytes of a dump is four times that of its words.
pub proof fn law_dumped_bytes_are_counted(segments: Seq<SegmentWords>, segment: SegmentWords)
    ensures
        byte_count(Seq::<SegmentWords>::empty()) == 0,
        byte_count(segments.push(segment)) == byte_count(segments) + 4 * segment.words.len(),
        byte_count(segments) <= usize::MAX ==> dumped_bytes(segments) == byte_count(segments),
{
    assert(segments.push(segment).drop_last() =~= segments);
}

} // verus!
