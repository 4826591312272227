//! What holds of unwound call chains as a whole.
use crate::call_graph::{direct_call, Call};
use crate::cfi_section::{Cfa, Rule};
use crate::cfi_table::RowRules;
use crate::cfi_unwind::{
    chain_frame, chain_frames, chain_sp, frame_cfa, goes_down, law_starting_frame_comes_first,
    Failure, Frame, Stop,
};
use crate::registers::{word_at, RegisterValues};
use crate::riscv::wrap;
use crate::scan::ADDRESS_COUNT;
use crate::unwind_data::UnwindData;
use vstd::prelude::*;

verus! {

/// Whether the function that has unwind rules at `function` makes a call to `target`
/// that returns to `return_address`.
pub open spec fn makes_call(
    data: UnwindData,
    function: u32,
    return_address: u32,
    target: u32,
) -> bool {
    (data.rows)(function as u64) matches Some(row) && data.calls(
        row.function_start,
        row.function_end,
    ).contains((return_address, Some(target)))
}

/// The size of the frame of the function that called something which returns to
/// `return_address`, per the stack pointer based rule for its CFA.
pub open spec fn frame_size(data: UnwindData, return_address: u32) -> Option<int> {
    match (data.rows)(wrap(return_address - 1) as u64) {
        Some(row) => match row.sp_cfa_offset {
            Some(offset) => Some(offset as int),
            None => None,
        },
        None => None,
    }
}

/// Whether the calls of a chain lead from a code range to `target`: the first one is
/// in that range, each further one is in the function that the one before calls,
/// which doesn't save `ra`, and the last one goes to `target`. `callees` are the
/// functions that are called. Each call comes with the size of the frame it is made
/// in.
pub open spec fn leads_to(
    data: UnwindData,
    start: u32,
    end: u32,
    chain: Seq<(u32, u32)>,
    callees: Seq<u32>,
    target: u32,
) -> bool {
    &&& chain.len() == callees.len()
    &&& chain.len() > 0
    &&& callees.last() == target
    &&& data.calls(start, end).contains((chain[0].0, Some(callees[0])))
    &&& forall|i: int|
        0 < i < chain.len() ==> makes_call(
            data,
            callees[i - 1],
            (#[trigger] chain[i]).0,
            callees[i],
        ) && !(data.rows)(callees[i - 1] as u64)->0.function_saves_ra
    &&& forall|i: int|
        0 <= i < chain.len() ==> (frame_size(data, (#[trigger] chain[i]).0) matches Some(size)
            && chain[i].1 == wrap(size))
}

/// A chain of calls leads from the code range to the target.
pub proof fn law_chain_leads_to_target(
    data: UnwindData,
    start: u32,
    end: u32,
    target: u32,
    depth: nat,
)
    ensures
        data.call_chain(start, end, target, depth) matches Some(chain) ==> exists|
            callees: Seq<u32>,
        |
            leads_to(data, start, end, chain, callees, target),
    decreases depth, 0nat,
{
    let calls = data.calls(start, end);
    if let Some(chain) = data.call_chain(start, end, target, depth) {
        if let Some(return_address) = direct_call(calls, target) {
            lemma_direct_call(calls, target);
            assert(chain =~= seq![data.link(return_address)->0]);
            assert(leads_to(data, start, end, chain, seq![target], target));
        } else {
            lemma_indirect_chain_leads(data, calls, target, (depth - 1) as nat);
            let callees = choose|callees: Seq<u32>|
                leads_on(data, calls, chain, callees, target);
            assert(leads_to(data, start, end, chain, callees, target));
        }
    }
}

/// Like `leads_to`, from some calls rather than a code range.
spec fn leads_on(
    data: UnwindData,
    calls: Seq<(u32, Option<u32>)>,
    chain: Seq<(u32, u32)>,
    callees: Seq<u32>,
    target: u32,
) -> bool {
    &&& chain.len() == callees.len()
    &&& chain.len() > 0
    &&& callees.last() == target
    &&& calls.contains((chain[0].0, Some(callees[0])))
    &&& forall|i: int|
        0 < i < chain.len() ==> makes_call(
            data,
            callees[i - 1],
            (#[trigger] chain[i]).0,
            callees[i],
        ) && !(data.rows)(callees[i - 1] as u64)->0.function_saves_ra
    &&& forall|i: int|
        0 <= i < chain.len() ==> (frame_size(data, (#[trigger] chain[i]).0) matches Some(size)
            && chain[i].1 == wrap(size))
}

/// The first call to a target is one of the calls, and none before goes there.
proof fn lemma_direct_call(calls: Seq<(u32, Option<u32>)>, target: u32)
    ensures
        match direct_call(calls, target) {
            Some(return_address) => exists|i: int|
                0 <= i < calls.len() && #[trigger] calls[i] == (return_address, Some(target))
                    && forall|j: int| 0 <= j < i ==> (#[trigger] calls[j]).1 != Some(target),
            None => forall|j: int| 0 <= j < calls.len() ==> (#[trigger] calls[j]).1 != Some(target),
        },
    decreases calls.len(),
{
    if calls.len() > 0 {
        if calls[0].1 == Some(target) {
            assert(calls[0] == (direct_call(calls, target)->0, Some(target)));
        } else {
            let rest = calls.drop_first();
            lemma_direct_call(rest, target);
            match direct_call(calls, target) {
                Some(return_address) => {
                    let i = choose|i: int|
                        0 <= i < rest.len() && #[trigger] rest[i] == (return_address, Some(target))
                            && forall|j: int|
                            0 <= j < i ==> (#[trigger] rest[j]).1 != Some(target);
                    assert(calls[i + 1] == (return_address, Some(target)));
                    assert forall|j: int| 0 <= j < i + 1 implies (#[trigger] calls[j]).1 != Some(
                        target,
                    ) by {
                        if j > 0 {
                            assert(rest[j - 1] == calls[j]);
                        }
                    }
                },
                None => {
                    assert forall|j: int| 0 <= j < calls.len() implies (#[trigger] calls[j]).1
                        != Some(target) by {
                        if j > 0 {
                            assert(rest[j - 1] == calls[j]);
                        }
                    }
                },
            }
        }
    }
}

/// A chain that begins with one of some calls leads on from them.
proof fn lemma_indirect_chain_leads(
    data: UnwindData,
    calls: Seq<(u32, Option<u32>)>,
    target: u32,
    depth: nat,
)
    ensures
        data.indirect_chain(calls, target, depth) matches Some(chain) ==> exists|
            callees: Seq<u32>,
        |
            leads_on(data, calls, chain, callees, target),
    decreases depth, calls.len() + 1,
{
    if let Some(chain) = data.indirect_chain(calls, target, depth) {
        if begins_with_first(data, calls, target, depth) {
            let callee = calls[0].1->0;
            let link = data.link(calls[0].0)->0;
            let row = (data.rows)(callee as u64)->0;
            let tail = data.call_chain(row.function_start, row.function_end, target, depth)->0;
            law_chain_leads_to_target(data, row.function_start, row.function_end, target, depth);
            let more = choose|callees: Seq<u32>|
                leads_to(data, row.function_start, row.function_end, tail, callees, target);
            let callees = seq![callee] + more;
            assert(chain =~= seq![link] + tail);
            assert(calls[0] == (chain[0].0, Some(callees[0])));
            assert forall|i: int| 0 < i < chain.len() implies makes_call(
                data,
                callees[i - 1],
                (#[trigger] chain[i]).0,
                callees[i],
            ) && !(data.rows)(callees[i - 1] as u64)->0.function_saves_ra by {
                assert(chain[i] == tail[i - 1]);
                assert(callees[i] == more[i - 1]);
                if i > 1 {
                    assert(callees[i - 1] == more[i - 2]);
                }
            }
            assert forall|i: int| 0 <= i < chain.len() implies (frame_size(
                data,
                (#[trigger] chain[i]).0,
            ) matches Some(size) && chain[i].1 == wrap(size)) by {
                if i > 0 {
                    assert(chain[i] == tail[i - 1]);
                }
            }
            assert(calls.contains((chain[0].0, Some(callees[0]))));
            assert(callees.last() == more.last());
            assert(leads_on(data, calls, chain, callees, target));
        } else {
            let rest = calls.drop_first();
            lemma_indirect_chain_leads(data, rest, target, depth);
            let callees = choose|callees: Seq<u32>| leads_on(data, rest, chain, callees, target);
            let first = (chain[0].0, Some(callees[0]));
            let i = choose|i: int| 0 <= i < rest.len() && rest[i] == first;
            assert(calls[i + 1] == first);
            assert(leads_on(data, calls, chain, callees, target));
        }
    }
}

/// Whether a chain begins with the first of some calls: it goes to a function that
/// doesn't save `ra` and from which a chain leads to the target.
pub open spec fn begins_with_first(
    data: UnwindData,
    calls: Seq<(u32, Option<u32>)>,
    target: u32,
    depth: nat,
) -> bool {
    &&& calls.len() > 0
    &&& frame_size(data, calls[0].0) is Some
    &&& calls[0].1 matches Some(callee)
    &&& (data.rows)(callee as u64) matches Some(row)
    &&& !row.function_saves_ra
    &&& data.call_chain(row.function_start, row.function_end, target, depth) is Some
}

/// A call that goes to the target is taken, and no call before it does; if nothing is
/// known of the frame it is made in, there is no chain.
pub proof fn law_direct_call_is_taken(
    data: UnwindData,
    start: u32,
    end: u32,
    target: u32,
    depth: nat,
    i: int,
)
    requires
        0 <= i < data.calls(start, end).len(),
        data.calls(start, end)[i].1 == Some(target),
        forall|j: int| 0 <= j < i ==> (#[trigger] data.calls(start, end)[j]).1 != Some(target),
    ensures
        data.call_chain(start, end, target, depth) == (match frame_size(
            data,
            data.calls(start, end)[i].0,
        ) {
            Some(size) => Some(seq![(data.calls(start, end)[i].0, wrap(size))]),
            None => None,
        }),
{
    let calls = data.calls(start, end);
    lemma_direct_call(calls, target);
    let k = choose|k: int|
        0 <= k < calls.len() && #[trigger] calls[k] == (
            direct_call(calls, target)->0,
            Some(target),
        ) && forall|j: int| 0 <= j < k ==> (#[trigger] calls[j]).1 != Some(target);
    if k < i {
        assert(calls[k].1 == Some(target));
    } else if i < k {
        assert(calls[i].1 == Some(target));
    }
}

/// Where no call goes to the target, the first one is followed that goes to a function
/// which doesn't save `ra` and from which a chain with fewer intermediates leads to
/// the target; without any intermediates, or without such a call, there is no chain.
pub proof fn law_first_call_that_leads_on_is_followed(
    data: UnwindData,
    start: u32,
    end: u32,
    target: u32,
    depth: nat,
    i: int,
)
    requires
        0 <= i <= data.calls(start, end).len(),
        forall|j: int|
            0 <= j < data.calls(start, end).len() ==> (#[trigger] data.calls(start, end)[j]).1
                != Some(target),
        depth > 0 ==> forall|j: int|
            0 <= j < i ==> !begins_with_first(
                data,
                #[trigger] data.calls(start, end).skip(j),
                target,
                (depth - 1) as nat,
            ),
        depth > 0 && i < data.calls(start, end).len() ==> begins_with_first(
            data,
            data.calls(start, end).skip(i),
            target,
            (depth - 1) as nat,
        ),
    ensures
        ({
            let calls = data.calls(start, end);
            let chain = data.call_chain(start, end, target, depth);
            if depth == 0 || i == calls.len() {
                chain is None
            } else {
                let (return_address, callee) = calls[i];
                let row = (data.rows)(callee->0 as u64)->0;
                let tail = data.call_chain(
                    row.function_start,
                    row.function_end,
                    target,
                    (depth - 1) as nat,
                )->0;
                chain == Some(
                    seq![(return_address, wrap(frame_size(data, return_address)->0))] + tail,
                )
            }
        }),
{
    let calls = data.calls(start, end);
    lemma_direct_call(calls, target);
    if let Some(return_address) = direct_call(calls, target) {
        let k = choose|k: int|
            0 <= k < calls.len() && #[trigger] calls[k] == (return_address, Some(target))
                && forall|j: int| 0 <= j < k ==> (#[trigger] calls[j]).1 != Some(target);
        assert(calls[k].1 == Some(target));
    }
    if depth > 0 {
        lemma_skip_calls(data, calls, target, (depth - 1) as nat, 0, i);
        assert(calls.skip(0) =~= calls);
    }
}

/// Calls that lead nowhere are skipped.
proof fn lemma_skip_calls(
    data: UnwindData,
    calls: Seq<(u32, Option<u32>)>,
    target: u32,
    depth: nat,
    from: int,
    to: int,
)
    requires
        0 <= from <= to <= calls.len(),
        forall|j: int|
            from <= j < to ==> !begins_with_first(data, #[trigger] calls.skip(j), target, depth),
    ensures
        data.indirect_chain(calls.skip(from), target, depth) == data.indirect_chain(
            calls.skip(to),
            target,
            depth,
        ),
    decreases to - from,
{
    if from < to {
        lemma_skip_calls(data, calls, target, depth, from + 1, to);
        assert(calls.skip(from).drop_first() =~= calls.skip(from + 1));
        assert(!begins_with_first(data, calls.skip(from), target, depth));
    }
}

/// The value of a register that a function with the given rules saved on the stack.
pub open spec fn is_saved(
    row: RowRules,
    reg: u16,
    cfa: int,
    words: Map<u32, u32>,
    value: u32,
) -> bool {
    &&& row.rules.dom().contains(reg)
    &&& row.rules[reg] matches Rule::Offset(offset)
    &&& words.dom().contains(wrap(cfa + offset))
    &&& words[wrap(cfa + offset)] == value
}

/// Whether a reconstructed frame can be the caller of another frame of the same kind:
/// its call goes to the function of that frame, which doesn't save `ra`, and it sits
/// right above that frame.
pub open spec fn calls_recovered(data: UnwindData, callee: Frame, frame: Frame) -> bool {
    &&& exists|caller: u32, function: u32, next: u32| #[trigger]
        makes_call(data, caller, frame.pc, function) && #[trigger] makes_call(
            data,
            function,
            callee.pc,
            next,
        ) && !(data.rows)(function as u64)->0.function_saves_ra
    &&& frame_size(data, callee.pc) matches Some(size) && frame.sp == wrap(callee.sp + size)
}

/// Whether the return address into a caller was found where a reconstructed frame
/// saved it: it follows a call to that frame's function.
pub open spec fn saved_return_address(
    data: UnwindData,
    words: Map<u32, u32>,
    frame: Frame,
    return_address: u32,
) -> bool {
    &&& data.call_before(return_address) matches Some(Call { target: Some(function) })
    &&& exists|callee: u32| #[trigger] makes_call(data, function, frame.pc, callee)
    &&& (data.rows)(wrap(frame.pc - 1) as u64) matches Some(row)
    &&& frame_size(data, frame.pc) matches Some(size)
    &&& is_saved(row, 1, frame.sp + size, words, return_address)
}

/// Reconstructed frames come innermost first: the first one calls the function that
/// lost its return address and sits right above its frame, each further one calls the
/// function of the frame before and sits right above it, and the last one saved the
/// return address that was found on the stack.
pub proof fn law_recovered_frames_come_innermost_first(
    data: UnwindData,
    cfa: u32,
    function_start: u32,
    words: Map<u32, u32>,
    sp_is_placeholder: bool,
    addr: u32,
    steps: nat,
)
    requires
        data.recover_from(cfa, function_start, words, sp_is_placeholder, addr, steps) is Some,
    ensures
        ({
            let (frames, caller) = data.recover_from(
                cfa,
                function_start,
                words,
                sp_is_placeholder,
                addr,
                steps,
            )->0;
            &&& frames.len() > 0
            &&& frames[0].sp == cfa
            &&& exists|function: u32| #[trigger]
                makes_call(data, function, frames[0].pc, function_start)
            &&& forall|k: int|
                0 < k < frames.len() ==> calls_recovered(data, frames[k - 1], #[trigger] frames[k])
            &&& saved_return_address(data, words, frames.last(), caller.pc)
            &&& forall|k: int|
                0 <= k < frames.len() ==> (#[trigger] frames[k]).recovered
                    && frames[k].is_return_address
        }),
    decreases steps,
{
    let word = word_at(words, addr)->0;
    if data.recover_at(cfa, function_start, words, sp_is_placeholder, addr, word) is None {
        law_recovered_frames_come_innermost_first(
            data,
            cfa,
            function_start,
            words,
            sp_is_placeholder,
            wrap(addr + 4),
            (steps - 1) as nat,
        );
    } else {
        let function = data.call_before(word)->0.target->0;
        let entry = (data.rows)(function as u64)->0;
        let chain = data.call_chain(entry.function_start, entry.function_end, function_start, 8)->0;
        let frames = chain_frames(chain, cfa);
        lemma_chain_frames(data, cfa, function_start, function, chain);
        let frame = frames.last();
        let size = frame_size(data, frame.pc)->0;
        let row = (data.rows)(wrap(frame.pc - 1) as u64)->0;
        assert(frame == chain_frame(chain, cfa, 0));
        lemma_wrap_inner(frame.sp as int, size);
        if let Rule::Offset(offset) = row.rules[1] {
            lemma_wrap_inner(offset as int, frame.sp + size);
            assert(is_saved(row, 1, frame.sp + size, words, word));
        }
    }
}

/// The frames of the functions that make the calls of a chain.
proof fn lemma_chain_frames(
    data: UnwindData,
    cfa: u32,
    function_start: u32,
    function: u32,
    chain: Seq<(u32, u32)>,
)
    requires
        (data.rows)(function as u64) matches Some(entry) && data.call_chain(
            entry.function_start,
            entry.function_end,
            function_start,
            8,
        ) == Some(chain),
    ensures
        ({
            let frames = chain_frames(chain, cfa);
            &&& frames.len() == chain.len()
            &&& frames.len() > 0
            &&& frames[0].sp == cfa
            &&& exists|f: u32| #[trigger] makes_call(data, f, frames[0].pc, function_start)
            &&& forall|k: int|
                0 < k < frames.len() ==> calls_recovered(data, frames[k - 1], #[trigger] frames[k])
            &&& exists|callee: u32| #[trigger]
                makes_call(data, function, frames.last().pc, callee)
            &&& frame_size(data, chain[0].0) matches Some(size) && chain[0].1 == wrap(size)
        }),
{
    let entry = (data.rows)(function as u64)->0;
    let start = entry.function_start;
    let end = entry.function_end;
    let n = chain.len();
    law_chain_leads_to_target(data, start, end, function_start, 8);
    let callees = choose|callees: Seq<u32>|
        leads_to(data, start, end, chain, callees, function_start);
    let frames = chain_frames(chain, cfa);
    assert(makes_call(data, function, chain[0].0, callees[0]));
    assert(frames[0] == chain_frame(chain, cfa, n - 1));
    assert(frames.last() == chain_frame(chain, cfa, 0));
    let caller_of = |i: int| if i > 0 { callees[i - 1] } else { function };
    assert forall|i: int| 0 <= i < n implies makes_call(
        data,
        #[trigger] caller_of(i),
        chain[i].0,
        callees[i],
    ) by {
        if i > 0 {
            assert(chain[i] == chain[i]);
        }
    }
    assert(makes_call(data, caller_of(n - 1), frames[0].pc, function_start));
    assert forall|k: int| 0 < k < frames.len() implies calls_recovered(
        data,
        frames[k - 1],
        #[trigger] frames[k],
    ) by {
        let i = n - 1 - k;
        assert(frames[k] == chain_frame(chain, cfa, i));
        assert(frames[k - 1] == chain_frame(chain, cfa, i + 1));
        let next = chain[i + 1];
        assert(makes_call(data, caller_of(i), frames[k].pc, callees[i]));
        assert(makes_call(data, caller_of(i + 1), frames[k - 1].pc, callees[i + 1]));
        assert(caller_of(i + 1) == callees[i]);
        let size = frame_size(data, next.0)->0;
        lemma_wrap_inner(chain_sp(chain, cfa, i + 1) as int, size);
    }
}

/// Wrapping a summand first changes nothing.
proof fn lemma_wrap_inner(x: int, y: int)
    ensures
        wrap(x + wrap(y)) == wrap(x + y),
        wrap(wrap(y) + x) == wrap(y + x),
{
    vstd::arithmetic::div_mod::lemma_add_mod_noop_right(x, y, 0x1_0000_0000);
}

/// The sum of the frame sizes along a chain of calls.
pub open spec fn total_size(chain: Seq<(u32, u32)>) -> int
    decreases chain.len(),
{
    if chain.len() == 0 {
        0
    } else {
        chain[0].1 + total_size(chain.drop_first())
    }
}

/// The stack pointer of a later function in a chain doesn't depend on earlier ones.
proof fn lemma_chain_sp_skip(chain: Seq<(u32, u32)>, cfa: u32, i: int)
    requires
        chain.len() > 0,
        i >= 0,
    ensures
        chain_sp(chain, cfa, i + 1) == chain_sp(chain.drop_first(), cfa, i),
    decreases chain.len() - i,
{
    if i + 2 < chain.len() {
        lemma_chain_sp_skip(chain, cfa, i + 1);
        assert(chain.drop_first()[i + 1] == chain[i + 2]);
    }
}

/// The frames along a chain of calls sit on top of each other.
proof fn lemma_total_size(chain: Seq<(u32, u32)>, cfa: u32)
    requires
        chain.len() > 0,
    ensures
        wrap(chain_sp(chain, cfa, 0) + chain[0].1) == wrap(cfa + total_size(chain)),
    decreases chain.len(),
{
    let rest = chain.drop_first();
    if rest.len() > 0 {
        lemma_total_size(rest, cfa);
        lemma_chain_sp_skip(chain, cfa, 0);
        lemma_wrap_inner(chain[0].1 as int, cfa + total_size(rest));
        assert(rest[0] == chain[1]);
    } else {
        assert(total_size(rest) == 0);
    }
}

/// Whether callers can be reconstructed from the return address `word` at `addr`: the
/// function that the call before it goes to leads, by the given chain of calls, to
/// the one that lost its return address, and the frames along that chain place the
/// return address that the function saved at `addr`.
pub open spec fn fits(
    data: UnwindData,
    cfa: u32,
    function_start: u32,
    addr: u32,
    word: u32,
    chain: Seq<(u32, u32)>,
) -> bool {
    &&& data.call_before(word) matches Some(Call { target: Some(function) })
    &&& (data.rows)(function as u64) matches Some(entry)
    &&& data.call_chain(entry.function_start, entry.function_end, function_start, 8) == Some(chain)
    &&& (data.rows)(wrap(chain[0].0 - 1) as u64) matches Some(row)
    &&& row.rules.dom().contains(1)
    &&& row.rules[1] matches Rule::Offset(offset)
    &&& wrap(cfa + total_size(chain) + offset) == addr
}

/// Callers are reconstructed from a return address exactly if it fits, and the
/// registers of the frame above them are those that the outermost of them saved.
pub proof fn law_fitting_return_address_is_used(
    data: UnwindData,
    cfa: u32,
    function_start: u32,
    words: Map<u32, u32>,
    sp_is_placeholder: bool,
    addr: u32,
    word: u32,
)
    ensures
        ({
            let recovered = data.recover_at(
                cfa,
                function_start,
                words,
                sp_is_placeholder,
                addr,
                word,
            );
            &&& recovered is Some <==> exists|chain: Seq<(u32, u32)>| #[trigger]
                fits(data, cfa, function_start, addr, word, chain)
            &&& forall|chain: Seq<(u32, u32)>| #[trigger]
                fits(data, cfa, function_start, addr, word, chain) ==> {
                    let (frames, caller) = recovered->0;
                    let row = (data.rows)(wrap(chain[0].0 - 1) as u64)->0;
                    let top = cfa + total_size(chain);
                    &&& frames.len() == chain.len()
                    &&& forall|k: int|
                        0 <= k < frames.len() ==> (#[trigger] frames[k]).pc == chain[chain.len() - 1
                            - k].0
                    &&& caller.pc == word
                    &&& !caller.pc_is_return_address
                    &&& caller.sp_is_placeholder == sp_is_placeholder
                    &&& forall|reg: u16|
                        0 < reg < 32 ==> (match #[trigger] caller.get(reg as int) {
                            Some(value) => is_saved(row, reg, top, words, value) || (reg == 2
                                && value == wrap(top) && forall|other: u32|
                                !is_saved(row, reg, top, words, other)),
                            None => reg != 2 && forall|other: u32|
                                !is_saved(row, reg, top, words, other),
                        })
                    &&& forall|reg: u16| reg >= 32 ==> (#[trigger] caller.get(reg as int)) is None
                }
        }),
{
    let recovered = data.recover_at(cfa, function_start, words, sp_is_placeholder, addr, word);
    if let Some(Call { target: Some(function) }) = data.call_before(word) {
        if let Some(entry) = (data.rows)(function as u64) {
            if let Some(chain) = data.call_chain(
                entry.function_start,
                entry.function_end,
                function_start,
                8,
            ) {
                lemma_chain_frames(data, cfa, function_start, function, chain);
                lemma_total_size(chain, cfa);
                let top = cfa + total_size(chain);
                let row = (data.rows)(wrap(chain[0].0 - 1) as u64)->0;
                if row.rules.dom().contains(1) {
                    if let Rule::Offset(offset) = row.rules[1] {
                        lemma_wrap_inner(offset as int, top);
                        assert(recovered is Some <==> fits(
                            data,
                            cfa,
                            function_start,
                            addr,
                            word,
                            chain,
                        ));
                    }
                }
                if let Some((frames, caller)) = recovered {
                    assert(frames == chain_frames(chain, cfa));
                    assert forall|reg: u16| 0 < reg < 32 implies (match #[trigger] caller.get(
                        reg as int,
                    ) {
                        Some(value) => is_saved(row, reg, top, words, value) || (reg == 2 && value
                            == wrap(top) && forall|other: u32|
                            !is_saved(row, reg, top, words, other)),
                        None => reg != 2 && forall|other: u32|
                            !is_saved(row, reg, top, words, other),
                    }) by {
                        if row.rules.dom().contains(reg) {
                            if let Rule::Offset(offset) = row.rules[reg] {
                                lemma_wrap_inner(offset as int, top);
                            }
                        }
                    }
                }
            }
        }
    }
}

/// The stack is scanned upwards from the frame that lost its return address, as far as
/// it was dumped, and the first return address that fits is used.
pub proof fn law_first_fitting_return_address_is_used(
    data: UnwindData,
    cfa: u32,
    function_start: u32,
    words: Map<u32, u32>,
    sp_is_placeholder: bool,
    k: nat,
)
    requires
        k < 0x1_0000_0000,
        forall|j: nat|
            j < k ==> words.dom().contains(#[trigger] wrap(cfa + 4 * j)) && forall|
                chain: Seq<(u32, u32)>,
            |
                !#[trigger] fits(
                    data,
                    cfa,
                    function_start,
                    wrap(cfa + 4 * j),
                    words[wrap(cfa + 4 * j)],
                    chain,
                ),
    ensures
        ({
            let addr = wrap(cfa + 4 * k);
            let recovered = data.recover(cfa, function_start, words, sp_is_placeholder);
            &&& !words.dom().contains(addr) ==> recovered is None
            &&& words.dom().contains(addr) && (exists|chain: Seq<(u32, u32)>| #[trigger]
                fits(data, cfa, function_start, addr, words[addr], chain)) ==> recovered
                == data.recover_at(
                cfa,
                function_start,
                words,
                sp_is_placeholder,
                addr,
                words[addr],
            )
        }),
{
    assert(wrap(cfa as int) == cfa);
    lemma_scan(data, cfa, function_start, words, sp_is_placeholder, 0, k);
    let addr = wrap(cfa + 4 * k);
    if words.dom().contains(addr) {
        law_fitting_return_address_is_used(
            data,
            cfa,
            function_start,
            words,
            sp_is_placeholder,
            addr,
            words[addr],
        );
    }
}

/// Words that don't fit are skipped.
proof fn lemma_scan(
    data: UnwindData,
    cfa: u32,
    function_start: u32,
    words: Map<u32, u32>,
    sp_is_placeholder: bool,
    from: nat,
    to: nat,
)
    requires
        from <= to < ADDRESS_COUNT,
        forall|j: nat|
            from <= j < to ==> words.dom().contains(#[trigger] wrap(cfa + 4 * j)) && forall|
                chain: Seq<(u32, u32)>,
            |
                !#[trigger] fits(
                    data,
                    cfa,
                    function_start,
                    wrap(cfa + 4 * j),
                    words[wrap(cfa + 4 * j)],
                    chain,
                ),
    ensures
        data.recover_from(
            cfa,
            function_start,
            words,
            sp_is_placeholder,
            wrap(cfa + 4 * from),
            (ADDRESS_COUNT - from) as nat,
        ) == data.recover_from(
            cfa,
            function_start,
            words,
            sp_is_placeholder,
            wrap(cfa + 4 * to),
            (ADDRESS_COUNT - to) as nat,
        ),
    decreases to - from,
{
    if from < to {
        let addr = wrap(cfa + 4 * from);
        law_fitting_return_address_is_used(
            data,
            cfa,
            function_start,
            words,
            sp_is_placeholder,
            addr,
            words[addr],
        );
        lemma_wrap_inner(4, cfa + 4 * from);
        assert(cfa + 4 * from + 4 == cfa + 4 * (from + 1));
        lemma_scan(data, cfa, function_start, words, sp_is_placeholder, from + 1, to);
    }
}

/// The frame that registers are those of, if their stack pointer is `sp`.
pub open spec fn frame_of(registers: RegisterValues, sp: u32, is_return_address: bool) -> Frame {
    Frame { pc: registers.pc, sp, is_return_address, recovered: false }
}

/// The address that the unwind rules of a frame are looked up at: a return address is
/// moved back into the call.
pub open spec fn rules_address(frame: Frame) -> u32 {
    if !frame.is_return_address {
        frame.pc
    } else if frame.pc == 0 {
        0xffff_ffff
    } else {
        (frame.pc - 1) as u32
    }
}

/// A walk goes on whenever it can: from a frame below the limit whose caller sits
/// above it (or level with it, for the innermost frame, elsewhere in the code) it goes
/// on with that caller, by the address and the stack pointer that were found.
#[verifier::rlimit(40)]
#[verifier::spinoff_prover]
pub proof fn law_walk_goes_on(
    data: UnwindData,
    registers: RegisterValues,
    is_return_address: bool,
    words: Map<u32, u32>,
    max_frames: nat,
    frames: Seq<Frame>,
    sp: u32,
    caller: RegisterValues,
    caller_sp: u32,
)
    requires
        registers.get(2) == Some(sp),
        frames.len() < max_frames,
        data.step(
            registers,
            rules_address(frame_of(registers, sp, is_return_address)),
            words,
            frames.len() == 0,
        ) == Ok::<RegisterValues, Failure>(caller),
        caller.get(2) == Some(caller_sp),
        caller_sp > sp || (caller_sp == sp && frames.len() == 0 && caller.pc != registers.pc),
    ensures
        ({
            let walk = data.walk(registers, is_return_address, words, max_frames, frames);
            let next = frames.push(frame_of(registers, sp, is_return_address));
            &&& walk == data.walk(caller, true, words, max_frames, next)
            &&& walk.0.len() > frames.len()
            &&& walk.0.take(next.len() as int) == next
            &&& frames.len() + 1 < max_frames ==> walk.0.len() > next.len() && walk.0[next.len() as
                int] == Frame {
                pc: caller.pc,
                sp: caller_sp,
                is_return_address: true,
                recovered: false,
            }
        }),
{
    let frame = frame_of(registers, sp, is_return_address);
    assert(frame.lookup() == rules_address(frame));
    let next = frames.push(frame);
    lemma_walk_keeps(data, caller, true, words, max_frames, next);
    let walk = data.walk(registers, is_return_address, words, max_frames, frames);
    if next.len() < max_frames {
        assert(walk.0.take(next.len() as int + 1)[next.len() as int] == next.push(
            frame_of(caller, caller_sp, true),
        )[next.len() as int]);
    }
}

/// A walk that comes to a frame whose function lost its return address goes on with the
/// callers that are reconstructed, if the limit leaves room for them and the frame above
/// them sits above the frame.
#[verifier::rlimit(60)]
#[verifier::spinoff_prover]
pub proof fn law_walk_goes_on_with_recovered_frames(
    data: UnwindData,
    registers: RegisterValues,
    is_return_address: bool,
    words: Map<u32, u32>,
    max_frames: nat,
    frames: Seq<Frame>,
    sp: u32,
    cfa: u32,
    function_start: u32,
)
    requires
        registers.get(2) == Some(sp),
        frames.len() < max_frames,
        data.step(
            registers,
            rules_address(frame_of(registers, sp, is_return_address)),
            words,
            frames.len() == 0,
        ) == Err::<RegisterValues, Failure>(Failure::ReturnAddressLost { cfa, function_start }),
    ensures
        ({
            let walk = data.walk(registers, is_return_address, words, max_frames, frames);
            let next = frames.push(frame_of(registers, sp, is_return_address));
            match data.recover(cfa, function_start, words, registers.sp_is_placeholder) {
                None => walk == (next, Stop::ReturnAddressLost(registers.pc)),
                Some((recovered, caller)) => {
                    let all = next + recovered;
                    if all.len() > max_frames {
                        walk == (next, Stop::TooManyFrames)
                    } else if caller.get(2) matches Some(caller_sp) && caller_sp > sp {
                        walk == data.walk(caller, true, words, max_frames, all)
                    } else if caller.get(2) is Some || caller.pc == registers.pc {
                        walk == (all, Stop::Inconsistent)
                    } else {
                        walk == (all, Stop::UnknownRegister(2))
                    }
                },
            }
        }),
{
    let frame = frame_of(registers, sp, is_return_address);
    let next = frames.push(frame);
    assert(frame.lookup() == rules_address(frame));
    assert(frames.len() > 0);
    let walk = data.walk(registers, is_return_address, words, max_frames, frames);
    let (all, caller) = data.next_frame(registers, words, max_frames, next);
    assert(next.last() == frame);
    assert(walk == match caller {
        Err(stop) => (all, stop),
        Ok(caller) => if goes_down(registers, sp, caller, false) {
            (all, Stop::Inconsistent)
        } else {
            data.walk(caller, true, words, max_frames, all)
        },
    });
    if let Some((recovered, caller)) = data.recover(
        cfa,
        function_start,
        words,
        registers.sp_is_placeholder,
    ) {
        lemma_unknown_sp_ends_walk(data, caller, words, max_frames, next + recovered);
    }
}

/// A walk can't go on with registers whose stack pointer isn't known.
proof fn lemma_unknown_sp_ends_walk(
    data: UnwindData,
    registers: RegisterValues,
    words: Map<u32, u32>,
    max_frames: nat,
    frames: Seq<Frame>,
)
    ensures
        registers.get(2) is None ==> data.walk(registers, true, words, max_frames, frames) == (
            frames,
            Stop::UnknownRegister(2),
        ),
{
}

/// A walk stops at a frame for one of these reasons only: its stack pointer isn't known,
/// the limit is reached, there is no way on from it, or its caller doesn't sit above it.
pub proof fn law_walk_stops_for_a_reason(
    data: UnwindData,
    registers: RegisterValues,
    is_return_address: bool,
    words: Map<u32, u32>,
    max_frames: nat,
    frames: Seq<Frame>,
)
    ensures
        ({
            let walk = data.walk(registers, is_return_address, words, max_frames, frames);
            match registers.get(2) {
                None => walk == (frames, Stop::UnknownRegister(2)),
                Some(sp) => {
                    let frame = frame_of(registers, sp, is_return_address);
                    let next = frames.push(frame);
                    let step = data.step(
                        registers,
                        rules_address(frame),
                        words,
                        frames.len() == 0,
                    );
                    if frames.len() >= max_frames {
                        walk == (frames, Stop::TooManyFrames)
                    } else {
                        &&& step matches Err(Failure::Stop(stop)) ==> walk == (next, stop)
                        &&& step matches Ok(caller) ==> {
                            let level = frames.len() > 0 || caller.pc == registers.pc;
                            &&& caller.get(2) matches Some(caller_sp) ==> (walk == (
                                next,
                                Stop::Inconsistent,
                            ) <== caller_sp < sp || (caller_sp == sp && level))
                            &&& caller.get(2) is None ==> walk == (
                                next,
                                if caller.pc == registers.pc {
                                    Stop::Inconsistent
                                } else {
                                    Stop::UnknownRegister(2)
                                },
                            )
                        }
                    }
                },
            }
        }),
{
    if let Some(sp) = registers.get(2) {
        let frame = frame_of(registers, sp, is_return_address);
        assert(frame.lookup() == rules_address(frame));
        if let Ok(caller) = data.step(
            registers,
            rules_address(frame),
            words,
            frames.len() == 0,
        ) {
            lemma_unknown_sp_ends_walk(data, caller, words, max_frames, frames.push(frame));
        }
    }
}

/// Unwinding is a walk from the registers on, with nothing found before.
pub proof fn law_unwinding_is_a_walk(
    data: UnwindData,
    registers: RegisterValues,
    words: Map<u32, u32>,
    max_frames: nat,
)
    ensures
        registers.get(2) is Some && max_frames > 0 ==> data.unwind(registers, words, max_frames)
            == data.walk(
            registers,
            registers.pc_is_return_address,
            words,
            max_frames,
            Seq::<Frame>::empty(),
        ),
        registers.get(2) is Some && max_frames == 0 ==> data.unwind(registers, words, max_frames).1
            == Stop::TooManyFrames,
        registers.get(2) is None ==> data.unwind(registers, words, max_frames).1
            == Stop::UnknownRegister(2),
        !(registers.get(2) is Some && max_frames > 0) ==> data.unwind(
            registers,
            words,
            max_frames,
        ).0.len() == 1,
        ({
            let start = data.unwind(registers, words, max_frames).0[0];
            &&& start.pc == registers.pc
            &&& start.is_return_address == registers.pc_is_return_address
            &&& !start.recovered
            &&& registers.get(2) matches Some(sp) ==> start.sp == sp
        }),
{
    law_starting_frame_comes_first(data, registers, words, max_frames);
}

/// A walk keeps the frames found so far, and adds one for the registers it goes on with.
proof fn lemma_walk_keeps(
    data: UnwindData,
    registers: RegisterValues,
    is_return_address: bool,
    words: Map<u32, u32>,
    max_frames: nat,
    frames: Seq<Frame>,
)
    ensures
        ({
            let walk = data.walk(registers, is_return_address, words, max_frames, frames).0;
            &&& walk.len() >= frames.len()
            &&& walk.take(frames.len() as int) == frames
            &&& registers.get(2) matches Some(sp) ==> frames.len() < max_frames ==> walk.len()
                > frames.len() && walk.take(frames.len() as int + 1) == frames.push(
                frame_of(registers, sp, is_return_address),
            )
        }),
    decreases max_frames - frames.len(),
{
    let walk = data.walk(registers, is_return_address, words, max_frames, frames).0;
    assert(frames.take(frames.len() as int) =~= frames);
    if let Some(sp) = registers.get(2) {
        if frames.len() < max_frames {
            let pushed = frames.push(frame_of(registers, sp, is_return_address));
            let (next, caller) = data.next_frame(registers, words, max_frames, pushed);
            assert(next.take(pushed.len() as int) =~= pushed);
            if let Ok(caller) = caller {
                if !goes_down(registers, sp, caller, frames.len() == 0) {
                    lemma_walk_keeps(data, caller, true, words, max_frames, next);
                    assert forall|i: int| 0 <= i < next.len() implies walk[i] == next[i] by {
                        assert(walk.take(next.len() as int)[i] == next[i]);
                    }
                }
            }
            assert forall|i: int| 0 <= i < pushed.len() implies next[i] == pushed[i] by {
                assert(next.take(pushed.len() as int)[i] == pushed[i]);
            }
            assert(walk.take(pushed.len() as int) =~= pushed);
            assert(walk.take(frames.len() as int) =~= frames);
        }
    }
}

/// Whether a reconstructed frame is where it belongs, after the frame of its callee: it
/// calls the callee's function and sits right above it. A callee that wasn't
/// reconstructed is one whose function lost its return address.
pub open spec fn recovered_above(
    data: UnwindData,
    words: Map<u32, u32>,
    callee: Frame,
    frame: Frame,
) -> bool {
    if callee.recovered {
        calls_recovered(data, callee, frame)
    } else {
        exists|registers: RegisterValues, function_start: u32, function: u32|
            {
                &&& registers.pc == callee.pc
                &&& registers.get(2) == Some(callee.sp)
                &&& #[trigger] data.step(registers, rules_address(callee), words, false) == Err::<
                    RegisterValues,
                    Failure,
                >(Failure::ReturnAddressLost { cfa: frame.sp, function_start })
                &&& #[trigger] makes_call(data, function, frame.pc, function_start)
            }
    }
}

/// Whether all reconstructed frames are where they belong.
pub open spec fn recovered_in_place(
    data: UnwindData,
    words: Map<u32, u32>,
    frames: Seq<Frame>,
) -> bool {
    &&& forall|i: int|
        0 <= i < frames.len() && (#[trigger] frames[i]).recovered ==> i > 0 && recovered_above(
            data,
            words,
            frames[i - 1],
            frames[i],
        )
    &&& forall|i: int|
        0 < i < frames.len() && frames[i - 1].recovered && !(#[trigger] frames[i]).recovered
            ==> saved_return_address(data, words, frames[i - 1], frames[i].pc)
}

/// Among all frames of a call chain, the reconstructed ones are where they belong: each
/// calls the function of the frame before it and sits right above that frame, and the
/// last of them saved the address that the frame after it returns to.
#[verifier::rlimit(40)]
#[verifier::spinoff_prover]
pub proof fn law_recovered_frames_are_in_place(
    data: UnwindData,
    registers: RegisterValues,
    words: Map<u32, u32>,
    max_frames: nat,
)
    ensures
        recovered_in_place(data, words, data.unwind(registers, words, max_frames).0),
{
    if registers.get(2) is Some && max_frames > 0 {
        lemma_walk_in_place(
            data,
            registers,
            registers.pc_is_return_address,
            words,
            max_frames,
            Seq::<Frame>::empty(),
        );
    }
}

/// A walk keeps reconstructed frames where they belong.
#[verifier::rlimit(40)]
#[verifier::spinoff_prover]
proof fn lemma_walk_in_place(
    data: UnwindData,
    registers: RegisterValues,
    is_return_address: bool,
    words: Map<u32, u32>,
    max_frames: nat,
    frames: Seq<Frame>,
)
    requires
        recovered_in_place(data, words, frames),
        frames.len() > 0 && frames.last().recovered ==> saved_return_address(
            data,
            words,
            frames.last(),
            registers.pc,
        ),
    ensures
        recovered_in_place(
            data,
            words,
            data.walk(registers, is_return_address, words, max_frames, frames).0,
        ),
    decreases max_frames - frames.len(),
{
    if let Some(sp) = registers.get(2) {
        if frames.len() < max_frames {
            let frame = frame_of(registers, sp, is_return_address);
            let pushed = frames.push(frame);
            let (next, caller) = data.next_frame(registers, words, max_frames, pushed);
            assert(frame.lookup() == rules_address(frame));
            lemma_pushed_in_place(data, words, frames, frame);
            let step = data.step(registers, frame.lookup(), words, pushed.len() == 1);
            if let Err(Failure::ReturnAddressLost { cfa, function_start }) = step {
                if let Some((recovered, above)) = data.recover(
                    cfa,
                    function_start,
                    words,
                    registers.sp_is_placeholder,
                ) {
                    lemma_recovered_in_place(
                        data,
                        registers,
                        words,
                        cfa,
                        function_start,
                        pushed,
                    );
                }
            }
            if let Ok(caller) = caller {
                if !goes_down(registers, sp, caller, frames.len() == 0) {
                    lemma_walk_in_place(data, caller, true, words, max_frames, next);
                }
            }
        }
    }
}

/// A frame that wasn't reconstructed may follow a reconstructed one that saved the
/// address it returns to.
proof fn lemma_pushed_in_place(
    data: UnwindData,
    words: Map<u32, u32>,
    frames: Seq<Frame>,
    frame: Frame,
)
    requires
        recovered_in_place(data, words, frames),
        !frame.recovered,
        frames.len() > 0 && frames.last().recovered ==> saved_return_address(
            data,
            words,
            frames.last(),
            frame.pc,
        ),
    ensures
        recovered_in_place(data, words, frames.push(frame)),
{
    let pushed = frames.push(frame);
    assert forall|i: int| 0 <= i < pushed.len() && (#[trigger] pushed[i]).recovered implies i > 0
        && recovered_above(data, words, pushed[i - 1], pushed[i]) by {
        assert(pushed[i] == frames[i]);
        assert(i > 0 ==> pushed[i - 1] == frames[i - 1]);
    }
    assert forall|i: int|
        0 < i < pushed.len() && pushed[i - 1].recovered && !(
        #[trigger] pushed[i]).recovered implies saved_return_address(
        data,
        words,
        pushed[i - 1],
        pushed[i].pc,
    ) by {
        assert(pushed[i - 1] == frames[i - 1]);
        assert(i < frames.len() ==> pushed[i] == frames[i]);
    }
}

/// Reconstructed frames belong after the frame whose function lost its return address.
proof fn lemma_recovered_in_place(
    data: UnwindData,
    registers: RegisterValues,
    words: Map<u32, u32>,
    cfa: u32,
    function_start: u32,
    frames: Seq<Frame>,
)
    requires
        recovered_in_place(data, words, frames),
        frames.len() > 0,
        !frames.last().recovered,
        registers.pc == frames.last().pc,
        registers.get(2) == Some(frames.last().sp),
        data.step(registers, rules_address(frames.last()), words, frames.len() == 1) == Err::<
            RegisterValues,
            Failure,
        >(Failure::ReturnAddressLost { cfa, function_start }),
        data.recover(cfa, function_start, words, registers.sp_is_placeholder) is Some,
    ensures
        ({
            let (recovered, above) = data.recover(
                cfa,
                function_start,
                words,
                registers.sp_is_placeholder,
            )->0;
            let all = frames + recovered;
            &&& recovered_in_place(data, words, all)
            &&& all.last().recovered
            &&& saved_return_address(data, words, all.last(), above.pc)
        }),
{
    let (recovered, above) = data.recover(
        cfa,
        function_start,
        words,
        registers.sp_is_placeholder,
    )->0;
    let all = frames + recovered;
    let n = frames.len();
    law_recovered_frames_come_innermost_first(
        data,
        cfa,
        function_start,
        words,
        registers.sp_is_placeholder,
        cfa,
        ADDRESS_COUNT as nat,
    );
    assert(all.last() == recovered.last());
    assert forall|i: int| 0 <= i < all.len() && (#[trigger] all[i]).recovered implies i > 0
        && recovered_above(data, words, all[i - 1], all[i]) by {
        if i < n {
            assert(all[i] == frames[i]);
            assert(i > 0 ==> all[i - 1] == frames[i - 1]);
        } else if i == n {
            assert(all[i] == recovered[0]);
            assert(all[i - 1] == frames.last());
        } else {
            assert(all[i] == recovered[i - n]);
            assert(all[i - 1] == recovered[i - n - 1]);
        }
    }
    assert forall|i: int|
        0 < i < all.len() && all[i - 1].recovered && !(
        #[trigger] all[i]).recovered implies saved_return_address(
        data,
        words,
        all[i - 1],
        all[i].pc,
    ) by {
        if i < n {
            assert(all[i] == frames[i]);
            assert(all[i - 1] == frames[i - 1]);
        } else {
            assert(all[i] == recovered[i - n]);
        }
    }
}

/// The CFA is at the offset that the unwind rules give from the register they name. If
/// that isn't the stack pointer, and isn't known or can't be combined with a placeholder,
/// the stack pointer and its last offset take its place.
pub proof fn law_cfa_is_at_its_offset(row: RowRules, registers: RegisterValues, sp: u32)
    requires
        registers.get(2) == Some(sp),
    ensures
        match row.cfa {
            Cfa::RegisterAndOffset { register, offset } => {
                let cfa = frame_cfa(row, registers, sp);
                &&& register == 2 ==> cfa == Ok::<u32, Stop>(wrap(sp + offset))
                &&& register != 2 && !registers.sp_is_placeholder ==> (registers.get(
                    register as int,
                ) matches Some(base) ==> cfa == Ok::<u32, Stop>(wrap(base + offset)))
                &&& register != 2 && (registers.sp_is_placeholder || registers.get(
                    register as int,
                ) is None) ==> cfa == (match row.sp_cfa_offset {
                    Some(sp_offset) => Ok::<u32, Stop>(wrap(sp + sp_offset)),
                    None => Err(Stop::UnknownRegister(register)),
                })
            },
            Cfa::Expression => frame_cfa(row, registers, sp) == Err::<u32, Stop>(
                Stop::Unsupported(registers.pc),
            ),
        },
{
}

/// What a step comes to that finds the given value for the return address.
pub open spec fn returns_to(step: Result<RegisterValues, Failure>, address: u32) -> bool {
    if address == 0 {
        step == Err::<RegisterValues, Failure>(Failure::Stop(Stop::EndOfStack))
    } else {
        step matches Ok(caller) && caller.pc == address
    }
}

/// What a step comes to that takes the return address from a register.
pub open spec fn returns_to_register(
    step: Result<RegisterValues, Failure>,
    registers: RegisterValues,
    reg: u16,
) -> bool {
    match registers.get(reg as int) {
        Some(address) => returns_to(step, address),
        None => step == Err::<RegisterValues, Failure>(Failure::Stop(Stop::UnknownRegister(reg))),
    }
}

/// A step goes where the unwind rules say that the return address is: to the live `ra`
/// of an innermost frame that hasn't saved it, to the word that was saved on the stack,
/// and so on.
pub proof fn law_step_goes_to_return_address(
    data: UnwindData,
    registers: RegisterValues,
    lookup_pc: u32,
    words: Map<u32, u32>,
    innermost: bool,
    row: RowRules,
    sp: u32,
    cfa: u32,
)
    requires
        registers.get(2) == Some(sp),
        (data.rows)(lookup_pc as u64) == Some(row),
        frame_cfa(row, registers, sp) == Ok::<u32, Stop>(cfa),
    ensures
        ({
            let step = data.step(registers, lookup_pc, words, innermost);
            if !row.rules.dom().contains(1) {
                if innermost {
                    returns_to_register(step, registers, 1)
                } else {
                    step == Err::<RegisterValues, Failure>(
                        Failure::ReturnAddressLost { cfa, function_start: row.function_start },
                    )
                }
            } else {
                match row.rules[1] {
                    Rule::Undefined => step == Err::<RegisterValues, Failure>(
                        Failure::Stop(Stop::EndOfStack),
                    ),
                    Rule::SameValue => returns_to_register(step, registers, 1),
                    Rule::Offset(offset) => if words.dom().contains(wrap(cfa + offset)) {
                        returns_to(step, words[wrap(cfa + offset)])
                    } else {
                        step == Err::<RegisterValues, Failure>(
                            Failure::Stop(Stop::MemoryUnavailable(wrap(cfa + offset))),
                        )
                    },
                    Rule::ValOffset(offset) => returns_to(step, wrap(cfa + offset)),
                    Rule::Register(other) => returns_to_register(step, registers, other),
                    Rule::Constant(value) => returns_to(step, (value % 0x1_0000_0000) as u32),
                    Rule::Unsupported => step == Err::<RegisterValues, Failure>(
                        Failure::Stop(Stop::Unsupported(registers.pc)),
                    ),
                }
            }
        }),
{
}

/// The registers of a caller are those that the unwind rules give. Without a rule, its
/// stack pointer is the CFA, `gp`, `tp` and `s0`..`s11` are unchanged, and the others are
/// lost.
pub proof fn law_step_restores_registers(
    data: UnwindData,
    registers: RegisterValues,
    lookup_pc: u32,
    words: Map<u32, u32>,
    innermost: bool,
    row: RowRules,
    sp: u32,
    cfa: u32,
    caller: RegisterValues,
    reg: u16,
)
    requires
        registers.get(2) == Some(sp),
        (data.rows)(lookup_pc as u64) == Some(row),
        frame_cfa(row, registers, sp) == Ok::<u32, Stop>(cfa),
        data.step(registers, lookup_pc, words, innermost) == Ok::<RegisterValues, Failure>(caller),
    ensures
        caller.sp_is_placeholder == registers.sp_is_placeholder,
        !caller.pc_is_return_address,
        caller.get(0) == Some(0u32),
        caller.get(1) is None,
        reg >= 32 ==> caller.get(reg as int) is None,
        1 < reg < 32 ==> caller.get(reg as int) == (if !row.rules.dom().contains(reg) {
            if reg == 2 {
                Some(cfa)
            } else if reg == 3 || reg == 4 || reg == 8 || reg == 9 || 18 <= reg <= 27 {
                registers.get(reg as int)
            } else {
                None
            }
        } else {
            match row.rules[reg] {
                Rule::SameValue => registers.get(reg as int),
                Rule::Offset(offset) => if words.dom().contains(wrap(cfa + offset)) {
                    Some(words[wrap(cfa + offset)])
                } else {
                    None
                },
                Rule::ValOffset(offset) => Some(wrap(cfa + offset)),
                Rule::Register(other) => registers.get(other as int),
                Rule::Constant(value) => Some((value % 0x1_0000_0000) as u32),
                Rule::Undefined | Rule::Unsupported => None,
            }
        }),
{
}

/// Without unwind rules, the caller of an innermost frame is where a nonzero `ra` points,
/// with the same registers but for `ra`; any other frame has none. Without a stack
/// pointer there is no step at all, and no rules are no reason to report an unknown
/// register, or the other way round.
pub proof fn law_step_without_rules(
    data: UnwindData,
    registers: RegisterValues,
    lookup_pc: u32,
    words: Map<u32, u32>,
    innermost: bool,
)
    ensures
        ({
            let step = data.step(registers, lookup_pc, words, innermost);
            &&& registers.get(2) is None ==> step == Err::<RegisterValues, Failure>(
                Failure::Stop(Stop::UnknownRegister(2)),
            )
            &&& registers.get(2) is Some && (data.rows)(lookup_pc as u64) is None ==> match (
                innermost,
                registers.get(1),
            ) {
                (true, Some(ra)) if ra != 0 => {
                    &&& step matches Ok(caller)
                    &&& caller.pc == ra
                    &&& caller.pc_is_return_address == registers.pc_is_return_address
                    &&& caller.sp_is_placeholder == registers.sp_is_placeholder
                    &&& caller.get(1) is None
                    &&& forall|reg: int|
                        reg != 1 ==> #[trigger] caller.get(reg) == registers.get(reg)
                },
                _ => step == Err::<RegisterValues, Failure>(
                    Failure::Stop(Stop::NoUnwindInfo(registers.pc)),
                ),
            }
            &&& registers.get(2) matches Some(sp) ==> ((data.rows)(lookup_pc as u64) matches Some(
                row,
            ) ==> (frame_cfa(row, registers, sp) matches Err(stop) ==> step == Err::<
                RegisterValues,
                Failure,
            >(Failure::Stop(stop))))
        }),
{
}

/// The address that functions and source lines of a frame are looked up at is its program
/// counter, or right before it if that is a return address.
pub proof fn law_lookups_land_on_the_call(frame: Frame)
    ensures
        frame.lookup() == rules_address(frame),
{
}

} // verus!
