//! What code that reaches into memory does.
//!
//! The program has the memory below the frames, from some address on: what is
//! below that and past the frames is the machine's own.

use super::assembler::Listing;
use super::lower::{self, Machine, Source, Work};
use super::machine::{self, State};
use super::{CSP, HEAP, HOOK_WRITE, PTR, T0, T0_HIGH, T1, T1_HIGH};
use crate::ir;
use crate::ir::machine::Held;
use crate::ir::memory::Memory;
use crate::ir::{Offset, Op, PlatformId, Range, ValueId, Width};
use vstd::prelude::*;

verus! {

/// The memory that is the program's.
pub open spec fn shared(low: int, state: State) -> Memory {
    Map::new(
        |i: int| low <= i < machine::frame(state.memory),
        |i: int| state.memory[i],
    )
}

/// Whether an operation's operands are what is held.
pub open spec fn is_held(machine: Machine, work: Work, value: ValueId, held: Held, state: State)
    -> bool {
    &&& machine::is_placed(work, value)
    &&& held.dom().contains(value) ==> held[value] == machine.word(work, value, state.memory)
}

/// Whether memory above the first page has changed in the slot of a value and
/// nowhere else, if there is one, and in what is the program's.
pub open spec fn frames_stay(low: int, before: State, after: State, slot: Option<int>) -> bool {
    &&& after.top == before.top
    &&& after.limit == before.limit
    &&& after.memory.len() == before.memory.len()
    &&& machine::frame(after.memory) == machine::frame(before.memory)
    &&& forall|i: int|
        0x100 <= i < machine::size() && !(low <= i < machine::frame(before.memory)) && !(
        slot matches Some(at) && at <= i < at + 2) ==> #[trigger] after.memory[i]
            == before.memory[i]
}

proof fn a_pointer_is_read(
    machine: Machine,
    work: Work,
    pair: u8,
    value: ValueId,
    state: State,
) -> (after: State)
    requires
        pair == PTR || pair == T0,
        machine::stands(state),
        machine::is_placed(work, value),
        !machine.read(work, pair, value).code.failed,
    ensures
        machine::leads(work.code, machine.read(work, pair, value).code, state, after),
        machine.read(work, pair, value).source == work.source,
        machine::word(after.memory, pair as int) == machine.word(work, value, state.memory),
        machine::stands(after),
        after.top == state.top,
        after.limit == state.limit,
        machine::frame(after.memory) == machine::frame(state.memory),
        forall|i: int|
            0 <= i < machine::size() && i != pair && i != pair + 1 ==> #[trigger] after.memory[i]
                == state.memory[i],
{
    let after = machine::a_value_is_read(machine, work, pair, value, state);
    machine::leading_stays(work.code, machine.read(work, pair, value).code, state, after);
    assert(after.memory[super::FP as int] == state.memory[super::FP as int]);
    assert(after.memory[super::FP + 1] == state.memory[super::FP + 1]);
    after
}

/// A load gives what memory holds: a byte, or the word that two bytes are, the
/// low one first.
#[verifier::rlimit(40)]
pub proof fn a_load_reads_memory(
    machine: Machine,
    work: Work,
    width: Width,
    address: ValueId,
    offset: Offset,
    result: ValueId,
    held: Held,
    low: int,
    state: State,
) -> (after: State)
    requires
        machine::stands(state),
        0x100 <= low,
        is_held(machine, work, address, held, state),
        machine::is_placed(work, result),
        width == Width::Word ==> ir::memory::away(offset, 2) != 0xFF,
        !machine.simple(
            work,
            Op::Load { width, address, offset },
            seq![result],
        ).code.failed,
        machine.program.touches(
            2,
            Op::Load { width, address, offset },
            seq![result],
            held,
            shared(low, state),
        ) is Some,
    ensures
        ({
            let op = Op::Load { width, address, offset };
            let (then, memory) = machine.program.touches(
                2,
                op,
                seq![result],
                held,
                shared(low, state),
            )->Some_0;
            let slot = machine::slot(work, result, state.memory);
            &&& machine::leads(
                work.code,
                machine.simple(work, op, seq![result]).code,
                state,
                after,
            )
            &&& work.source[result.0 as int] is Slot
            &&& machine::word(after.memory, slot) == then[result]
            &&& frames_stay(low, state, after, Some(slot))
            &&& shared(low, after) == memory
        }),
{
    let op = Op::Load { width, address, offset };
    let end = machine.simple(work, op, seq![result]);
    let got = machine.read(work, PTR, address);
    let one = ir::machine::read(held, seq![address])->Some_0;
    assert(held.dom().contains(seq![address][0]));
    let away = ir::memory::away(offset, 2);
    let at = held[address] + away;
    let y = lower::distance(offset) as u8;
    assert(lower::indexable(offset));
    assert(y == away);
    assert(!got.code.failed);
    let by = a_pointer_is_read(machine, work, PTR, address, state);
    let memory = shared(low, state);
    let frame = machine::frame(state.memory);
    assert(memory.dom().contains(at));
    assert(low <= at < frame);
    ir::memory::two_bytes_are_a_number(memory, at, 0);
    let start = work.code;
    machine::two_bytes_more(start, got.code, state, by, 0xA0, y);
    let s1 = by.index(y);
    let l1 = got.code.ldy_imm(y);
    assert(s1.pointed(PTR, s1.y) == at);
    machine::two_bytes_more(start, l1, state, s1, 0xB1, PTR);
    let s2 = s1.read(state.memory[at]);
    assert(s1.memory[at] == state.memory[at]);
    let l2 = l1.lda_ind_y(PTR);
    machine::two_bytes_more(start, l2, state, s2, 0x85, T0);
    let s3 = s2.write(T0 as int, state.memory[at]);
    let l3 = l2.sta_zp(T0);
    let (s5, l5) = match width {
        Width::Byte => {
            machine::two_bytes_more(start, l3, state, s3, 0xA9, 0);
            (s3.read(0), l3.lda_imm(0))
        },
        Width::Word => {
            assert(memory.dom().contains(at + 1));
            machine::one_byte_more(start, l3, state, s3, 0xC8);
            let s4 = s3.index((y + 1) as u8);
            assert(machine::byte(y + 1) == (y + 1) as u8);
            let l4 = l3.iny();
            assert(s4.pointed(PTR, s4.y) == at + 1);
            machine::two_bytes_more(start, l4, state, s4, 0xB1, PTR);
            assert(s4.memory[at + 1] == state.memory[at + 1]);
            (s4.read(state.memory[at + 1]), l4.lda_ind_y(PTR))
        },
    };
    machine::two_bytes_more(start, l5, state, s5, 0x85, T0_HIGH);
    let s6 = s5.write(T0_HIGH as int, s5.a);
    let l6 = l5.sta_zp(T0_HIGH);
    let filled = Work { code: l6, ..got };
    assert(end == filled.write_slot(result, T0));
    machine::leading_stays(start, l6, state, s6);
    assert(s6.memory[super::FP as int] == state.memory[super::FP as int]);
    assert(s6.memory[super::FP + 1] == state.memory[super::FP + 1]);
    let slot = work.source[result.0 as int]->Slot_0;
    let after = machine::a_slot_is_written(l6, T0, slot, s6);
    machine::leading_chains(start, l6, end.code, state, s6, after);
    machine::leading_stays(start, end.code, state, after);
    let place = machine::slot(work, result, state.memory);
    assert(after.memory[super::FP as int] == s6.memory[super::FP as int]);
    assert(after.memory[super::FP + 1] == s6.memory[super::FP + 1]);
    let then = machine.program.touches(2, op, seq![result], held, memory)->Some_0.0;
    let number = ir::memory::number_in(memory, at, ir::memory::reach(width, 2));
    assert(then[result] == number) by {
        reveal_with_fuel(ir::machine::defined, 2);
        assert(seq![result].last() == result);
    }
    assert(machine::word(s6.memory, T0 as int) == number);
    assert forall|i: int|
        0x100 <= i < machine::size() && !(place <= i < place + 2) implies #[trigger] after.memory[i]
        == state.memory[i] by {
        assert(s6.memory[i] == by.memory[i]);
        assert(by.memory[i] == state.memory[i]);
    }
    assert(shared(low, after) =~= memory);
    after
}

/// A store leaves in memory what was stored: a byte, or the two bytes a word
/// is, the low one first, and nothing else touched.
#[verifier::rlimit(40)]
pub proof fn a_store_writes_memory(
    machine: Machine,
    work: Work,
    width: Width,
    address: ValueId,
    offset: Offset,
    value: ValueId,
    held: Held,
    low: int,
    state: State,
) -> (after: State)
    requires
        machine::stands(state),
        0x100 <= low,
        state.limit <= low,
        is_held(machine, work, address, held, state),
        is_held(machine, work, value, held, state),
        width == Width::Word ==> ir::memory::away(offset, 2) != 0xFF,
        !machine.simple(
            work,
            Op::Store { width, address, offset, value },
            seq![],
        ).code.failed,
        machine.program.touches(
            2,
            Op::Store { width, address, offset, value },
            seq![],
            held,
            shared(low, state),
        ) is Some,
    ensures
        ({
            let op = Op::Store { width, address, offset, value };
            let (then, memory) = machine.program.touches(
                2,
                op,
                seq![],
                held,
                shared(low, state),
            )->Some_0;
            &&& machine::leads(work.code, machine.simple(work, op, seq![]).code, state, after)
            &&& then == held
            &&& frames_stay(low, state, after, None)
            &&& shared(low, after) == memory
        }),
{
    let op = Op::Store { width, address, offset, value };
    let end = machine.simple(work, op, seq![]);
    let first = machine.read(work, T0, value);
    let got = machine.read(first, PTR, address);
    let both = ir::machine::read(held, seq![address, value])->Some_0;
    assert(held.dom().contains(seq![address, value][0]));
    assert(held.dom().contains(seq![address, value][1]));
    let number = held[value];
    let away = ir::memory::away(offset, 2);
    let at = held[address] + away;
    let y = lower::distance(offset) as u8;
    assert(lower::indexable(offset));
    assert(y == away);
    assert(!got.code.failed);
    super::flow::reading_extends(machine, first, PTR, address);
    assert(!first.code.failed);
    let start = work.code;
    let a = a_pointer_is_read(machine, work, T0, value, state);
    assert(machine.word(first, address, a.memory) == machine.word(
        work,
        address,
        state.memory,
    )) by {
        if let Source::Slot(slot) = work.source[address.0 as int] {
            let place = machine::frame(state.memory) + slot;
            assert(a.memory[place] == state.memory[place]);
            assert(a.memory[place + 1] == state.memory[place + 1]);
        }
    }
    let by = a_pointer_is_read(machine, first, PTR, address, a);
    machine::leading_chains(start, first.code, got.code, state, a, by);
    let memory = shared(low, state);
    let frame = machine::frame(state.memory);
    assert(memory.dom().contains(at));
    ir::memory::two_bytes_are_a_number(memory, at, number);
    assert(machine::word(by.memory, T0 as int) == number) by {
        assert(by.memory[T0 as int] == a.memory[T0 as int]);
        assert(by.memory[T0 + 1] == a.memory[T0 + 1]);
    }
    let bottom = by.memory[T0 as int];
    let top = by.memory[T0_HIGH as int];
    assert(number % 256 == bottom && number / 256 % 256 == top);
    machine::two_bytes_more(start, got.code, state, by, 0xA0, y);
    let s1 = by.index(y);
    let l1 = got.code.ldy_imm(y);
    machine::two_bytes_more(start, l1, state, s1, 0xA5, T0);
    let s2 = s1.read(bottom);
    let l2 = l1.lda_zp(T0);
    assert(s2.pointed(PTR, s2.y) == at);
    machine::two_bytes_more(start, l2, state, s2, 0x91, PTR);
    let s3 = s2.write(at, bottom);
    let l3 = l2.sta_ind_y(PTR);
    let after = match width {
        Width::Byte => s3,
        Width::Word => {
            assert(memory.dom().contains(at + 1));
            machine::one_byte_more(start, l3, state, s3, 0xC8);
            let s4 = s3.index((y + 1) as u8);
            assert(machine::byte(y + 1) == (y + 1) as u8);
            let l4 = l3.iny();
            assert(s4.memory[T0_HIGH as int] == top);
            machine::two_bytes_more(start, l4, state, s4, 0xA5, T0_HIGH);
            let s5 = s4.read(top);
            let l5 = l4.lda_zp(T0_HIGH);
            assert(s5.pointed(PTR, s5.y) == at + 1);
            machine::two_bytes_more(start, l5, state, s5, 0x91, PTR);
            s5.write(at + 1, top)
        },
    };
    machine::leading_stays(start, end.code, state, after);
    assert(after.memory[super::FP as int] == by.memory[super::FP as int]);
    assert(after.memory[super::FP + 1] == by.memory[super::FP + 1]);
    let count = ir::memory::reach(width, 2) as int;
    assert forall|i: int| 0x100 <= i < machine::size() && !(at <= i < at + count) implies
        #[trigger] after.memory[i] == state.memory[i] by {
        assert(by.memory[i] == a.memory[i]);
        assert(a.memory[i] == state.memory[i]);
    }
    assert(after.memory[at] == bottom);
    if width == Width::Word {
        assert(after.memory[at + 1] == top);
    }
    assert(shared(low, after) =~= ir::memory::with_number(
        memory,
        at,
        ir::memory::reach(width, 2),
        number,
    ));
    after
}

/// Growing answers where the memory nobody had yet begins, and moves that on
/// by as much as was asked for: what two of them answer never overlaps.
#[verifier::rlimit(40)]
pub proof fn growing_hands_out_memory(
    machine: Machine,
    work: Work,
    size: ValueId,
    result: ValueId,
    state: State,
) -> (after: State)
    requires
        machine::stands(state),
        machine::is_placed(work, size),
        machine::is_placed(work, result),
        !machine.grow(work, seq![size], seq![result]).code.failed,
    ensures
        machine::leads(
            work.code,
            machine.grow(work, seq![size], seq![result]).code,
            state,
            after,
        ),
        work.source[result.0 as int] is Slot,
        machine::word(after.memory, machine::slot(work, result, state.memory)) == machine::word(
            state.memory,
            HEAP as int,
        ),
        machine::word(after.memory, HEAP as int) == (machine::word(state.memory, HEAP as int)
            + machine.word(work, size, state.memory)) % machine::size(),
        frames_stay(
            0x100,
            state,
            after,
            Some(machine::slot(work, result, state.memory)),
        ) && forall|i: int|
            0x100 <= i < machine::frame(state.memory) ==> #[trigger] after.memory[i]
                == state.memory[i],
{
    let start = work.code;
    let got = machine.read(work, T0, size);
    let end = machine.grow(work, seq![size], seq![result]);
    assert(seq![size][0] == size && seq![result][0] == result);
    let upper = (HEAP + 1) as u8;
    let kept = got.code.lda_zp(HEAP).sta_zp(T1).lda_zp(upper).sta_zp(T1_HIGH);
    let code = kept.clc().lda_zp(HEAP).adc_zp(T0).sta_zp(HEAP).lda_zp(upper).adc_zp(
        T0_HIGH,
    ).sta_zp(upper);
    let filled = Work { code, ..got };
    assert(end == filled.write_slot(result, T1));
    assert(!got.code.failed);
    let by = a_pointer_is_read(machine, work, T0, size, state);
    let (low, high) = (state.memory[HEAP as int], state.memory[HEAP + 1]);
    let (less, more) = (by.memory[T0 as int], by.memory[T0 + 1]);
    assert(by.memory[HEAP as int] == low && by.memory[HEAP + 1] == high);
    machine::two_bytes_more(start, got.code, state, by, 0xA5, HEAP);
    let s1 = by.read(low);
    let l1 = got.code.lda_zp(HEAP);
    machine::two_bytes_more(start, l1, state, s1, 0x85, T1);
    let s2 = s1.write(T1 as int, low);
    let l2 = l1.sta_zp(T1);
    machine::two_bytes_more(start, l2, state, s2, 0xA5, upper);
    let s3 = s2.read(high);
    let l3 = l2.lda_zp(upper);
    machine::two_bytes_more(start, l3, state, s3, 0x85, T1_HIGH);
    let s4 = s3.write(T1_HIGH as int, high);
    machine::one_byte_more(start, kept, state, s4, 0x18);
    let s5 = State { carry: false, ..s4 };
    let l5 = kept.clc();
    machine::two_bytes_more(start, l5, state, s5, 0xA5, HEAP);
    let s6 = s5.read(low);
    assert(s5.memory[HEAP as int] == low);
    let l6 = l5.lda_zp(HEAP);
    machine::two_bytes_more(start, l6, state, s6, 0x65, T0);
    assert(s6.memory[T0 as int] == less);
    let s7 = s6.sum(less);
    let l7 = l6.adc_zp(T0);
    machine::two_bytes_more(start, l7, state, s7, 0x85, HEAP);
    let s8 = s7.write(HEAP as int, s7.a);
    let l8 = l7.sta_zp(HEAP);
    machine::two_bytes_more(start, l8, state, s8, 0xA5, upper);
    assert(s8.memory[upper as int] == high);
    let s9 = s8.read(high);
    let l9 = l8.lda_zp(upper);
    machine::two_bytes_more(start, l9, state, s9, 0x65, T0_HIGH);
    assert(s9.memory[T0_HIGH as int] == more);
    let s10 = s9.sum(more);
    let l10 = l9.adc_zp(T0_HIGH);
    machine::two_bytes_more(start, l10, state, s10, 0x85, upper);
    let s11 = s10.write(upper as int, s10.a);
    machine::a_carry_joins_bytes(low as int, high as int, less as int, more as int);
    machine::leading_stays(start, code, state, s11);
    assert(s11.memory[super::FP as int] == state.memory[super::FP as int]);
    assert(s11.memory[super::FP + 1] == state.memory[super::FP + 1]);
    assert(machine::word(s11.memory, T1 as int) == machine::word(state.memory, HEAP as int));
    let slot = work.source[result.0 as int]->Slot_0;
    let after = machine::a_slot_is_written(code, T1, slot, s11);
    machine::leading_chains(start, code, end.code, state, s11, after);
    machine::leading_stays(start, end.code, state, after);
    let place = machine::slot(work, result, state.memory);
    assert(after.memory[super::FP as int] == s11.memory[super::FP as int]);
    assert(after.memory[super::FP + 1] == s11.memory[super::FP + 1]);
    assert(after.memory[HEAP as int] == s11.memory[HEAP as int]);
    assert(after.memory[HEAP + 1] == s11.memory[HEAP + 1]);
    assert forall|i: int| 0x100 <= i < machine::size() && !(place <= i < place + 2) implies
        #[trigger] after.memory[i] == state.memory[i] by {
        assert(s11.memory[i] == by.memory[i]);
        assert(by.memory[i] == state.memory[i]);
    }
    after
}

/// Asking for memory is growing.
pub proof fn asking_for_memory_grows(
    machine: Machine,
    work: Work,
    platform: PlatformId,
    args: Range,
    result: ValueId,
    state: State,
) -> (after: State)
    requires
        machine.program.name(machine.program.routine(platform).name) == "grow"@,
        machine.program.values(args).len() == 1,
        machine::stands(state),
        machine::is_placed(work, machine.program.values(args)[0]),
        machine::is_placed(work, result),
        !machine.simple(
            work,
            Op::PlatformCall { platform, args },
            seq![result],
        ).code.failed,
    ensures
        ({
            let size = machine.program.values(args)[0];
            let end = machine.simple(work, Op::PlatformCall { platform, args }, seq![result]);
            let heap = machine::word(state.memory, HEAP as int);
            &&& machine::leads(work.code, end.code, state, after)
            &&& machine::word(after.memory, machine::slot(work, result, state.memory)) == heap
            &&& machine::word(after.memory, HEAP as int) == (heap + machine.word(
                work,
                size,
                state.memory,
            )) % machine::size()
        }),
{
    let size = machine.program.values(args)[0];
    assert(machine.program.values(args) =~= seq![size]);
    reveal_strlit("grow");
    reveal_strlit("write");
    reveal_strlit("exit");
    assert("grow"@.len() == 4 && "write"@.len() == 5 && "exit"@.len() == 4);
    assert("grow"@[0] == 'g' && "exit"@[0] == 'e');
    growing_hands_out_memory(machine, work, size, result, state)
}

/// Asking to write is writing.
pub proof fn asking_to_write_writes(
    machine: Machine,
    work: Work,
    platform: PlatformId,
    args: Range,
    results: Seq<ValueId>,
)
    requires
        machine.program.is_write(platform),
    ensures
        machine.simple(work, Op::PlatformCall { platform, args }, results) == machine.write(
            work,
            machine.program.values(args),
        ),
{
}

/// A pair goes on the stack the hooks take their arguments from.
#[verifier::rlimit(40)]
proof fn a_pair_is_pushed(before: Listing, pair: u8, state: State) -> (after: State)
    requires
        pair == T1,
        state.memory.len() == machine::size(),
        0x100 <= machine::word(state.memory, CSP as int) - 2,
        state.limit <= machine::word(state.memory, CSP as int) - 2,
    ensures
        ({
            let top = machine::word(state.memory, CSP as int) - 2;
            &&& machine::leads(before, before.push_pair(pair), state, after)
            &&& machine::word(after.memory, CSP as int) == top
            &&& machine::word(after.memory, top) == machine::word(state.memory, pair as int)
            &&& after.memory.len() == machine::size()
            &&& after.limit == state.limit
            &&& after.top == state.top
            &&& forall|i: int|
                0 <= i < machine::size() && i != CSP && i != CSP + 1 && i != top && i != top + 1
                    ==> #[trigger] after.memory[i] == state.memory[i]
        }),
{
    let upper = (CSP + 1) as u8;
    let (low, high) = (state.memory[CSP as int], state.memory[CSP + 1]);
    let (bottom, over) = (state.memory[pair as int], state.memory[pair + 1]);
    let top = machine::word(state.memory, CSP as int) - 2;
    machine::nothing_leads_nowhere(before, state);
    machine::one_byte_more(before, before, state, state, 0x38);
    let s1 = State { carry: true, ..state };
    let l1 = before.sec();
    machine::two_bytes_more(before, l1, state, s1, 0xA5, CSP);
    let s2 = s1.read(low);
    let l2 = l1.lda_zp(CSP);
    machine::two_bytes_more(before, l2, state, s2, 0xE9, 2);
    let s3 = s2.difference(2);
    let l3 = l2.sbc_imm(2);
    machine::two_bytes_more(before, l3, state, s3, 0x85, CSP);
    let s4 = s3.write(CSP as int, s3.a);
    let l4 = l3.sta_zp(CSP);
    machine::two_bytes_more(before, l4, state, s4, 0xA5, upper);
    let s5 = s4.read(high);
    let l5 = l4.lda_zp(upper);
    machine::two_bytes_more(before, l5, state, s5, 0xE9, 0);
    let s6 = s5.difference(0);
    let l6 = l5.sbc_imm(0);
    machine::two_bytes_more(before, l6, state, s6, 0x85, upper);
    let s7 = s6.write(upper as int, s6.a);
    let l7 = l6.sta_zp(upper);
    machine::a_borrow_joins_bytes(low as int, high as int, 2, 0);
    assert(machine::word(s7.memory, CSP as int) == top);
    machine::two_bytes_more(before, l7, state, s7, 0xA0, 0);
    let s8 = s7.index(0);
    let l8 = l7.ldy_imm(0);
    machine::two_bytes_more(before, l8, state, s8, 0xA5, pair);
    assert(s8.memory[pair as int] == bottom);
    let s9 = s8.read(bottom);
    let l9 = l8.lda_zp(pair);
    assert(s9.pointed(CSP, s9.y) == top);
    machine::two_bytes_more(before, l9, state, s9, 0x91, CSP);
    let s10 = s9.write(top, bottom);
    let l10 = l9.sta_ind_y(CSP);
    machine::one_byte_more(before, l10, state, s10, 0xC8);
    let s11 = s10.index(1);
    assert(machine::byte(1) == 1);
    let l11 = l10.iny();
    machine::two_bytes_more(before, l11, state, s11, 0xA5, (pair + 1) as u8);
    assert(s11.memory[pair + 1] == over);
    let s12 = s11.read(over);
    let l12 = l11.lda_zp((pair + 1) as u8);
    assert(s12.pointed(CSP, s12.y) == top + 1);
    machine::two_bytes_more(before, l12, state, s12, 0x91, CSP);
    let after = s12.write(top + 1, over);
    machine::leading_stays(before, before.push_pair(pair), state, after);
    after
}

/// Dropping what was pushed puts the stack back.
#[verifier::rlimit(40)]
pub proof fn what_was_pushed_is_dropped(before: Listing, count: u8, state: State) -> (after: State)
    requires
        state.memory.len() == machine::size(),
    ensures
        machine::leads(before, before.drop_pushed(count), state, after),
        machine::word(after.memory, CSP as int) == (machine::word(state.memory, CSP as int)
            + count) % machine::size() as int,
        after.memory.len() == machine::size(),
        forall|i: int|
            0 <= i < machine::size() && i != CSP && i != CSP + 1 ==> #[trigger] after.memory[i]
                == state.memory[i],
{
    let upper = (CSP + 1) as u8;
    let (low, high) = (state.memory[CSP as int], state.memory[CSP + 1]);
    machine::nothing_leads_nowhere(before, state);
    machine::one_byte_more(before, before, state, state, 0x18);
    let s1 = State { carry: false, ..state };
    let l1 = before.clc();
    machine::two_bytes_more(before, l1, state, s1, 0xA5, CSP);
    let s2 = s1.read(low);
    let l2 = l1.lda_zp(CSP);
    machine::two_bytes_more(before, l2, state, s2, 0x69, count);
    let s3 = s2.sum(count);
    let l3 = l2.adc_imm(count);
    machine::two_bytes_more(before, l3, state, s3, 0x85, CSP);
    let s4 = s3.write(CSP as int, s3.a);
    let l4 = l3.sta_zp(CSP);
    machine::two_bytes_more(before, l4, state, s4, 0xA5, upper);
    let s5 = s4.read(high);
    let l5 = l4.lda_zp(upper);
    machine::two_bytes_more(before, l5, state, s5, 0x69, 0);
    let s6 = s5.sum(0);
    let l6 = l5.adc_imm(0);
    machine::two_bytes_more(before, l6, state, s6, 0x85, upper);
    machine::a_carry_joins_bytes(low as int, high as int, count as int, 0);
    s6.write(upper as int, s6.a)
}

/// Writing hands the host what the program says: where the hook is called, the
/// descriptor and the address are on the stack it takes its arguments from,
/// the length is in the registers, and no frame has been touched. What follows
/// the call drops what was pushed.
#[verifier::rlimit(60)]
pub proof fn a_write_is_handed_over(
    machine: Machine,
    work: Work,
    args: Seq<ValueId>,
    state: State,
) -> (made: (Listing, State))
    requires
        machine::stands(state),
        args.len() >= 2,
        machine::is_placed(work, args[0]),
        machine::is_placed(work, args[1]),
        !machine.write(work, args).code.failed,
        machine::frame(state.memory) + 0x104 <= machine::word(state.memory, CSP as int),
    ensures
        ({
            let (before, by) = made;
            let top = machine::word(state.memory, CSP as int) - 4;
            &&& machine.write(work, args).code == before.jsr_abs(HOOK_WRITE).drop_pushed(4)
            &&& machine::leads(work.code, before, state, by)
            &&& machine::word(by.memory, CSP as int) == top
            &&& machine::word(by.memory, top + 2) == 1
            &&& machine::word(by.memory, top) == machine.word(work, args[0], state.memory)
            &&& by.a + 256 * by.x == machine.word(work, args[1], state.memory)
            &&& machine::frame(by.memory) == machine::frame(state.memory)
            &&& forall|i: int|
                0x100 <= i < machine::size() && !(top <= i < top + 4) ==> #[trigger] by.memory[i]
                    == state.memory[i]
        }),
{
    let start = work.code;
    let stack = machine::word(state.memory, CSP as int) as int;
    let described = Work { code: work.code.set_pair(T1, 1).push_pair(T1), ..work };
    let buffer = machine.read(described, T1, args[0]);
    let pushed = Work { code: buffer.code.push_pair(T1), ..buffer };
    let counted = machine.read(pushed, T0, args[1]);
    let before = counted.code.ldx_zp(T0_HIGH).lda_zp(T0);
    assert(machine.write(work, args).code == before.jsr_abs(HOOK_WRITE).drop_pushed(4));
    assert(!counted.code.failed);
    super::flow::reading_extends(machine, pushed, T0, args[1]);
    assert(!buffer.code.failed);
    let a = machine::a_pair_is_set(start, T1, 1, state);
    let set = start.set_pair(T1, 1);
    machine::leading_stays(start, set, state, a);
    assert(a.memory[CSP as int] == state.memory[CSP as int]);
    assert(a.memory[CSP + 1] == state.memory[CSP + 1]);
    let b = a_pair_is_pushed(set, T1, a);
    machine::leading_chains(start, set, described.code, state, a, b);
    the_frame_is_where_it_was(state, a);
    the_frame_is_where_it_was(a, b);
    let c = machine::a_value_is_read(machine, described, T1, args[0], b);
    machine::leading_stays(described.code, buffer.code, b, c);
    machine::leading_chains(start, described.code, buffer.code, state, b, c);
    the_word_is_what_it_was(machine, work, described, args[0], state, b);
    the_frame_is_where_it_was(b, c);
    assert(c.memory[CSP as int] == b.memory[CSP as int]);
    assert(c.memory[CSP + 1] == b.memory[CSP + 1]);
    let d = a_pair_is_pushed(buffer.code, T1, c);
    machine::leading_chains(start, buffer.code, pushed.code, state, c, d);
    the_frame_is_where_it_was(c, d);
    let e = machine::a_value_is_read(machine, pushed, T0, args[1], d);
    machine::leading_stays(pushed.code, counted.code, d, e);
    machine::leading_chains(start, pushed.code, counted.code, state, d, e);
    the_word_is_what_it_was(machine, work, pushed, args[1], state, d);
    machine::two_bytes_more(start, counted.code, state, e, 0xA6, T0_HIGH);
    let s1 = State {
        x: e.memory[T0_HIGH as int],
        zero: e.memory[T0_HIGH as int] == 0,
        ..e
    };
    let l1 = counted.code.ldx_zp(T0_HIGH);
    machine::two_bytes_more(start, l1, state, s1, 0xA5, T0);
    let by = s1.read(s1.memory[T0 as int]);
    let top = stack - 4;
    assert(e.memory[CSP as int] == d.memory[CSP as int]);
    assert(e.memory[CSP + 1] == d.memory[CSP + 1]);
    assert(machine::word(by.memory, top + 2) == 1) by {
        assert(d.memory[top + 2] == c.memory[top + 2] && d.memory[top + 3] == c.memory[top + 3]);
        assert(c.memory[top + 2] == b.memory[top + 2] && c.memory[top + 3] == b.memory[top + 3]);
        assert(e.memory[top + 2] == d.memory[top + 2] && e.memory[top + 3] == d.memory[top + 3]);
    }
    assert(machine::word(by.memory, top) == machine::word(d.memory, top)) by {
        assert(e.memory[top] == d.memory[top] && e.memory[top + 1] == d.memory[top + 1]);
    }
    assert forall|i: int| 0x100 <= i < machine::size() && !(top <= i < top + 4) implies
        #[trigger] by.memory[i] == state.memory[i] by {
        assert(e.memory[i] == d.memory[i]);
        assert(d.memory[i] == c.memory[i]);
        assert(c.memory[i] == b.memory[i]);
        assert(b.memory[i] == a.memory[i]);
        assert(a.memory[i] == state.memory[i]);
    }
    the_frame_is_where_it_was(d, e);
    (before, by)
}

proof fn the_frame_is_where_it_was(before: State, after: State)
    requires
        after.memory.len() == before.memory.len() == machine::size(),
        after.memory[super::FP as int] == before.memory[super::FP as int],
        after.memory[super::FP + 1] == before.memory[super::FP + 1],
    ensures
        machine::frame(after.memory) == machine::frame(before.memory),
{
}

proof fn the_word_is_what_it_was(
    machine: Machine,
    work: Work,
    later: Work,
    value: ValueId,
    before: State,
    after: State,
)
    requires
        later.source == work.source,
        machine::is_placed(work, value),
        machine::stands(before),
        machine::frame(after.memory) == machine::frame(before.memory),
        forall|i: int|
            machine::frame(before.memory) <= i < machine::frame(before.memory) + 0x100
                ==> #[trigger] after.memory[i] == before.memory[i],
    ensures
        machine.word(later, value, after.memory) == machine.word(work, value, before.memory),
{
    if let Source::Slot(slot) = work.source[value.0 as int] {
        let place = machine::frame(before.memory) + slot;
        assert(after.memory[place] == before.memory[place]);
        assert(after.memory[place + 1] == before.memory[place + 1]);
    }
}

/// Whether a value can be read: it has a slot, or is one that a pair holds.
pub open spec fn is_readable(machine: Machine, work: Work, value: ValueId) -> bool {
    match work.source[value.0 as int] {
        Source::Const(word) => word <= 0xFFFF,
        Source::Addr(data) => machine.address(data) <= 0xFFFF,
        Source::Slot(_) => true,
    }
}

/// Whatever reaches no further than the index register does is written, and so
/// is a sum or a comparison, where what it takes can be read and what it
/// answers has a slot.
pub proof fn what_is_within_reach_is_written(
    machine: Machine,
    work: Work,
    op: Op,
    results: Seq<ValueId>,
)
    requires
        !work.code.failed,
        match op {
            Op::Load { address, offset, .. } => is_readable(machine, work, address) && 0
                <= ir::memory::away(offset, 2) <= 0xFF && work.source[results[0].0 as int] is Slot,
            Op::Store { address, offset, value, .. } => is_readable(machine, work, address)
                && is_readable(machine, work, value) && 0 <= ir::memory::away(offset, 2) <= 0xFF,
            Op::Compare { left, right, .. } => is_readable(machine, work, left) && is_readable(
                machine,
                work,
                right,
            ) && work.source[results[0].0 as int] is Slot,
            _ => false,
        },
    ensures
        !machine.simple(work, op, results).code.failed,
{
}

} // verus!
