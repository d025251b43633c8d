//! What code that reaches into memory does.

use super::encode::{self, Reg};
use super::lower::{self, Stage, Work};
use super::machine::{self, goes_on, is_known, keeps, sets, State};
use crate::ir;
use crate::ir::machine::Held;
use crate::ir::memory::Memory;
use crate::ir::{Class, Offset, Op, PlatformId, Range, ValueId, Width};
use crate::targets::bytes;
use vstd::prelude::*;

verus! {

/// An instruction that reaches into memory, past the address in one register,
/// from or for another.
pub struct Access {
    pub loads: bool,
    /// How many bytes.
    pub count: nat,
    pub reg: nat,
    pub base: nat,
    pub away: int,
}

/// What the byte that names registers, and the distance behind it, say.
pub open spec fn reaching(loads: bool, count: nat, code: Seq<u8>) -> Option<Access> {
    if code.len() >= 5 && code[0] / 64 == 2 && code[0] % 8 != 4 {
        Some(
            Access {
                loads,
                count,
                reg: (code[0] / 8 % 8) as nat,
                base: (code[0] % 8) as nat,
                away: machine::extended(machine::number(code.skip(1), 4), 0x1_0000_0000),
            },
        )
    } else {
        None
    }
}

/// The access at the front of code, and how many bytes it is.
pub open spec fn accessed(code: Seq<u8>) -> Option<(Access, nat)> {
    let (found, taken): (Option<Access>, nat) = if code.len() >= 7 && code[0] == 0x48 && code[1]
        == 0x8B {
        (reaching(true, 8, code.skip(2)), 7)
    } else if code.len() >= 7 && code[0] == 0x48 && code[1] == 0x89 {
        (reaching(false, 8, code.skip(2)), 7)
    } else if code.len() >= 7 && code[0] == 0x0F && code[1] == 0xB6 {
        (reaching(true, 1, code.skip(2)), 7)
    } else if code.len() >= 6 && code[0] == 0x88 && code[1] / 8 % 8 < 4 {
        (reaching(false, 1, code.skip(1)), 6)
    } else {
        (None, 0)
    };
    match found {
        Some(access) => Some((access, taken)),
        None => None,
    }
}

/// What an access makes of the registers and memory. What is loaded takes the
/// whole of a register.
pub open spec fn touched(access: Access, state: State, memory: Memory) -> Option<(State, Memory)> {
    let at = (state.regs[access.base as int] + access.away) % machine::size() as int;
    if !ir::memory::is_there(memory, at, access.count) {
        None
    } else if access.loads {
        let number = ir::memory::number_in(memory, at, access.count);
        Some((state.set(access.reg, number as u64), memory))
    } else {
        let value = state.regs[access.reg as int];
        Some((state, ir::memory::with_number(memory, at, access.count, value as nat)))
    }
}

/// Whether code goes on to an access, through it, and on from there: `before`
/// is what had been written by then, and `after` what has been when the access
/// is done with.
pub open spec fn goes_through(
    before: Work,
    after: Work,
    from: State,
    memory: Memory,
    then: State,
    left: Memory,
) -> bool {
    &&& before.code.is_prefix_of(after.code)
    &&& after.relocs == before.relocs
    &&& after.jumps == before.jumps
    &&& after.labels == before.labels
    &&& accessed(after.code.skip(before.code.len() as int)) matches Some((access, taken))
        && taken == after.code.len() - before.code.len() && touched(access, from, memory) == Some(
        (then, left),
    )
}

/// Whether every address there is is one a word holds.
pub open spec fn is_addressed(memory: Memory) -> bool {
    forall|i: int| #[trigger] memory.dom().contains(i) ==> 0 <= i < machine::size()
}

proof fn a_distance_is_read(disp: i32, rest: Seq<u8>)
    ensures
        bytes::little_endian(encode::pattern(disp), 4).len() == 4,
        machine::extended(
            machine::number(bytes::little_endian(encode::pattern(disp), 4) + rest, 4),
            0x1_0000_0000,
        ) == disp,
{
    machine::a_number_reads_back(encode::pattern(disp), 4, rest);
    if disp >= 0 {
        vstd::arithmetic::div_mod::lemma_small_mod(disp as nat, 0x1_0000_0000);
    } else {
        assert(disp as int % 0x1_0000_0000 == disp + 0x1_0000_0000);
    }
}

proof fn an_access_is_read(width: Width, loads: bool, disp: i32)
    ensures
        ({
            let code = match (width, loads) {
                (Width::Byte, true) => encode::load_byte(disp),
                (Width::Word, true) => encode::load_word(disp),
                (Width::Byte, false) => encode::store_byte(disp),
                (Width::Word, false) => encode::store_word(disp),
            };
            let count = ir::memory::reach(width, 8);
            accessed(code) == Some(
                (Access { loads, count, reg: 0, base: 1, away: disp as int }, code.len()),
            )
        }),
{
    let last = bytes::little_endian(encode::pattern(disp), 4);
    let none = Seq::<u8>::empty();
    a_distance_is_read(disp, none);
    assert(last + none =~= last);
    assert(0x81u8 / 64 == 2 && 0x81u8 % 8 == 1 && 0x81u8 / 8 % 8 == 0);
    let code = match (width, loads) {
        (Width::Byte, true) => encode::load_byte(disp),
        (Width::Word, true) => encode::load_word(disp),
        (Width::Byte, false) => encode::store_byte(disp),
        (Width::Word, false) => encode::store_word(disp),
    };
    if width is Byte && !loads {
        assert(code.skip(1) =~= seq![0x81u8] + last);
    } else {
        assert(code.skip(2) =~= seq![0x81u8] + last);
    }
    assert((seq![0x81u8] + last).skip(1) =~= last);
}

proof fn a_number_is_bounded(memory: Memory, at: int, count: nat)
    ensures
        ir::memory::number_in(memory, at, count) < vstd::arithmetic::power::pow(256, count),
    decreases count,
{
    reveal(vstd::arithmetic::power::pow);
    if count > 0 {
        a_number_is_bounded(memory, at + 1, (count - 1) as nat);
        assert(vstd::arithmetic::power::pow(256, count) == 256 * vstd::arithmetic::power::pow(
            256,
            (count - 1) as nat,
        ));
    }
}

proof fn a_number_fits_a_word(memory: Memory, at: int, width: Width)
    ensures
        ir::memory::number_in(memory, at, ir::memory::reach(width, 8)) <= u64::MAX,
{
    a_number_is_bounded(memory, at, ir::memory::reach(width, 8));
    assert(vstd::arithmetic::power::pow(256, 8) == 0x1_0000_0000_0000_0000) by {
        reveal_with_fuel(vstd::arithmetic::power::pow, 9);
    }
    assert(vstd::arithmetic::power::pow(256, 1) == 256) by {
        reveal_with_fuel(vstd::arithmetic::power::pow, 2);
    }
}

/// A load gives what memory holds at the address and as many bytes on as the
/// offset comes to: a byte, or the word that eight bytes are. The code goes on
/// to the access, through it, and on to where the result is kept.
pub proof fn a_load_reads_memory(
    stage: Stage,
    work: Work,
    width: Width,
    address: ValueId,
    offset: Offset,
    result: ValueId,
    held: Held,
    state: State,
    memory: Memory,
) -> (run: (Work, Work, State, State, State))
    requires
        is_known(work, state),
        stage.layout.fits(),
        is_addressed(memory),
        held.dom().contains(address) ==> held[address] == stage.word(address, state),
        !stage.simple(work, Op::Load { width, address, offset }, seq![result]).failed,
        stage.program.touches(
            8,
            Op::Load { width, address, offset },
            seq![result],
            held,
            memory,
        ) is Some,
    ensures
        ({
            let op = Op::Load { width, address, offset };
            let (before, after, by, loaded, to) = run;
            let end = stage.simple(work, op, seq![result]);
            let (then, left) = stage.program.touches(8, op, seq![result], held, memory)->Some_0;
            &&& goes_on(work, before, state, by)
            &&& goes_through(before, after, by, memory, loaded, left)
            &&& goes_on(after, end, loaded, to)
            &&& is_known(end, to)
            &&& left == memory
            &&& then[result] <= u64::MAX
            &&& sets(state, to, stage.place(result), then[result] as u64)
        }),
{
    let op = Op::Load { width, address, offset };
    assert(seq![result][0] == result);
    let before = stage.read(work, Reg::Rcx, address);
    let disp = lower::distance(offset) as i32;
    let code = match width {
        Width::Byte => encode::load_byte(disp),
        Width::Word => encode::load_word(disp),
    };
    let after = before.emit(code);
    let end = stage.simple(work, op, seq![result]);
    assert(lower::reachable(offset));
    assert(end == stage.keep(after, result));
    assert(!after.failed) by {
        if after.failed {
            assert(stage.keep(after, result).failed);
        }
    }
    let by = machine::a_value_is_read(stage, work, Reg::Rcx, address, state);
    an_access_is_read(width, true, disp);
    assert(after.code.skip(before.code.len() as int) =~= code);
    let count = ir::memory::reach(width, 8);
    assert(held.dom().contains(seq![address][0]));
    let at = held[address] + ir::memory::away(offset, 8);
    assert(disp == ir::memory::away(offset, 8));
    assert(memory.dom().contains(at));
    vstd::arithmetic::div_mod::lemma_small_mod(at as nat, machine::size());
    a_number_fits_a_word(memory, at, width);
    let number = ir::memory::number_in(memory, at, count);
    let loaded = by.set(0, number as u64);
    assert(by.regs[1] == stage.word(address, state));
    assert(lower::true_of(after.known.update(0, None), loaded.regs)) by {
        let known = after.known.update(0, None);
        assert forall|r: int| 0 <= r < 16 implies (#[trigger] known[r] matches Some(value)
            ==> loaded.regs[r] == value) by {
            if r != 0 {
                assert(known[r] == before.known[r]);
            }
        }
    }
    let to = machine::a_result_is_kept(stage, after, result, loaded);
    let then = stage.program.touches(8, op, seq![result], held, memory)->Some_0.0;
    assert(then[result] == number) by {
        reveal_with_fuel(ir::machine::defined, 2);
        assert(seq![result].last() == result);
    }
    assert forall|i: int| i >= 0 && i != stage.place(result) implies #[trigger] to.word(i)
        == state.word(i) by {
        assert(loaded.word(i) == by.word(i));
        assert(by.word(i) == state.word(i));
    }
    (before, after, by, loaded, to)
}

/// A store leaves in memory what was stored, at the address and as many bytes
/// on as the offset comes to, and nothing else touched.
pub proof fn a_store_writes_memory(
    stage: Stage,
    work: Work,
    width: Width,
    address: ValueId,
    offset: Offset,
    value: ValueId,
    held: Held,
    state: State,
    memory: Memory,
) -> (run: (Work, State, Memory))
    requires
        is_known(work, state),
        stage.layout.fits(),
        is_addressed(memory),
        held.dom().contains(address) ==> held[address] == stage.word(address, state),
        held.dom().contains(value) ==> held[value] == stage.word(value, state),
        !stage.simple(work, Op::Store { width, address, offset, value }, seq![]).failed,
        stage.program.touches(
            8,
            Op::Store { width, address, offset, value },
            seq![],
            held,
            memory,
        ) is Some,
    ensures
        ({
            let op = Op::Store { width, address, offset, value };
            let (before, to, left) = run;
            let end = stage.simple(work, op, seq![]);
            &&& goes_on(work, before, state, to)
            &&& goes_through(before, end, to, memory, to, left)
            &&& is_known(end, to)
            &&& keeps(state, to)
            &&& stage.program.touches(8, op, seq![], held, memory) == Some((held, left))
        }),
{
    let op = Op::Store { width, address, offset, value };
    let before = stage.pair(work, value, address);
    let disp = lower::distance(offset) as i32;
    let code = match width {
        Width::Byte => encode::store_byte(disp),
        Width::Word => encode::store_word(disp),
    };
    let end = stage.simple(work, op, seq![]);
    assert(lower::reachable(offset));
    assert(end == before.emit(code));
    let to = machine::two_values_are_read(stage, work, value, address, state);
    an_access_is_read(width, false, disp);
    assert(end.code.skip(before.code.len() as int) =~= code);
    let count = ir::memory::reach(width, 8);
    assert(held.dom().contains(seq![address, value][0]));
    assert(held.dom().contains(seq![address, value][1]));
    let at = held[address] + ir::memory::away(offset, 8);
    assert(disp == ir::memory::away(offset, 8));
    assert(memory.dom().contains(at));
    vstd::arithmetic::div_mod::lemma_small_mod(at as nat, machine::size());
    let left = ir::memory::with_number(memory, at, count, held[value]);
    (before, to, left)
}

/// What the system does when it is asked where memory ends, or to have it end
/// elsewhere: it answers where memory ends then, and leaves two registers as
/// it pleases.
pub open spec fn moved(state: State, end: u64, rcx: u64, r11: u64) -> Option<(State, u64)> {
    if state.regs[0] == 12 {
        let now = if state.regs[7] == 0 {
            end
        } else {
            state.regs[7]
        };
        Some((state.set(0, now).set(1, rcx).set(11, r11), now))
    } else {
        None
    }
}

/// Whether what was written last is asking the system for something.
pub open spec fn asks(before: Work, after: Work) -> bool {
    &&& after.code == before.code + seq![0x0Fu8, 0x05u8]
    &&& after.relocs == before.relocs
    &&& after.jumps == before.jumps
    &&& after.labels == before.labels
}

proof fn adding_goes_on(work: Work, from: State) -> (to: State)
    requires
        is_known(work, from),
    ensures
        goes_on(work, work.alu(0x01, Reg::Rdi, Reg::Rax), from, to),
        is_known(work.alu(0x01, Reg::Rdi, Reg::Rax), to),
        keeps(from, to),
        to.regs == from.regs.update(7, lower::word(from.regs[7] + from.regs[0])),
{
    let code = encode::alu(0x01, Reg::Rdi, Reg::Rax);
    let inst = machine::Inst::Join { opcode: 0x01, dst: 7, src: 0 };
    assert(code =~= seq![0x48u8, 0x01u8, 0xC7u8]);
    assert forall|rest: Seq<u8>| #[trigger] machine::decoded(code + rest) == Some(
        (inst, code.len()),
    ) by {
        reveal(machine::decoded);
        let all = code + rest;
        assert(all =~= seq![0x48u8, 0x01u8, 0xC7u8] + rest);
        assert(all.skip(1) =~= seq![0x01u8, 0xC7u8] + rest);
        assert(all.skip(1).skip(1) =~= seq![0xC7u8] + rest);
    }
    machine::one_leads(code, inst, from);
    let to = from.does(inst)->Some_0;
    machine::what_is_written_leads(work, code, from, to);
    to
}

/// Growing answers where memory ended, and has it end as many bytes further on
/// as were asked for. The system is asked twice, and the code goes on up to
/// each time.
pub proof fn growing_moves_the_end(
    stage: Stage,
    work: Work,
    platform: PlatformId,
    args: Range,
    result: ValueId,
    state: State,
    end: u64,
    first: (u64, u64),
    second: (u64, u64),
) -> (run: (Work, State, Work, State, Work, State, State))
    requires
        stage.program.name(stage.program.routine(platform).name) == "grow"@,
        stage.program.values(args).len() == 1,
        is_known(work, state),
        stage.layout.fits(),
        stage.layout.source[stage.program.values(args)[0].0 as int]
            != stage.layout.source[result.0 as int],
        end > 0,
        end + stage.word(stage.program.values(args)[0], state) <= u64::MAX,
        !stage.simple(work, Op::PlatformCall { platform, args }, seq![result]).failed,
    ensures
        ({
            let (one, by, two, found, three, then, to) = run;
            let done = stage.simple(work, Op::PlatformCall { platform, args }, seq![result]);
            let size = stage.word(stage.program.values(args)[0], state);
            &&& goes_on(work, one, state, by)
            &&& asks(one, two)
            &&& moved(by, end, first.0, first.1) == Some((found, end))
            &&& goes_on(two, three, found, then)
            &&& asks(three, done)
            &&& moved(then, end, second.0, second.1) == Some((to, (end + size) as u64))
            &&& is_known(done, to)
            &&& sets(state, to, stage.place(result), end)
        }),
{
    let values = stage.program.values(args);
    let size = values[0];
    reveal_strlit("grow");
    reveal_strlit("write");
    reveal_strlit("exit");
    assert("grow"@.len() == 4 && "write"@.len() == 5 && "exit"@.len() == 4);
    assert("grow"@[0] == 'g' && "exit"@[0] == 'e');
    assert(seq![result][0] == result);
    let done = stage.simple(work, Op::PlatformCall { platform, args }, seq![result]);
    assert(done == stage.grow(work, size, result));
    let half = work.load_const(Reg::Rax, 12);
    let one = half.load_const(Reg::Rdi, 0);
    let two = one.syscall();
    let kept = stage.keep(two, result);
    let sized = stage.read(kept, Reg::Rdi, size);
    let summed = sized.alu(0x01, Reg::Rdi, Reg::Rax);
    let three = summed.load_const(Reg::Rax, 12);
    assert(done == three.syscall());
    assert(!sized.failed);
    assert(!kept.failed) by {
        if kept.failed {
            assert(stage.read(kept, Reg::Rdi, size).failed);
        }
    }
    let s0 = machine::a_constant_is_loaded(work, Reg::Rax, 12, state);
    let by = machine::a_constant_is_loaded(half, Reg::Rdi, 0, s0);
    machine::going_on_chains(work, half, one, state, s0, by);
    machine::keeping_chains(state, s0, by);
    let found = by.set(0, end).set(1, first.0).set(11, first.1);
    assert(is_known(two, found));
    let s1 = machine::a_result_is_kept(stage, two, result, found);
    assert(found.regs[0] == end);
    assert(stage.word(size, s1) == stage.word(size, state)) by {
        another_word_stays(stage, size, result, state, by, s1);
    }
    let s2 = machine::a_value_is_read(stage, kept, Reg::Rdi, size, s1);
    machine::going_on_chains(two, kept, sized, found, s1, s2);
    let s3 = adding_goes_on(sized, s2);
    machine::going_on_chains(two, sized, summed, found, s2, s3);
    let then = machine::a_constant_is_loaded(summed, Reg::Rax, 12, s3);
    machine::going_on_chains(two, summed, three, found, s3, then);
    machine::keeping_chains(s1, s2, s3);
    machine::keeping_chains(s1, s3, then);
    let sum = end + stage.word(size, state);
    assert(then.regs[7] == sum) by {
        vstd::arithmetic::div_mod::lemma_small_mod(sum as nat, machine::size());
    }
    let to = then.set(0, sum as u64).set(1, second.0).set(11, second.1);
    assert(is_known(done, to));
    assert forall|i: int| i >= 0 && i != stage.place(result) implies #[trigger] to.word(i)
        == state.word(i) by {
        assert(then.word(i) == s1.word(i));
        assert(s1.word(i) == found.word(i));
        assert(found.word(i) == by.word(i));
        assert(by.word(i) == state.word(i));
    }
    assert(then.word(stage.place(result)) == s1.word(stage.place(result)));
    assert(to.word(stage.place(result)) == then.word(stage.place(result)));
    (one, by, two, found, three, then, to)
}

proof fn another_word_stays(
    stage: Stage,
    value: ValueId,
    result: ValueId,
    state: State,
    by: State,
    after: State,
)
    requires
        keeps(state, by),
        stage.layout.source[result.0 as int] is Slot,
        stage.layout.source[value.0 as int] != stage.layout.source[result.0 as int],
        0 <= stage.place(result) < stage.layout.outgoing + stage.layout.slots,
        after.ground == by.ground,
        after.top == by.top,
        forall|i: int| i >= 0 && i != stage.place(result) ==> #[trigger] after.word(i) == by.word(i),
    ensures
        stage.word(value, after) == stage.word(value, state),
{
    match stage.layout.source[value.0 as int] {
        lower::Source::Slot(index) => {
            let at = stage.layout.outgoing + index;
            assert(after.word(at) == by.word(at));
            assert(by.word(at) == state.word(at));
        },
        lower::Source::Param(index) => {
            let at = stage.layout.words() + 1 + index;
            assert(after.word(at) == by.word(at));
            assert(by.word(at) == state.word(at));
        },
        _ => {},
    }
}

/// Whether a value can be read: what has a place on the stack has one that is
/// not too far away.
pub open spec fn is_readable(stage: Stage, value: ValueId) -> bool {
    match stage.layout.source[value.0 as int] {
        lower::Source::Slot(index) => index < stage.layout.slots,
        lower::Source::Param(index) => stage.layout.words() + 1 + index <= lower::MOST_WORDS,
        _ => true,
    }
}

/// Whether a value has a place to be kept at.
pub open spec fn is_kept(stage: Stage, value: ValueId) -> bool {
    stage.layout.source[value.0 as int] matches lower::Source::Slot(index) && index
        < stage.layout.slots
}

/// Whether a class is no wider than a word.
pub open spec fn fits_a_word(class: Class) -> bool {
    class matches Class::Fixed { bits } ==> bits <= 64
}

/// Whatever reaches no further than an instruction has room for is written,
/// and so is a sum or a comparison, where what it takes can be read and what it
/// answers has a place.
pub proof fn what_is_within_reach_is_written(
    stage: Stage,
    work: Work,
    op: Op,
    results: Seq<ValueId>,
)
    requires
        !work.failed,
        match op {
            Op::Load { address, offset, .. } => is_readable(stage, address) && i32::MIN
                <= ir::memory::away(offset, 8) <= i32::MAX && is_kept(stage, results[0]),
            Op::Store { address, offset, value, .. } => is_readable(stage, address) && is_readable(
                stage,
                value,
            ) && i32::MIN <= ir::memory::away(offset, 8) <= i32::MAX,
            Op::Binary { left, right, .. } => is_readable(stage, left) && is_readable(stage, right)
                && is_kept(stage, results[0]) && fits_a_word(stage.program.class(results[0])),
            Op::Compare { left, right, .. } => is_readable(stage, left) && is_readable(stage, right)
                && is_kept(stage, results[0]),
            Op::Convert { class, value } => is_readable(stage, value) && is_kept(
                stage,
                results[0],
            ) && fits_a_word(class),
            _ => false,
        },
    ensures
        !stage.simple(work, op, results).failed,
{
    match op {
        Op::Load { address, offset, .. } => {
            assert(!stage.read(work, Reg::Rcx, address).failed);
            assert(lower::distance(offset) == ir::memory::away(offset, 8));
        },
        Op::Store { address, offset, value, .. } => {
            assert(!stage.pair(work, value, address).failed);
            assert(lower::distance(offset) == ir::memory::away(offset, 8));
        },
        Op::Binary { op: how, left, right } => {
            let both = stage.pair(work, left, right);
            assert(!both.failed);
            let joined = both.alu(Stage::opcode(how), Reg::Rax, Reg::Rcx);
            assert(!joined.failed);
            assert(!joined.narrow(stage.program.class(results[0])).failed);
        },
        Op::Compare { left, right, .. } => {
            assert(!stage.pair(work, left, right).failed);
        },
        Op::Convert { class, value } => {
            let held = stage.read(work, Reg::Rax, value);
            assert(!held.failed);
            assert(!held.narrow(class).failed);
        },
        _ => {},
    }
}

} // verus!
