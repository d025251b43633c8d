//! What code that reaches into memory does.

use super::flow;
use super::lower::{
    self, Emitted, Setting, I32_ADD, I32_LOAD, I32_LOAD8_U, I32_SHL, I32_SHR_U, I32_STORE,
    I32_STORE8, MEMORY_GROW,
};
use super::machine::{self, State};
use crate::ir;
use crate::ir::machine::Held;
use crate::ir::memory::Memory;
use crate::ir::{Offset, Op, PlatformId, Range, ValueId, Width};
use crate::targets::bytes;
use vstd::prelude::*;

verus! {

/// How much memory grows by at a time.
pub open spec fn page() -> nat {
    0x1_0000
}

/// The number in as many bytes from a place on, the low one first.
pub open spec fn number_at(memory: Seq<u8>, at: int, count: int) -> nat {
    bytes::from_little_endian(memory.subrange(at, at + count))
}

/// With a number in as many bytes from a place on.
pub open spec fn with_number(memory: Seq<u8>, at: int, count: nat, value: nat) -> Seq<u8> {
    memory.take(at) + bytes::little_endian(value, count) + memory.skip(at + count as int)
}

/// What an access says: how it is aligned, and how far from the address it is.
pub open spec fn immediates(code: Seq<u8>) -> Option<(nat, nat, nat)> {
    match bytes::read_unsigned(code) {
        Some((align, first)) => match bytes::read_unsigned(code.skip(first as int)) {
            Some((offset, second)) => Some((align, offset, first + second)),
            None => None,
        },
        None => None,
    }
}

/// One instruction, and how many bytes it takes. An access past the end of
/// memory traps, and memory that is asked for is there, as far as addresses
/// go.
pub open spec fn step(code: Seq<u8>, state: State, memory: Seq<u8>) -> Option<
    (State, Seq<u8>, nat),
> {
    let rest = code.drop_first();
    let count = state.stack.len();
    if code.len() == 0 {
        None
    } else if code[0] == 0x28 || code[0] == 0x2D {
        let width: int = if code[0] == 0x28 {
            4
        } else {
            1
        };
        match immediates(rest) {
            Some((align, offset, taken)) => if count > 0 && align <= width / 2 {
                let at = state.stack.last() + offset;
                if at + width <= memory.len() {
                    Some((state.pop().push(number_at(memory, at as int, width)), memory, taken + 1))
                } else {
                    None
                }
            } else {
                None
            },
            None => None,
        }
    } else if code[0] == 0x36 || code[0] == 0x3A {
        let width: nat = if code[0] == 0x36 {
            4
        } else {
            1
        };
        match immediates(rest) {
            Some((align, offset, taken)) => if count > 1 && align <= width / 2 {
                let at = state.stack[count - 2] + offset;
                if at + width <= memory.len() {
                    Some(
                        (
                            state.pop().pop(),
                            with_number(memory, at as int, width, state.stack.last()),
                            taken + 1,
                        ),
                    )
                } else {
                    None
                }
            } else {
                None
            },
            None => None,
        }
    } else if code[0] == 0x40 {
        if code.len() > 1 && code[1] == 0 && count > 0 && memory.len() + page()
            * state.stack.last() <= page() * page() {
            Some(
                (
                    state.pop().push((memory.len() / page()) as nat),
                    memory + Seq::new(page() * state.stack.last(), |i: int| 0u8),
                    2,
                ),
            )
        } else {
            None
        }
    } else if code[0] == 0x76 && count > 1 {
        let by = vstd::arithmetic::power2::pow2(state.stack.last() % 32);
        Some((state.join((state.stack[count - 2] / by) as nat), memory, 1))
    } else if code[0] == 0x74 && count > 1 {
        let by = vstd::arithmetic::power2::pow2(state.stack.last() % 32);
        Some(
            (state.join((state.stack[count - 2] * by) as nat % machine::size()), memory, 1),
        )
    } else {
        match machine::step(code, state) {
            Some((next, taken)) => Some((next, memory, taken)),
            None => None,
        }
    }
}

/// What code comes to.
pub open spec fn runs(code: Seq<u8>, state: State, memory: Seq<u8>) -> Option<(State, Seq<u8>)>
    decreases code.len(),
{
    if code.len() == 0 {
        Some((state, memory))
    } else {
        match step(code, state, memory) {
            Some((next, then, taken)) => if 0 < taken <= code.len() {
                runs(code.skip(taken as int), next, then)
            } else {
                None
            },
            None => None,
        }
    }
}

proof fn a_step_runs(
    code: Seq<u8>,
    rest: Seq<u8>,
    state: State,
    memory: Seq<u8>,
    next: State,
    then: Seq<u8>,
)
    requires
        code.len() > 0,
        step(code + rest, state, memory) == Some((next, then, code.len())),
    ensures
        runs(code + rest, state, memory) == runs(rest, next, then),
{
    assert((code + rest).skip(code.len() as int) =~= rest);
}

proof fn an_unsigned_is_read_before_the_rest(code: Seq<u8>, rest: Seq<u8>)
    requires
        bytes::read_unsigned(code) is Some,
    ensures
        bytes::read_unsigned(code + rest) == bytes::read_unsigned(code),
        0 < bytes::read_unsigned(code)->Some_0.1 <= code.len(),
    decreases code.len(),
{
    if code[0] >= 128 {
        an_unsigned_is_read_before_the_rest(code.drop_first(), rest);
        assert((code + rest).drop_first() =~= code.drop_first() + rest);
    }
}

proof fn a_signed_is_read_before_the_rest(code: Seq<u8>, rest: Seq<u8>)
    requires
        bytes::read_signed(code) is Some,
    ensures
        bytes::read_signed(code + rest) == bytes::read_signed(code),
        0 < bytes::read_signed(code)->Some_0.1 <= code.len(),
    decreases code.len(),
{
    if code[0] >= 128 {
        a_signed_is_read_before_the_rest(code.drop_first(), rest);
        assert((code + rest).drop_first() =~= code.drop_first() + rest);
    }
}

/// Code that leaves memory alone does here what it does anywhere.
proof fn straight_code_runs(
    code: Seq<u8>,
    rest: Seq<u8>,
    state: State,
    memory: Seq<u8>,
    to: State,
)
    requires
        machine::runs(code, state) == Some(to),
    ensures
        runs(code + rest, state, memory) == runs(rest, to, memory),
    decreases code.len(),
{
    if code.len() == 0 {
        assert(code + rest =~= rest);
    } else {
        let (next, taken) = machine::step(code, state)->Some_0;
        let whole = code + rest;
        assert(whole.drop_first() =~= code.drop_first() + rest);
        assert(whole[0] == code[0]);
        if bytes::read_unsigned(code.drop_first()) is Some {
            an_unsigned_is_read_before_the_rest(code.drop_first(), rest);
        }
        if bytes::read_signed(code.drop_first()) is Some {
            a_signed_is_read_before_the_rest(code.drop_first(), rest);
        }
        assert(machine::step(whole, state) == Some((next, taken)));
        assert(step(whole, state, memory) == Some((next, memory, taken)));
        assert(whole.skip(taken as int) =~= code.skip(taken as int) + rest);
        straight_code_runs(code.skip(taken as int), rest, next, memory, to);
    }
}

/// A run of memory, by address.
pub open spec fn shared(memory: Seq<u8>) -> Memory {
    Map::new(|i: int| 0 <= i < memory.len(), |i: int| memory[i])
}

proof fn a_number_is_shared(memory: Seq<u8>, at: int, count: nat, value: nat)
    requires
        0 <= at,
        at + count <= memory.len(),
    ensures
        ir::memory::number_in(shared(memory), at, count) == number_at(memory, at, count as int),
        ir::memory::with_number(shared(memory), at, count, value) == shared(
            with_number(memory, at, count, value),
        ),
{
    ir::memory::a_number_is_its_bytes(shared(memory), at, count, value);
    assert(Seq::new(count, |i: int| shared(memory)[at + i]) =~= memory.subrange(
        at,
        at + count as int,
    ));
    ir::memory::the_rest_stays(shared(memory), at, count, value);
    bytes::little_endian_length(value, count);
    let one = ir::memory::with_number(shared(memory), at, count, value);
    let other = shared(with_number(memory, at, count, value));
    assert forall|i: int| one.dom().contains(i) implies one[i] == other[i] by {
        if at <= i < at + count {
            assert(one[at + (i - at)] == bytes::little_endian(value, count)[i - at]);
        } else {
            assert(one[i] == shared(memory)[i]);
        }
    }
    assert(one =~= other);
}

/// An access is read back as what it was written for.
proof fn an_access_reads_back(opcode: u8, align: nat, offset: nat, rest: Seq<u8>)
    ensures
        ({
            let code = lower::indexed(opcode, align) + bytes::unsigned_leb(offset);
            &&& (code + rest)[0] == opcode
            &&& immediates((code + rest).drop_first()) == Some(
                (align, offset, (code.len() - 1) as nat),
            )
        }),
{
    let (first, second) = (bytes::unsigned_leb(align), bytes::unsigned_leb(offset));
    let code = lower::indexed(opcode, align) + second;
    let after = (code + rest).drop_first();
    assert(after =~= first + (second + rest));
    bytes::unsigned_leb_reads_back(align, second + rest);
    assert(after.skip(first.len() as int) =~= second + rest);
    bytes::unsigned_leb_reads_back(offset, rest);
}

/// A load gives what memory holds at the address and as many bytes on as the
/// offset comes to: a byte, or the word that four bytes are.
pub proof fn a_load_reads_memory(
    setting: Setting,
    out: Emitted,
    width: Width,
    address: ValueId,
    offset: Offset,
    result: ValueId,
    held: Held,
    state: State,
    memory: Seq<u8>,
) -> (after: State)
    requires
        setting.is_placed(address, state.locals),
        setting.is_placed(result, state.locals),
        held.dom().contains(address) ==> held[address] == setting.word(address, state.locals),
        !setting.simple(out, Op::Load { width, address, offset }, seq![result]).failed,
        setting.program.touches(
            4,
            Op::Load { width, address, offset },
            seq![result],
            held,
            shared(memory),
        ) is Some,
    ensures
        ({
            let op = Op::Load { width, address, offset };
            let (then, left) = setting.program.touches(
                4,
                op,
                seq![result],
                held,
                shared(memory),
            )->Some_0;
            let end = setting.simple(out, op, seq![result]);
            &&& runs(machine::added(out, end), state, memory) == Some((after, memory))
            &&& setting.local(result) matches Some(index) && after == (State {
                locals: state.locals.update(index as int, then[result]),
                ..state
            })
            &&& left == shared(memory)
        }),
{
    let op = Op::Load { width, address, offset };
    let one = setting.push(out, address);
    let two = setting.access(one, width, offset, I32_LOAD8_U, I32_LOAD);
    let end = setting.simple(out, op, seq![result]);
    let none = Seq::<u8>::empty();
    assert(seq![result][0] == result);
    assert(end == setting.set(two, result));
    flow::a_set_follows(setting, two, result);
    let away = ir::memory::away(offset, 4);
    let distance = lower::distance(offset);
    assert(distance == away);
    assert(0 <= distance <= u32::MAX);
    assert(!one.failed);
    let read = ir::machine::read(held, seq![address])->Some_0;
    assert(held.dom().contains(seq![address][0]));
    let at = held[address] + away;
    let count = ir::memory::reach(width, 4);
    let (opcode, align) = match width {
        Width::Byte => (I32_LOAD8_U, 0nat),
        Width::Word => (I32_LOAD, 2nat),
    };
    let code = lower::indexed(opcode, align) + bytes::unsigned_leb(distance as nat);
    assert(two == one.emit(code));
    flow::a_push_follows(setting, out, address);
    flow::emitting_follows(one, code);
    machine::a_push_pushes(setting, out, address, none, state);
    assert(machine::added(out, one) + none =~= machine::added(out, one));
    let pushed = state.push(setting.word(address, state.locals));
    machine::what_is_added(one, code);
    machine::additions_chain(out, one, two);
    machine::additions_chain(out, two, end);
    let last = machine::added(two, end);
    straight_code_runs(machine::added(out, one), code + last, state, memory, pushed);
    assert(machine::added(out, end) =~= machine::added(out, one) + (code + last));
    an_access_reads_back(opcode, align, distance as nat, last);
    let number = ir::memory::number_in(shared(memory), at, count);
    assert(shared(memory).dom().contains(at));
    assert(shared(memory).dom().contains(at + count - 1));
    a_number_is_shared(memory, at, count, 0);
    let loaded = pushed.pop().push(number);
    assert(step(code + last, pushed, memory) == Some((loaded, memory, code.len())));
    a_step_runs(code, last, pushed, memory, loaded, memory);
    machine::a_set_sets(setting, two, result, none, loaded);
    assert(last + none =~= last);
    let index = setting.local(result)->Some_0;
    let after = loaded.set(index as int);
    assert(machine::runs(last, loaded) == Some(after));
    straight_code_runs(last, none, loaded, memory, after);
    let then = setting.program.touches(4, op, seq![result], held, shared(memory))->Some_0.0;
    assert(then[result] == number) by {
        reveal_with_fuel(ir::machine::defined, 2);
        assert(seq![result].last() == result);
    }
    assert(after =~= (State { locals: state.locals.update(index as int, number), ..state }));
    after
}

/// A store leaves in memory what was stored, at the address and as many bytes
/// on as the offset comes to, and nothing else touched.
pub proof fn a_store_writes_memory(
    setting: Setting,
    out: Emitted,
    width: Width,
    address: ValueId,
    offset: Offset,
    value: ValueId,
    held: Held,
    state: State,
    memory: Seq<u8>,
) -> (left: Seq<u8>)
    requires
        setting.is_placed(address, state.locals),
        setting.is_placed(value, state.locals),
        held.dom().contains(address) ==> held[address] == setting.word(address, state.locals),
        held.dom().contains(value) ==> held[value] == setting.word(value, state.locals),
        !setting.simple(out, Op::Store { width, address, offset, value }, seq![]).failed,
        setting.program.touches(
            4,
            Op::Store { width, address, offset, value },
            seq![],
            held,
            shared(memory),
        ) is Some,
    ensures
        ({
            let op = Op::Store { width, address, offset, value };
            let end = setting.simple(out, op, seq![]);
            &&& runs(machine::added(out, end), state, memory) == Some((state, left))
            &&& setting.program.touches(4, op, seq![], held, shared(memory)) == Some(
                (held, shared(left)),
            )
        }),
{
    let op = Op::Store { width, address, offset, value };
    let one = setting.push(out, address);
    let two = setting.push(one, value);
    let end = setting.simple(out, op, seq![]);
    let none = Seq::<u8>::empty();
    let away = ir::memory::away(offset, 4);
    let distance = lower::distance(offset);
    assert(end == setting.access(two, width, offset, I32_STORE8, I32_STORE));
    assert(distance == away);
    assert(0 <= distance <= u32::MAX);
    flow::a_push_follows(setting, one, value);
    assert(!one.failed && !two.failed);
    let both = ir::machine::read(held, seq![address, value])->Some_0;
    assert(held.dom().contains(seq![address, value][0]));
    assert(held.dom().contains(seq![address, value][1]));
    let at = held[address] + away;
    let count = ir::memory::reach(width, 4);
    let (opcode, align) = match width {
        Width::Byte => (I32_STORE8, 0nat),
        Width::Word => (I32_STORE, 2nat),
    };
    let code = lower::indexed(opcode, align) + bytes::unsigned_leb(distance as nat);
    assert(end == two.emit(code));
    flow::a_push_follows(setting, out, address);
    flow::emitting_follows(two, code);
    machine::a_push_pushes(setting, out, address, none, state);
    let first = state.push(setting.word(address, state.locals));
    machine::a_push_pushes(setting, one, value, none, first);
    let second = first.push(setting.word(value, state.locals));
    assert(machine::added(out, one) + none =~= machine::added(out, one));
    assert(machine::added(one, two) + none =~= machine::added(one, two));
    machine::what_is_added(two, code);
    machine::additions_chain(out, one, two);
    machine::additions_chain(out, two, end);
    straight_code_runs(
        machine::added(out, one),
        machine::added(one, two) + code,
        state,
        memory,
        first,
    );
    straight_code_runs(machine::added(one, two), code, first, memory, second);
    assert(machine::added(out, end) =~= machine::added(out, one) + (machine::added(one, two)
        + code));
    an_access_reads_back(opcode, align, distance as nat, none);
    assert(code + none =~= code);
    assert(shared(memory).dom().contains(at));
    assert(shared(memory).dom().contains(at + count - 1));
    a_number_is_shared(memory, at, count, held[value]);
    let left = with_number(memory, at, count, held[value]);
    assert(second.pop().pop() =~= state);
    assert(second.stack[second.stack.len() - 2] == held[address]);
    assert(step(code, second, memory) == Some((state, left, code.len())));
    a_step_runs(code, none, second, memory, state, left);
    left
}

/// From a size on the stack to where memory ended, with memory grown.
proof fn growing_runs(last: Seq<u8>, pushed: State, memory: Seq<u8>) -> (more: Seq<u8>)
    requires
        pushed.stack.len() > 0,
        memory.len() % page() == 0,
        memory.len() + pushed.stack.last() + page() <= machine::size(),
    ensures
        ({
            let code = lower::i32_const(0xFFFF) + seq![I32_ADD] + lower::i32_const(16) + seq![
                I32_SHR_U,
            ] + lower::indexed(MEMORY_GROW, 0) + lower::i32_const(16) + seq![I32_SHL];
            runs(code + last, pushed, memory) == runs(
                last,
                pushed.pop().push(memory.len()),
                more,
            )
        }),
        memory.len() + pushed.stack.last() <= more.len() < memory.len() + pushed.stack.last()
            + page(),
        more.len() % page() == 0,
        memory.is_prefix_of(more),
        forall|i: int| memory.len() <= i < more.len() ==> #[trigger] more[i] == 0,
{
    let size = pushed.stack.last();
    let state = pushed.pop();
    let a = lower::i32_const(0xFFFF);
    let b = lower::i32_const(16);
    let g = lower::indexed(MEMORY_GROW, 0);
    let code = a + seq![I32_ADD] + b + seq![I32_SHR_U] + g + b + seq![I32_SHL];
    // What follows each instruction.
    let r6 = seq![I32_SHL] + last;
    let r5 = b + r6;
    let r4 = g + r5;
    let r3 = seq![I32_SHR_U] + r4;
    let r2 = b + r3;
    let r1 = seq![I32_ADD] + r2;
    assert(code + last =~= a + r1);
    a_constant_runs(0xFFFF, r1, pushed, memory);
    let s1 = pushed.push(0xFFFF);
    let s2 = state.push(size + 0xFFFF);
    an_addition_runs(r2, state, size, 0xFFFF, memory);
    assert(pushed =~= state.push(size));
    assert(r1 =~= seq![I32_ADD] + r2);
    a_constant_runs(16, r3, s2, memory);
    let pages = ((size + 0xFFFF) / page()) as nat;
    a_shift_down_runs(r4, state, size + 0xFFFF, memory);
    assert(g =~= seq![MEMORY_GROW, 0u8]);
    let s4 = state.push(pages);
    let more = memory + Seq::new(page() * pages, |i: int| 0u8);
    let held = (memory.len() / page()) as nat;
    let s5 = state.push(held);
    assert(s4.stack.last() == pages);
    assert(s4.pop() =~= state);
    assert(page() * pages <= size + 0xFFFF);
    assert(r4[0] == MEMORY_GROW && r4[1] == 0);
    assert(step(r4, s4, memory) == Some((s5, more, 2nat)));
    a_step_runs(g, r5, s4, memory, s5, more);
    a_constant_runs(16, r6, s5, more);
    a_shift_up_runs(last, state, held, more);
    assert(held * page() == memory.len());
    assert(memory.len() % machine::size() == memory.len()) by {
        vstd::arithmetic::div_mod::lemma_small_mod(memory.len(), machine::size());
    }
    assert(more.len() % page() == 0) by {
        assert(more.len() == page() * (held + pages)) by (nonlinear_arith)
            requires
                more.len() == memory.len() + page() * pages,
                held * page() == memory.len(),
        ;
        vstd::arithmetic::div_mod::lemma_mod_multiples_basic(
            (held + pages) as int,
            page() as int,
        );
    }
    more
}

proof fn an_addition_runs(rest: Seq<u8>, state: State, left: nat, right: nat, memory: Seq<u8>)
    requires
        left + right < machine::size(),
    ensures
        runs(seq![I32_ADD] + rest, state.push(left).push(right), memory) == runs(
            rest,
            state.push(left + right),
            memory,
        ),
{
    let both = state.push(left).push(right);
    vstd::arithmetic::div_mod::lemma_small_mod((left + right) as nat, machine::size());
    assert(both.pop().pop() =~= state);
    assert(both.stack[both.stack.len() - 2] == left);
    assert((seq![I32_ADD] + rest)[0] == I32_ADD);
    let next = state.push(left + right);
    assert(both.join(left + right) =~= next);
    assert(step(seq![I32_ADD] + rest, both, memory) == Some((next, memory, 1nat)));
    a_step_runs(seq![I32_ADD], rest, both, memory, next, memory);
}

proof fn a_shift_down_runs(rest: Seq<u8>, state: State, left: nat, memory: Seq<u8>)
    ensures
        runs(seq![I32_SHR_U] + rest, state.push(left).push(16), memory) == runs(
            rest,
            state.push((left / page()) as nat),
            memory,
        ),
{
    let both = state.push(left).push(16);
    vstd::arithmetic::power2::lemma2_to64();
    assert(vstd::arithmetic::power2::pow2(16) == page());
    assert(both.stack[both.stack.len() - 2] == left);
    assert((seq![I32_SHR_U] + rest)[0] == I32_SHR_U);
    let next = state.push((left / page()) as nat);
    assert(both.join((left / page()) as nat) =~= next);
    assert(step(seq![I32_SHR_U] + rest, both, memory) == Some((next, memory, 1nat)));
    a_step_runs(seq![I32_SHR_U], rest, both, memory, next, memory);
}

proof fn a_shift_up_runs(rest: Seq<u8>, state: State, left: nat, memory: Seq<u8>)
    ensures
        runs(seq![I32_SHL] + rest, state.push(left).push(16), memory) == runs(
            rest,
            state.push((left * page()) as nat % machine::size()),
            memory,
        ),
{
    let both = state.push(left).push(16);
    vstd::arithmetic::power2::lemma2_to64();
    assert(vstd::arithmetic::power2::pow2(16) == page());
    assert(both.stack[both.stack.len() - 2] == left);
    assert((seq![I32_SHL] + rest)[0] == I32_SHL);
    let next = state.push((left * page()) as nat % machine::size());
    assert(both.join((left * page()) as nat % machine::size()) =~= next);
    assert(step(seq![I32_SHL] + rest, both, memory) == Some((next, memory, 1nat)));
    a_step_runs(seq![I32_SHL], rest, both, memory, next, memory);
}

/// Growing answers where memory ended, and adds as many bytes as were asked
/// for, at least, past that: all of them nought, and nothing else touched.
pub proof fn growing_adds_memory(
    setting: Setting,
    out: Emitted,
    platform: PlatformId,
    args: Range,
    result: ValueId,
    state: State,
    memory: Seq<u8>,
) -> (left: (State, Seq<u8>))
    requires
        setting.program.name(setting.program.routine(platform).name) == "grow"@,
        setting.program.values(args).len() == 1,
        setting.is_placed(setting.program.values(args)[0], state.locals),
        setting.is_placed(result, state.locals),
        !setting.simple(out, Op::PlatformCall { platform, args }, seq![result]).failed,
        memory.len() % page() == 0,
        memory.len() + setting.word(setting.program.values(args)[0], state.locals) + page()
            <= machine::size(),
    ensures
        ({
            let op = Op::PlatformCall { platform, args };
            let end = setting.simple(out, op, seq![result]);
            let size = setting.word(setting.program.values(args)[0], state.locals);
            let (after, more) = left;
            &&& runs(machine::added(out, end), state, memory) == Some(left)
            &&& setting.local(result) matches Some(index) && after == (State {
                locals: state.locals.update(index as int, memory.len()),
                ..state
            })
            &&& memory.len() + size <= more.len() < memory.len() + size + page()
            &&& more.len() % page() == 0
            &&& memory.is_prefix_of(more)
            &&& forall|i: int| memory.len() <= i < more.len() ==> #[trigger] more[i] == 0
        }),
{
    let values = setting.program.values(args);
    let op = Op::PlatformCall { platform, args };
    let end = setting.simple(out, op, seq![result]);
    let size = setting.word(values[0], state.locals);
    let none = Seq::<u8>::empty();
    reveal_strlit("grow");
    reveal_strlit("write");
    reveal_strlit("exit");
    assert("grow"@.len() == 4 && "write"@.len() == 5 && "exit"@.len() == 4);
    assert("grow"@[0] == 'g' && "exit"@[0] == 'e');
    assert(seq![result][0] == result);
    let one = setting.push(out, values[0]);
    let a = lower::i32_const(0xFFFF);
    let b = lower::i32_const(16);
    let g = lower::indexed(MEMORY_GROW, 0);
    let code = a + seq![I32_ADD] + b + seq![I32_SHR_U] + g + b + seq![I32_SHL];
    let two = one.emit(code);
    assert(end == setting.set(two, result));
    flow::a_set_follows(setting, two, result);
    flow::a_push_follows(setting, out, values[0]);
    flow::emitting_follows(one, code);
    assert(!one.failed);
    machine::a_push_pushes(setting, out, values[0], none, state);
    assert(machine::added(out, one) + none =~= machine::added(out, one));
    machine::what_is_added(one, code);
    machine::additions_chain(out, one, two);
    machine::additions_chain(out, two, end);
    let last = machine::added(two, end);
    let pushed = state.push(size);
    straight_code_runs(machine::added(out, one), code + last, state, memory, pushed);
    assert(machine::added(out, end) =~= machine::added(out, one) + (code + last));
    assert(pushed.pop() =~= state);
    let more = growing_runs(last, pushed, memory);
    let s7 = state.push(memory.len());
    machine::a_set_sets(setting, two, result, none, s7);
    assert(last + none =~= last);
    let index = setting.local(result)->Some_0;
    let after = s7.set(index as int);
    assert(machine::runs(last, s7) == Some(after));
    straight_code_runs(last, none, s7, more, after);
    assert(after =~= (State { locals: state.locals.update(index as int, memory.len()), ..state }));
    (after, more)
}

proof fn a_constant_runs(value: int, rest: Seq<u8>, state: State, memory: Seq<u8>)
    requires
        0 <= value < machine::size(),
    ensures
        runs(lower::i32_const(value) + rest, state, memory) == runs(
            rest,
            state.push(value as nat),
            memory,
        ),
{
    let code = lower::i32_const(value);
    bytes::signed_leb_reads_back(value, rest);
    assert((code + rest).drop_first() =~= bytes::signed_leb(value) + rest);
    vstd::arithmetic::div_mod::lemma_small_mod(value as nat, machine::size());
    a_step_runs(code, rest, state, memory, state.push(value as nat), memory);
}

/// Whether a value can be pushed: it has a local, or is a constant that a word
/// holds.
pub open spec fn is_pushed(setting: Setting, value: ValueId) -> bool {
    setting.local(value) is Some || setting.constant(value)->0 <= u32::MAX
}

/// Whatever reaches no further than an instruction has room for is written,
/// and so is a sum or a comparison, where what it takes can be pushed and what
/// it answers has a local.
pub proof fn what_is_within_reach_is_written(
    setting: Setting,
    out: Emitted,
    op: Op,
    results: Seq<ValueId>,
)
    requires
        !out.failed,
        match op {
            Op::Load { address, offset, .. } => is_pushed(setting, address) && 0
                <= ir::memory::away(offset, 4) <= u32::MAX && setting.local(results[0]) is Some,
            Op::Store { address, offset, value, .. } => is_pushed(setting, address) && is_pushed(
                setting,
                value,
            ) && 0 <= ir::memory::away(offset, 4) <= u32::MAX,
            Op::Binary { left, right, .. } => is_pushed(setting, left) && is_pushed(setting, right)
                && setting.local(results[0]) is Some && setting.program.class(results[0]) is Word,
            Op::Compare { left, right, .. } => is_pushed(setting, left) && is_pushed(setting, right)
                && setting.local(results[0]) is Some,
            _ => false,
        },
    ensures
        !setting.simple(out, op, results).failed,
{
}

} // verus!
