//! What straight code does, on the machine it is written for.
//!
//! The registers are eight bits and a word is sixteen, so every word
//! operation is two byte operations with a carry. Only code that neither
//! branches nor calls is said anything of.

use super::assembler::{self, Listing};
use super::lower::{self, Machine, Source, Work};
use super::{FP, T0, T0_HIGH, T1, T1_HIGH};
use crate::ir::{machine, Binary, Class, Op, ValueId};
use vstd::prelude::*;

verus! {

/// The accumulator, the index registers, the top of the hardware stack, the
/// carry, whether what was last worked out is nothing, and memory. Nothing is
/// said of code that writes over the image it is part of, which ends at
/// `limit`.
#[verifier::ext_equal]
pub struct State {
    pub a: u8,
    pub x: u8,
    pub y: u8,
    pub top: u8,
    pub carry: bool,
    pub zero: bool,
    pub limit: int,
    pub memory: Seq<u8>,
}

/// How far memory goes.
pub open spec fn size() -> nat {
    0x1_0000
}

/// What eight bits hold of a number.
pub open spec fn byte(value: int) -> u8 {
    (value % 256) as u8
}

/// The word a pair of bytes is, the low one first.
pub open spec fn word(memory: Seq<u8>, at: int) -> nat {
    (memory[at] + 256 * memory[at + 1]) as nat
}

impl State {
    /// Where a pair in the first page leads, so many bytes on.
    pub open spec fn pointed(self, pair: u8, by: u8) -> int {
        (self.memory[pair as int] + 256 * self.memory[(pair + 1) % 256] + by) % size() as int
    }

    pub open spec fn write(self, at: int, value: u8) -> State {
        State { memory: self.memory.update(at, value), ..self }
    }

    pub open spec fn read(self, value: u8) -> State {
        State { a: value, zero: value == 0, ..self }
    }

    pub open spec fn index(self, value: u8) -> State {
        State { y: value, zero: value == 0, ..self }
    }

    /// `a` and a byte added, and the carry.
    pub open spec fn sum(self, value: u8) -> State {
        let carry: int = if self.carry {
            1
        } else {
            0
        };
        let sum = self.a + value + carry;
        State { a: byte(sum), carry: sum >= 256, zero: byte(sum) == 0, ..self }
    }

    /// A byte taken from `a`, and one more where there is no carry.
    pub open spec fn difference(self, value: u8) -> State {
        let borrow: int = if self.carry {
            0
        } else {
            1
        };
        let difference = self.a - value - borrow;
        State {
            a: byte(difference),
            carry: difference >= 0,
            zero: byte(difference) == 0,
            ..self
        }
    }

    /// What an instruction of one byte does.
    pub open spec fn acts(self, opcode: u8) -> Option<State> {
        if opcode == 0x18 {
            Some(State { carry: false, ..self })
        } else if opcode == 0x38 {
            Some(State { carry: true, ..self })
        } else if opcode == 0xC8 {
            Some(self.index(byte(self.y + 1)))
        } else {
            None
        }
    }

    /// What an instruction of two bytes does.
    pub open spec fn does(self, opcode: u8, operand: u8) -> Option<State> {
        if opcode == 0xA9 {
            Some(self.read(operand))
        } else if opcode == 0xA5 {
            Some(self.read(self.memory[operand as int]))
        } else if opcode == 0x85 {
            Some(self.write(operand as int, self.a))
        } else if opcode == 0xA0 {
            Some(self.index(operand))
        } else if opcode == 0xB1 {
            Some(self.read(self.memory[self.pointed(operand, self.y)]))
        } else if opcode == 0x91 {
            if self.limit <= self.pointed(operand, self.y) {
                Some(self.write(self.pointed(operand, self.y), self.a))
            } else {
                None
            }
        } else if opcode == 0xA2 {
            Some(State { x: operand, zero: operand == 0, ..self })
        } else if opcode == 0xA6 {
            Some(
                State {
                    x: self.memory[operand as int],
                    zero: self.memory[operand as int] == 0,
                    ..self
                },
            )
        } else if opcode == 0x65 {
            Some(self.sum(self.memory[operand as int]))
        } else if opcode == 0x69 {
            Some(self.sum(operand))
        } else if opcode == 0xE5 {
            Some(self.difference(self.memory[operand as int]))
        } else if opcode == 0xE9 {
            Some(self.difference(operand))
        } else if opcode == 0x29 {
            Some(self.read(self.a & operand))
        } else if opcode == 0x05 {
            Some(self.read(self.a | self.memory[operand as int]))
        } else if opcode == 0xC5 {
            Some(
                State {
                    carry: self.a >= self.memory[operand as int],
                    zero: self.a == self.memory[operand as int],
                    ..self
                },
            )
        } else {
            None
        }
    }
}

/// What code comes to.
pub open spec fn runs(code: Seq<u8>, state: State) -> Option<State>
    decreases code.len(),
{
    if code.len() == 0 {
        Some(state)
    } else {
        match state.acts(code[0]) {
            Some(next) => runs(code.skip(1), next),
            None => if code.len() < 2 {
                None
            } else {
                match state.does(code[0], code[1]) {
                    Some(next) => runs(code.skip(2), next),
                    None => None,
                }
            },
        }
    }
}

/// What one listing adds to another.
pub open spec fn added(before: Listing, after: Listing) -> Seq<u8> {
    after.bytes.skip(before.bytes.len() as int)
}

/// Whether what one listing adds to another leads from one state to another,
/// whatever follows.
pub open spec fn leads(before: Listing, after: Listing, from: State, to: State) -> bool {
    &&& before.bytes.is_prefix_of(after.bytes)
    &&& forall|rest: Seq<u8>| #[trigger]
        runs(added(before, after) + rest, from) == runs(rest, to)
}

pub(super) proof fn leading_chains(
    first: Listing,
    second: Listing,
    third: Listing,
    from: State,
    by: State,
    to: State,
)
    requires
        leads(first, second, from, by),
        leads(second, third, by, to),
    ensures
        leads(first, third, from, to),
{
    assert forall|i: int| 0 <= i < first.bytes.len() implies first.bytes[i] == third.bytes[i] by {
        assert(first.bytes[i] == second.bytes[i]);
    }
    assert forall|i: int| 0 <= i < second.bytes.len() implies second.bytes[i]
        == third.bytes[i] by {}
    assert forall|rest: Seq<u8>| #[trigger]
        runs(added(first, third) + rest, from) == runs(rest, to) by {
        assert(added(first, third) + rest =~= added(first, second) + (added(second, third)
            + rest));
        assert(runs(added(first, second) + (added(second, third) + rest), from) == runs(
            added(second, third) + rest,
            by,
        ));
    }
}

pub(super) proof fn nothing_leads_nowhere(listing: Listing, state: State)
    ensures
        leads(listing, listing, state, state),
{
    assert forall|rest: Seq<u8>| #[trigger]
        runs(added(listing, listing) + rest, state) == runs(rest, state) by {
        assert(added(listing, listing) + rest =~= rest);
    }
}

pub(super) proof fn one_byte_leads(listing: Listing, opcode: u8, from: State)
    requires
        from.acts(opcode) is Some,
    ensures
        leads(listing, listing.emit(seq![opcode]), from, from.acts(opcode)->Some_0),
{
    let after = listing.emit(seq![opcode]);
    let to = from.acts(opcode)->Some_0;
    assert forall|rest: Seq<u8>| #[trigger]
        runs(added(listing, after) + rest, from) == runs(rest, to) by {
        let code = added(listing, after) + rest;
        assert(code =~= seq![opcode] + rest);
        assert(code[0] == opcode);
        assert(code.skip(1) =~= rest);
    }
}

pub(super) proof fn two_bytes_lead(listing: Listing, opcode: u8, operand: u8, from: State)
    requires
        from.acts(opcode) is None,
        from.does(opcode, operand) is Some,
    ensures
        leads(
            listing,
            listing.emit(seq![opcode, operand]),
            from,
            from.does(opcode, operand)->Some_0,
        ),
{
    let after = listing.emit(seq![opcode, operand]);
    let to = from.does(opcode, operand)->Some_0;
    assert forall|rest: Seq<u8>| #[trigger]
        runs(added(listing, after) + rest, from) == runs(rest, to) by {
        let code = added(listing, after) + rest;
        assert(code =~= seq![opcode, operand] + rest);
        assert(code[0] == opcode && code[1] == operand);
        assert(code.skip(2) =~= rest);
    }
}

/// A pair read, worked on and written back: what is in the accumulator on the
/// way is not said.
proof fn a_byte_is_worked_out(
    listing: Listing,
    op: Binary,
    left: u8,
    right: u8,
    from: State,
)
    requires
        from.memory.len() == size(),
    ensures
        ({
            let read = from.read(from.memory[left as int]);
            let worked = match op {
                Binary::Add => read.sum(from.memory[right as int]),
                Binary::Sub => read.difference(from.memory[right as int]),
            };
            let after = match op {
                Binary::Add => listing.lda_zp(left).adc_zp(right).sta_zp(left),
                Binary::Sub => listing.lda_zp(left).sbc_zp(right).sta_zp(left),
            };
            leads(listing, after, from, worked.write(left as int, worked.a))
        }),
{
    let first = listing.lda_zp(left);
    let read = from.read(from.memory[left as int]);
    two_bytes_lead(listing, 0xA5, left, from);
    match op {
        Binary::Add => {
            let second = first.adc_zp(right);
            let worked = read.sum(from.memory[right as int]);
            two_bytes_lead(first, 0x65, right, read);
            two_bytes_lead(second, 0x85, left, worked);
            leading_chains(listing, first, second, from, read, worked);
            leading_chains(
                listing,
                second,
                second.sta_zp(left),
                from,
                worked,
                worked.write(left as int, worked.a),
            );
        },
        Binary::Sub => {
            let second = first.sbc_zp(right);
            let worked = read.difference(from.memory[right as int]);
            two_bytes_lead(first, 0xE5, right, read);
            two_bytes_lead(second, 0x85, left, worked);
            leading_chains(listing, first, second, from, read, worked);
            leading_chains(
                listing,
                second,
                second.sta_zp(left),
                from,
                worked,
                worked.write(left as int, worked.a),
            );
        },
    }
}

/// What an operation makes of two words.
pub open spec fn computed(op: Binary, left: int, right: int, span: int) -> int {
    match op {
        Binary::Add => (left + right) % span,
        Binary::Sub => (left - right) % span,
    }
}

/// The carry between two bytes is what makes a word of them.
pub(super) proof fn a_carry_joins_bytes(low: int, high: int, other_low: int, other_high: int)
    requires
        0 <= low < 256,
        0 <= high < 256,
        0 <= other_low < 256,
        0 <= other_high < 256,
    ensures
        ({
            let carry: int = if low + other_low >= 256 {
                1
            } else {
                0
            };
            let whole = (low + 256 * high) + (other_low + 256 * other_high);
            &&& (low + other_low) % 256 + 256 * ((high + other_high + carry) % 256) == whole
                % 0x1_0000
            &&& (low + other_low) % 256 == whole % 256
        }),
{
    let sum = low + other_low;
    let carry: int = if sum >= 256 {
        1
    } else {
        0
    };
    let upper = high + other_high + carry;
    let over: int = if upper >= 256 {
        1
    } else {
        0
    };
    assert(sum % 256 == sum - 256 * carry);
    assert(upper % 256 == upper - 256 * over);
    let whole = (low + 256 * high) + (other_low + 256 * other_high);
    assert(whole == (sum - 256 * carry) + 256 * (upper - 256 * over) + 0x1_0000 * over);
    assert(whole == (sum - 256 * carry) + 256 * upper);
}

/// And the borrow.
pub(super) proof fn a_borrow_joins_bytes(low: int, high: int, other_low: int, other_high: int)
    requires
        0 <= low < 256,
        0 <= high < 256,
        0 <= other_low < 256,
        0 <= other_high < 256,
    ensures
        ({
            let borrow: int = if low - other_low >= 0 {
                0
            } else {
                1
            };
            let whole = (low + 256 * high) - (other_low + 256 * other_high);
            &&& (low - other_low) % 256 + 256 * ((high - other_high - borrow) % 256) == whole
                % 0x1_0000
            &&& (low - other_low) % 256 == whole % 256
        }),
{
    let rest = low - other_low;
    let borrow: int = if rest >= 0 {
        0
    } else {
        1
    };
    let upper = high - other_high - borrow;
    let over: int = if upper >= 0 {
        0
    } else {
        1
    };
    assert(rest % 256 == rest + 256 * borrow);
    assert(upper % 256 == upper + 256 * over);
    let whole = (low + 256 * high) - (other_low + 256 * other_high);
    assert(whole == (rest + 256 * borrow) + 256 * (upper + 256 * over) - 0x1_0000 * over);
    assert(whole == (rest + 256 * borrow) + 256 * upper);
}

/// Arithmetic on the scratch pairs is arithmetic on words, the low byte then
/// the high, carrying between them. Where the class is narrow, it is
/// arithmetic on bytes, and the high one is nothing.
pub proof fn arithmetic_is_on_words(listing: Listing, op: Binary, narrow: bool, state: State) -> (
    after: State)
    requires
        state.memory.len() == size(),
    ensures
        leads(listing, listing.arithmetic(op, narrow), state, after),
        word(after.memory, T0 as int) == computed(
            op,
            word(state.memory, T0 as int) as int,
            word(state.memory, T1 as int) as int,
            if narrow {
                256
            } else {
                0x1_0000
            },
        ),
        after.memory.len() == size(),
        forall|i: int|
            0 <= i < size() && i != T0 && i != T0_HIGH ==> #[trigger] after.memory[i]
                == state.memory[i],
{
    // The carry is set out first, in between the reading and the working.
    let read = state.read(state.memory[T0 as int]);
    let first = listing.lda_zp(T0);
    two_bytes_lead(listing, 0xA5, T0, state);
    let start = State { carry: op == Binary::Sub, ..read };
    let (second, third, worked) = match op {
        Binary::Add => {
            one_byte_leads(first, 0x18, read);
            two_bytes_lead(first.clc(), 0x65, T1, start);
            (first.clc(), first.clc().adc_zp(T1), start.sum(state.memory[T1 as int]))
        },
        Binary::Sub => {
            one_byte_leads(first, 0x38, read);
            two_bytes_lead(first.sec(), 0xE5, T1, start);
            (first.sec(), first.sec().sbc_zp(T1), start.difference(state.memory[T1 as int]))
        },
    };
    let low = worked.write(T0 as int, worked.a);
    let fourth = third.sta_zp(T0);
    two_bytes_lead(third, 0x85, T0, worked);
    leading_chains(listing, first, second, state, read, start);
    leading_chains(listing, second, third, state, start, worked);
    leading_chains(listing, third, fourth, state, worked, low);
    let (left, right) = (state.memory[T0 as int] as int, state.memory[T1 as int] as int);
    let (left_high, right_high) = (
        state.memory[T0_HIGH as int] as int,
        state.memory[T1_HIGH as int] as int,
    );
    a_carry_joins_bytes(left, left_high, right, right_high);
    a_borrow_joins_bytes(left, left_high, right, right_high);
    assert(low.memory[T0_HIGH as int] == state.memory[T0_HIGH as int]);
    assert(low.memory[T1_HIGH as int] == state.memory[T1_HIGH as int]);
    if narrow {
        let none = low.read(0);
        let end = none.write(T0_HIGH as int, 0);
        two_bytes_lead(fourth, 0xA9, 0, low);
        two_bytes_lead(fourth.lda_imm(0), 0x85, T0_HIGH, none);
        leading_chains(listing, fourth, fourth.lda_imm(0), state, low, none);
        leading_chains(
            listing,
            fourth.lda_imm(0),
            fourth.lda_imm(0).sta_zp(T0_HIGH),
            state,
            none,
            end,
        );
        end
    } else {
        a_byte_is_worked_out(fourth, op, T0_HIGH, T1_HIGH, low);
        let high = low.read(low.memory[T0_HIGH as int]);
        let upper = match op {
            Binary::Add => high.sum(low.memory[T1_HIGH as int]),
            Binary::Sub => high.difference(low.memory[T1_HIGH as int]),
        };
        let end = upper.write(T0_HIGH as int, upper.a);
        leading_chains(
            listing,
            fourth,
            listing.arithmetic(op, narrow),
            state,
            low,
            end,
        );
        end
    }
}

/// One more instruction of one byte.
pub(super) proof fn one_byte_more(first: Listing, last: Listing, from: State, by: State, opcode: u8)
    requires
        leads(first, last, from, by),
        by.acts(opcode) is Some,
    ensures
        leads(first, last.emit(seq![opcode]), from, by.acts(opcode)->Some_0),
{
    one_byte_leads(last, opcode, by);
    leading_chains(first, last, last.emit(seq![opcode]), from, by, by.acts(opcode)->Some_0);
}

/// One more instruction of two.
pub(super) proof fn two_bytes_more(
    first: Listing,
    last: Listing,
    from: State,
    by: State,
    opcode: u8,
    operand: u8,
)
    requires
        leads(first, last, from, by),
        by.acts(opcode) is None,
        by.does(opcode, operand) is Some,
    ensures
        leads(
            first,
            last.emit(seq![opcode, operand]),
            from,
            by.does(opcode, operand)->Some_0,
        ),
{
    two_bytes_lead(last, opcode, operand, by);
    leading_chains(
        first,
        last,
        last.emit(seq![opcode, operand]),
        from,
        by,
        by.does(opcode, operand)->Some_0,
    );
}

/// Where the frame at hand begins.
pub open spec fn frame(memory: Seq<u8>) -> int {
    word(memory, FP as int) as int
}

/// Whether the frame at hand is clear of the first page, of the image, and of
/// the end.
pub open spec fn stands(state: State) -> bool {
    &&& state.memory.len() == size()
    &&& 0x100 <= frame(state.memory)
    &&& state.limit <= frame(state.memory)
    &&& frame(state.memory) + 0x100 <= size()
}

/// Straight code moves neither the stack nor the end of the image.
pub(super) proof fn running_stays(code: Seq<u8>, state: State)
    requires
        runs(code, state) is Some,
    ensures
        runs(code, state)->Some_0.limit == state.limit,
        runs(code, state)->Some_0.top == state.top,
    decreases code.len(),
{
    if code.len() > 0 {
        match state.acts(code[0]) {
            Some(next) => {
                running_stays(code.skip(1), next);
            },
            None => {
                running_stays(code.skip(2), state.does(code[0], code[1])->Some_0);
            },
        }
    }
}

pub(super) proof fn leading_stays(before: Listing, after: Listing, from: State, to: State)
    requires
        leads(before, after, from, to),
    ensures
        to.limit == from.limit,
        to.top == from.top,
{
    let none = Seq::<u8>::empty();
    assert(runs(added(before, after) + none, from) == runs(none, to));
    running_stays(added(before, after) + none, from);
}

/// Whether a pair of the first page is there to be worked with.
pub open spec fn is_free(pair: u8) -> bool {
    T0 <= pair < 0x80
}

/// Whether two memories are one but for the pairs worked through.
pub open spec fn keeps(before: Seq<u8>, after: Seq<u8>) -> bool {
    &&& after.len() == before.len()
    &&& forall|i: int|
        0 <= i < before.len() && !(T0 <= i <= T1_HIGH) ==> #[trigger] after[i] == before[i]
}

impl Machine {
    /// The word a value is, where memory holds what it does.
    pub open spec fn word(self, work: Work, value: ValueId, memory: Seq<u8>) -> nat {
        match work.source[value.0 as int] {
            Source::Const(word) => word as nat,
            Source::Addr(data) => self.address(data),
            Source::Slot(offset) => word(memory, frame(memory) + offset),
        }
    }
}

/// Whether a value that has a slot has a whole one.
pub open spec fn is_placed(work: Work, value: ValueId) -> bool {
    work.source[value.0 as int] matches Source::Slot(offset) ==> offset < 0xFF
}

/// Where a value's slot is, if it has one.
pub open spec fn slot(work: Work, value: ValueId, memory: Seq<u8>) -> int {
    frame(memory) + work.source[value.0 as int]->Slot_0
}

pub(super) proof fn the_frame_stays(before: State, after: State)
    requires
        keeps(before.memory, after.memory),
        stands(before),
        after.limit == before.limit,
    ensures
        stands(after),
        frame(after.memory) == frame(before.memory),
        forall|at: int|
            frame(before.memory) <= at < frame(before.memory) + 0xFF ==> #[trigger] word(
                after.memory,
                at,
            ) == word(before.memory, at),
{
    assert(after.memory[FP as int] == before.memory[FP as int]);
    assert(after.memory[FP + 1] == before.memory[FP + 1]);
    assert forall|at: int|
        frame(before.memory) <= at < frame(before.memory) + 0xFF implies #[trigger] word(
        after.memory,
        at,
    ) == word(before.memory, at) by {
        assert(after.memory[at] == before.memory[at]);
        assert(after.memory[at + 1] == before.memory[at + 1]);
    }
}

proof fn a_word_is_its_bytes(value: nat)
    requires
        value <= 0xFFFF,
    ensures
        assembler::low(value) + 256 * assembler::high(value) == value,
{
}

/// A literal word goes into a pair.
pub(super) proof fn a_pair_is_set(listing: Listing, pair: u8, value: u16, state: State) -> (after: State)
    requires
        pair < 0x80,
        state.memory.len() == size(),
    ensures
        leads(listing, listing.set_pair(pair, value), state, after),
        word(after.memory, pair as int) == value,
        after.memory.len() == size(),
        forall|i: int|
            0 <= i < size() && i != pair && i != pair + 1 ==> #[trigger] after.memory[i]
                == state.memory[i],
{
    let low = assembler::low(value as nat);
    let high = assembler::high(value as nat);
    a_word_is_its_bytes(value as nat);
    let upper = (pair + 1) as u8;
    nothing_leads_nowhere(listing, state);
    two_bytes_more(listing, listing, state, state, 0xA9, low);
    let one = state.read(low);
    two_bytes_more(listing, listing.lda_imm(low), state, one, 0x85, pair);
    let two = one.write(pair as int, low);
    let half = listing.lda_imm(low).sta_zp(pair);
    two_bytes_more(listing, half, state, two, 0xA9, high);
    let three = two.read(high);
    two_bytes_more(listing, half.lda_imm(high), state, three, 0x85, upper);
    three.write(upper as int, high)
}

/// A slot of the frame goes into a pair.
proof fn a_slot_is_read(listing: Listing, pair: u8, offset: u8, state: State) -> (after: State)
    requires
        is_free(pair),
        stands(state),
        offset < 0xFF,
    ensures
        leads(
            listing,
            listing.ldy_imm(offset).lda_ind_y(FP).sta_zp(pair).iny().lda_ind_y(FP).sta_zp(
                (pair + 1) as u8,
            ),
            state,
            after,
        ),
        word(after.memory, pair as int) == word(state.memory, frame(state.memory) + offset),
        after.memory.len() == size(),
        forall|i: int|
            0 <= i < size() && i != pair && i != pair + 1 ==> #[trigger] after.memory[i]
                == state.memory[i],
{
    let upper = (pair + 1) as u8;
    let at = frame(state.memory) + offset;
    let (low, high) = (state.memory[at], state.memory[at + 1]);
    nothing_leads_nowhere(listing, state);
    two_bytes_more(listing, listing, state, state, 0xA0, offset);
    let one = state.index(offset);
    assert(one.pointed(FP, one.y) == at);
    let a = listing.ldy_imm(offset);
    two_bytes_more(listing, a, state, one, 0xB1, FP);
    let two = one.read(low);
    let b = a.lda_ind_y(FP);
    two_bytes_more(listing, b, state, two, 0x85, pair);
    let three = two.write(pair as int, low);
    let c = b.sta_zp(pair);
    one_byte_more(listing, c, state, three, 0xC8);
    let four = three.index((offset + 1) as u8);
    assert(byte(offset + 1) == (offset + 1) as u8);
    assert(four.pointed(FP, four.y) == at + 1);
    let d = c.iny();
    two_bytes_more(listing, d, state, four, 0xB1, FP);
    let five = four.read(high);
    assert(four.memory[at + 1] == high);
    let e = d.lda_ind_y(FP);
    two_bytes_more(listing, e, state, five, 0x85, upper);
    five.write(upper as int, high)
}

/// A pair goes into a slot of the frame.
pub(super) proof fn a_slot_is_written(listing: Listing, pair: u8, offset: u8, state: State) -> (after: State)
    requires
        is_free(pair),
        stands(state),
        offset < 0xFF,
    ensures
        leads(
            listing,
            listing.ldy_imm(offset).lda_zp(pair).sta_ind_y(FP).iny().lda_zp(
                (pair + 1) as u8,
            ).sta_ind_y(FP),
            state,
            after,
        ),
        after.memory.len() == size(),
        word(after.memory, frame(state.memory) + offset) == word(state.memory, pair as int),
        forall|i: int|
            0 <= i < size() && i != frame(state.memory) + offset && i != frame(state.memory)
                + offset + 1 ==> #[trigger] after.memory[i] == state.memory[i],
{
    let upper = (pair + 1) as u8;
    let at = frame(state.memory) + offset;
    let (low, high) = (state.memory[pair as int], state.memory[upper as int]);
    nothing_leads_nowhere(listing, state);
    two_bytes_more(listing, listing, state, state, 0xA0, offset);
    let one = state.index(offset);
    let a = listing.ldy_imm(offset);
    two_bytes_more(listing, a, state, one, 0xA5, pair);
    let two = one.read(low);
    assert(two.pointed(FP, two.y) == at);
    let b = a.lda_zp(pair);
    two_bytes_more(listing, b, state, two, 0x91, FP);
    let three = two.write(at, low);
    let c = b.sta_ind_y(FP);
    one_byte_more(listing, c, state, three, 0xC8);
    let four = three.index((offset + 1) as u8);
    assert(byte(offset + 1) == (offset + 1) as u8);
    let d = c.iny();
    assert(four.memory[upper as int] == high);
    two_bytes_more(listing, d, state, four, 0xA5, upper);
    let five = four.read(high);
    assert(five.pointed(FP, five.y) == at + 1);
    let e = d.lda_zp(upper);
    two_bytes_more(listing, e, state, five, 0x91, FP);
    five.write(at + 1, high)
}

/// A value goes into a pair.
pub(super) proof fn a_value_is_read(machine: Machine, work: Work, pair: u8, value: ValueId, state: State) -> (
    after: State)
    requires
        is_free(pair),
        stands(state),
        is_placed(work, value),
        !machine.read(work, pair, value).code.failed,
    ensures
        leads(work.code, machine.read(work, pair, value).code, state, after),
        machine.read(work, pair, value).source == work.source,
        !work.code.failed,
        word(after.memory, pair as int) == machine.word(work, value, state.memory),
        pair == T0 || pair == T1 ==> keeps(state.memory, after.memory),
        after.memory.len() == size(),
        forall|i: int|
            0 <= i < size() && i != pair && i != pair + 1 ==> #[trigger] after.memory[i]
                == state.memory[i],
{
    match work.source[value.0 as int] {
        Source::Const(word) => a_pair_is_set(work.code, pair, word as u16, state),
        Source::Addr(data) => a_pair_is_set(
            work.code,
            pair,
            machine.address(data) as u16,
            state,
        ),
        Source::Slot(offset) => a_slot_is_read(work.code, pair, offset, state),
    }
}

/// Two values go into the two pairs.
pub(super) proof fn two_values_are_read(
    machine: Machine,
    work: Work,
    left: ValueId,
    right: ValueId,
    state: State,
) -> (after: State)
    requires
        stands(state),
        is_placed(work, left),
        is_placed(work, right),
        !machine.pair(work, left, right).code.failed,
    ensures
        leads(work.code, machine.pair(work, left, right).code, state, after),
        machine.pair(work, left, right).source == work.source,
        !work.code.failed,
        word(after.memory, T0 as int) == machine.word(work, left, state.memory),
        word(after.memory, T1 as int) == machine.word(work, right, state.memory),
        keeps(state.memory, after.memory),
{
    let half = machine.read(work, T0, left);
    if half.code.failed {
        assert(machine.read(half, T1, right).code.failed);
    }
    let by = a_value_is_read(machine, work, T0, left, state);
    leading_stays(work.code, half.code, state, by);
    the_frame_stays(state, by);
    let after = a_value_is_read(machine, half, T1, right, by);
    leading_chains(
        work.code,
        half.code,
        machine.pair(work, left, right).code,
        state,
        by,
        after,
    );
    after
}

/// All the bits there are, less those above the width.
proof fn low_bits_are_below(bits: u16)
    requires
        bits <= 16,
    ensures
        lower::low_bits(bits) == vstd::arithmetic::power2::pow2(bits as nat) - 1,
        1 <= vstd::arithmetic::power2::pow2(bits as nat) <= size(),
{
    let span = vstd::arithmetic::power2::pow2(bits as nat);
    let above = (64 - bits) as nat;
    let rest = vstd::arithmetic::power2::pow2(above);
    vstd::arithmetic::power2::lemma_pow2_pos(bits as nat);
    vstd::arithmetic::power2::lemma_pow2_pos(above);
    vstd::arithmetic::power2::lemma_pow2_adds(bits as nat, above);
    vstd::arithmetic::power2::lemma2_to64();
    vstd::arithmetic::power2::lemma2_to64_rest();
    if bits < 16 {
        vstd::arithmetic::power2::lemma_pow2_strictly_increases(bits as nat, 16);
    }
    assert(u64::MAX as int == (rest - 1) * span + (span - 1)) by (nonlinear_arith)
        requires
            span * rest == 0x1_0000_0000_0000_0000,
    ;
    vstd::arithmetic::div_mod::lemma_fundamental_div_mod_converse(
        u64::MAX as int,
        span as int,
        rest - 1,
        span - 1,
    );
}

/// Keeping the low bits of a byte takes it round.
proof fn a_byte_goes_round(value: u8, bits: nat, mask: u8)
    requires
        bits < 8,
        mask == vstd::arithmetic::power2::pow2(bits) - 1,
    ensures
        value & mask == value as nat % vstd::arithmetic::power2::pow2(bits),
{
    vstd::arithmetic::power2::lemma2_to64();
    vstd::arithmetic::power2::lemma_pow2_strictly_increases(bits, 8);
    vstd::arithmetic::power2::lemma_pow2_pos(bits);
    vstd::bits::lemma_u8_low_bits_mask_is_mod(value, bits);
    reveal(vstd::bits::low_bits_mask);
}

/// Taking the high byte round takes the word round.
proof fn a_word_goes_round(low: int, high: int, span: int)
    requires
        0 <= low < 256,
        0 <= high,
        0 < span,
    ensures
        (low + 256 * high) % (256 * span) == low + 256 * (high % span),
{
    let rest = high % span;
    let times = high / span;
    vstd::arithmetic::div_mod::lemma_fundamental_div_mod(high, span);
    vstd::arithmetic::div_mod::lemma_mod_bound(high, span);
    assert(low + 256 * high == times * (256 * span) + (low + 256 * rest)) by (nonlinear_arith)
        requires
            high == span * times + rest,
    ;
    vstd::arithmetic::div_mod::lemma_fundamental_div_mod_converse(
        low + 256 * high,
        256 * span,
        times,
        low + 256 * rest,
    );
}

/// The low bits of the first pair are kept, which takes its word round.
proof fn a_mask_takes_it_round(listing: Listing, bits: u16, state: State) -> (after: State)
    requires
        bits <= 16,
        state.memory.len() == size(),
        bits <= 8 ==> state.memory[T0_HIGH as int] == 0,
    ensures
        leads(listing, listing.mask(bits), state, after),
        listing.mask(bits).failed == listing.failed,
        word(after.memory, T0 as int) == word(state.memory, T0 as int)
            % vstd::arithmetic::power2::pow2(bits as nat),
        keeps(state.memory, after.memory),
{
    let span = vstd::arithmetic::power2::pow2(bits as nat);
    let (low, high) = (state.memory[T0 as int], state.memory[T0_HIGH as int]);
    low_bits_are_below(bits);
    vstd::arithmetic::power2::lemma2_to64();
    nothing_leads_nowhere(listing, state);
    if bits < 8 {
        let mask = assembler::low(lower::low_bits(bits) as nat);
        vstd::arithmetic::power2::lemma_pow2_strictly_increases(bits as nat, 8);
        a_byte_goes_round(low, bits as nat, mask);
        two_bytes_more(listing, listing, state, state, 0xA5, T0);
        let one = state.read(low);
        two_bytes_more(listing, listing.lda_zp(T0), state, one, 0x29, mask);
        let two = one.read(low & mask);
        two_bytes_more(listing, listing.lda_zp(T0).and_imm(mask), state, two, 0x85, T0);
        two.write(T0 as int, low & mask)
    } else if 8 < bits < 16 {
        let mask = assembler::high(lower::low_bits(bits) as nat);
        let upper = vstd::arithmetic::power2::pow2((bits - 8) as nat);
        vstd::arithmetic::power2::lemma_pow2_adds(8, (bits - 8) as nat);
        vstd::arithmetic::power2::lemma_pow2_pos((bits - 8) as nat);
        vstd::arithmetic::power2::lemma_pow2_strictly_increases((bits - 8) as nat, 8);
        assert(span == 256 * upper);
        assert((256 * upper - 1) / 256 == upper - 1);
        a_byte_goes_round(high, (bits - 8) as nat, mask);
        a_word_goes_round(low as int, high as int, upper as int);
        two_bytes_more(listing, listing, state, state, 0xA5, T0_HIGH);
        let one = state.read(high);
        two_bytes_more(listing, listing.lda_zp(T0_HIGH), state, one, 0x29, mask);
        let two = one.read(high & mask);
        two_bytes_more(
            listing,
            listing.lda_zp(T0_HIGH).and_imm(mask),
            state,
            two,
            0x85,
            T0_HIGH,
        );
        two.write(T0_HIGH as int, high & mask)
    } else {
        vstd::arithmetic::div_mod::lemma_small_mod(word(state.memory, T0 as int), span);
        state
    }
}

/// What an operation comes to.
pub open spec fn operation(machine: Machine, work: Work, op: Op, memory: Seq<u8>) -> nat {
    match op {
        Op::Binary { op, left, right } => machine.program.computed(
            op,
            machine.program.class(left),
            machine.word(work, left, memory),
            machine.word(work, right, memory),
            size(),
        ),
        Op::Convert { class, value } => machine.word(work, value, memory) % machine::span(
            class,
            size(),
        ),
        _ => 0,
    }
}

/// The values an operation reads.
pub open spec fn operands(op: Op) -> Seq<ValueId> {
    match op {
        Op::Binary { left, right, .. } => seq![left, right],
        Op::Convert { value, .. } => seq![value],
        _ => seq![],
    }
}

/// Where an operation's result takes its class from what it reads.
pub open spec fn is_classed(machine: Machine, op: Op, result: ValueId) -> bool {
    match op {
        Op::Binary { left, .. } => machine.program.class(result) == machine.program.class(left),
        _ => true,
    }
}

/// Whether a conversion is to no more bits than there are.
pub open spec fn is_narrowing(machine: Machine, class: Class, value: ValueId) -> bool {
    lower::width(class) <= lower::width(machine.program.class(value))
}

/// How many values a width holds.
proof fn a_width_spans(class: Class)
    ensures
        machine::span(class, size()) == vstd::arithmetic::power2::pow2(lower::width(class) as nat),
{
    vstd::arithmetic::power2::lemma2_to64();
}

/// Arithmetic on words, taken round a class, is arithmetic on the class.
proof fn going_round_twice(op: Binary, left: nat, right: nat, bits: nat)
    requires
        bits <= 16,
    ensures
        computed(op, left as int, right as int, 0x1_0000)
            % vstd::arithmetic::power2::pow2(bits) as int == computed(
            op,
            left as int,
            right as int,
            vstd::arithmetic::power2::pow2(bits) as int,
        ),
        bits <= 8 ==> computed(op, left as int, right as int, 256)
            % vstd::arithmetic::power2::pow2(bits) as int == computed(
            op,
            left as int,
            right as int,
            vstd::arithmetic::power2::pow2(bits) as int,
        ),
{
    let span = vstd::arithmetic::power2::pow2(bits);
    let whole: int = match op {
        Binary::Add => left as int + right,
        Binary::Sub => left - right,
    };
    let above = (16 - bits) as nat;
    vstd::arithmetic::power2::lemma2_to64();
    vstd::arithmetic::power2::lemma_pow2_pos(bits);
    vstd::arithmetic::power2::lemma_pow2_pos(above);
    vstd::arithmetic::power2::lemma_pow2_adds(bits, above);
    vstd::arithmetic::div_mod::lemma_mod_mod(
        whole,
        span as int,
        vstd::arithmetic::power2::pow2(above) as int,
    );
    if bits <= 8 {
        let rest = (8 - bits) as nat;
        vstd::arithmetic::power2::lemma_pow2_pos(rest);
        vstd::arithmetic::power2::lemma_pow2_adds(bits, rest);
        vstd::arithmetic::div_mod::lemma_mod_mod(
            whole,
            span as int,
            vstd::arithmetic::power2::pow2(rest) as int,
        );
    }
}

/// Whether memory is what it was, but for the pairs worked through and one
/// slot.
pub open spec fn only_sets(before: Seq<u8>, after: Seq<u8>, slot: int) -> bool {
    &&& after.len() == before.len()
    &&& forall|i: int|
        0 <= i < before.len() && !(T0 <= i <= T1_HIGH) && i != slot && i != slot + 1
            ==> #[trigger] after[i] == before[i]
}

/// What has been worked out goes into the slot it is for.
pub(super) proof fn a_result_is_kept(
    work: Work,
    before: Listing,
    result: ValueId,
    from: State,
    by: State,
) -> (after: State)
    requires
        leads(before, work.code, from, by),
        stands(from),
        keeps(from.memory, by.memory),
        is_placed(work, result),
        !work.write_slot(result, T0).code.failed,
    ensures
        work.source[result.0 as int] is Slot,
        !work.code.failed,
        leads(before, work.write_slot(result, T0).code, from, after),
        word(after.memory, slot(work, result, from.memory)) == word(by.memory, T0 as int),
        only_sets(from.memory, after.memory, slot(work, result, from.memory)),
{
    leading_stays(before, work.code, from, by);
    the_frame_stays(from, by);
    let offset = work.source[result.0 as int]->Slot_0;
    let after = a_slot_is_written(work.code, T0, offset, by);
    leading_chains(before, work.code, work.write_slot(result, T0).code, from, by, after);
    after
}

proof fn arithmetic_computes(
    machine: Machine,
    work: Work,
    op: Binary,
    left: ValueId,
    right: ValueId,
    result: ValueId,
    state: State,
) -> (after: State)
    requires
        !machine.simple(work, Op::Binary { op, left, right }, seq![result]).code.failed,
        stands(state),
        machine.program.class(result) == machine.program.class(left),
        is_placed(work, left),
        is_placed(work, right),
        is_placed(work, result),
    ensures
        ({
            let end = machine.simple(work, Op::Binary { op, left, right }, seq![result]);
            let at = slot(work, result, state.memory);
            &&& work.source[result.0 as int] is Slot
            &&& leads(work.code, end.code, state, after)
            &&& word(after.memory, at) == operation(
                machine,
                work,
                Op::Binary { op, left, right },
                state.memory,
            )
            &&& only_sets(state.memory, after.memory, at)
        }),
{
    let held = machine.pair(work, left, right);
    let bits = lower::width(machine.program.class(result));
    let worked = held.code.arithmetic(op, bits <= 8);
    let masked = worked.mask(bits);
    if held.code.failed {
        assert(worked.failed);
        assert(masked.failed);
    }
    if bits > 16 {
        assert(masked.failed);
    }
    let both = two_values_are_read(machine, work, left, right, state);
    let summed = arithmetic_is_on_words(held.code, op, bits <= 8, both);
    leading_chains(work.code, held.code, worked, state, both, summed);
    let kept = a_mask_takes_it_round(worked, bits, summed);
    leading_chains(work.code, worked, masked, state, summed, kept);
    assert(keeps(state.memory, kept.memory)) by {
        assert forall|i: int| 0 <= i < state.memory.len() && !(T0 <= i <= T1_HIGH) implies
            #[trigger] kept.memory[i] == state.memory[i] by {
            assert(summed.memory[i] == both.memory[i]);
        }
    }
    let one = machine.word(work, left, state.memory);
    let other = machine.word(work, right, state.memory);
    going_round_twice(op, one, other, bits as nat);
    a_width_spans(machine.program.class(left));
    let last = Work { code: masked, ..held };
    a_result_is_kept(last, work.code, result, state, kept)
}

proof fn a_conversion_computes(
    machine: Machine,
    work: Work,
    class: Class,
    value: ValueId,
    result: ValueId,
    state: State,
) -> (after: State)
    requires
        !machine.convert(work, class, value, result).code.failed,
        stands(state),
        is_narrowing(machine, class, value) || machine.word(work, value, state.memory)
            < machine::span(machine.program.class(value), size()),
        is_placed(work, value),
        is_placed(work, result),
    ensures
        ({
            let end = machine.convert(work, class, value, result);
            let at = slot(work, result, state.memory);
            &&& work.source[result.0 as int] is Slot
            &&& leads(work.code, end.code, state, after)
            &&& word(after.memory, at) == machine.word(work, value, state.memory)
                % machine::span(class, size())
            &&& only_sets(state.memory, after.memory, at)
        }),
{
    let held = machine.read(work, T0, value);
    let own = lower::width(machine.program.class(value));
    let bits = if lower::width(class) < own {
        lower::width(class)
    } else {
        own
    };
    let cleared = if bits <= 8 {
        held.code.lda_imm(0).sta_zp(T0_HIGH)
    } else {
        held.code
    };
    let masked = cleared.mask(bits);
    if held.code.failed {
        assert(cleared.failed);
        assert(masked.failed);
    }
    if bits > 16 {
        assert(masked.failed);
    }
    let one = machine.word(work, value, state.memory);
    let span = vstd::arithmetic::power2::pow2(bits as nat);
    let whole = a_value_is_read(machine, work, T0, value, state);
    let short = if bits <= 8 {
        two_bytes_more(work.code, held.code, state, whole, 0xA9, 0);
        two_bytes_more(
            work.code,
            held.code.lda_imm(0),
            state,
            whole.read(0),
            0x85,
            T0_HIGH,
        );
        whole.read(0).write(T0_HIGH as int, 0)
    } else {
        whole
    };
    let kept = a_mask_takes_it_round(cleared, bits, short);
    leading_chains(work.code, cleared, masked, state, short, kept);
    assert(keeps(state.memory, kept.memory)) by {
        assert forall|i: int| 0 <= i < state.memory.len() && !(T0 <= i <= T1_HIGH) implies
            #[trigger] kept.memory[i] == state.memory[i] by {
            assert(short.memory[i] == whole.memory[i]);
        }
    }
    assert(word(kept.memory, T0 as int) == one % machine::span(class, size())) by {
        a_width_spans(class);
        a_width_spans(machine.program.class(value));
        vstd::arithmetic::power2::lemma2_to64();
        vstd::arithmetic::power2::lemma_pow2_pos(bits as nat);
        if bits <= 8 {
            // Dropping the high byte is going round.
            let low = whole.memory[T0 as int] as int;
            let high = whole.memory[T0_HIGH as int] as int;
            let rest = (8 - bits) as nat;
            vstd::arithmetic::power2::lemma_pow2_pos(rest);
            vstd::arithmetic::power2::lemma_pow2_adds(bits as nat, rest);
            vstd::arithmetic::div_mod::lemma_mod_mod(
                low + 256 * high,
                span as int,
                vstd::arithmetic::power2::pow2(rest) as int,
            );
            assert((low + 256 * high) % 256 == low);
        }
        if own < lower::width(class) {
            vstd::arithmetic::power2::lemma_pow2_strictly_increases(
                own as nat,
                lower::width(class) as nat,
            );
            vstd::arithmetic::div_mod::lemma_small_mod(one, span);
            vstd::arithmetic::div_mod::lemma_small_mod(one, machine::span(class, size()));
        }
    }
    let last = Work { code: masked, ..held };
    a_result_is_kept(last, work.code, result, state, kept)
}

/// An operation computes what the program says it does: its result's slot
/// takes that, and beside the pairs worked through nothing else changes.
pub proof fn an_operation_computes(
    machine: Machine,
    work: Work,
    op: Op,
    results: Seq<ValueId>,
    state: State,
) -> (after: State)
    requires
        op is Binary || op is Convert,
        results.len() == 1,
        !machine.simple(work, op, results).code.failed,
        stands(state),
        is_classed(machine, op, results[0]),
        is_placed(work, results[0]),
        forall|i: int|
            0 <= i < operands(op).len() ==> is_placed(work, #[trigger] operands(op)[i]),
        op matches Op::Convert { class, value } ==> is_narrowing(machine, class, value)
            || machine.word(work, value, state.memory) < machine::span(
            machine.program.class(value),
            size(),
        ),
    ensures
        work.source[results[0].0 as int] is Slot,
        runs(added(work.code, machine.simple(work, op, results).code), state) == Some(after),
        word(after.memory, slot(work, results[0], state.memory)) == operation(
            machine,
            work,
            op,
            state.memory,
        ),
        only_sets(state.memory, after.memory, slot(work, results[0], state.memory)),
{
    let none = Seq::<u8>::empty();
    let end = machine.simple(work, op, results);
    assert(results =~= seq![results[0]]);
    let after = match op {
        Op::Binary { op: how, left, right } => {
            assert(operands(op)[0] == left && operands(op)[1] == right);
            arithmetic_computes(machine, work, how, left, right, results[0], state)
        },
        Op::Convert { class, value } => {
            assert(operands(op)[0] == value);
            a_conversion_computes(machine, work, class, value, results[0], state)
        },
        _ => state,
    };
    assert(added(work.code, end.code) + none =~= added(work.code, end.code));
    assert(runs(added(work.code, end.code) + none, state) == runs(none, after));
    after
}

/// Whether the slots of two values lie clear of each other.
pub open spec fn are_apart(work: Work, one: ValueId, other: ValueId) -> bool {
    match (work.source[one.0 as int], work.source[other.0 as int]) {
        (Source::Slot(x), Source::Slot(y)) => x + 2 <= y || y + 2 <= x,
        _ => true,
    }
}

/// The two pairs go into a slot each.
proof fn two_are_written(work: Work, one: ValueId, other: ValueId, state: State) -> (after: State)
    requires
        stands(state),
        is_placed(work, one),
        is_placed(work, other),
        are_apart(work, one, other),
        !work.write_slot(one, T0).write_slot(other, T1).code.failed,
    ensures
        !work.code.failed,
        work.source[one.0 as int] is Slot,
        work.source[other.0 as int] is Slot,
        leads(
            work.code,
            work.write_slot(one, T0).write_slot(other, T1).code,
            state,
            after,
        ),
        word(after.memory, slot(work, one, state.memory)) == word(state.memory, T0 as int),
        word(after.memory, slot(work, other, state.memory)) == word(state.memory, T1 as int),
        after.memory.len() == size(),
        forall|i: int|
            0 <= i < size() && i != slot(work, one, state.memory) && i != slot(
                work,
                one,
                state.memory,
            ) + 1 && i != slot(work, other, state.memory) && i != slot(work, other, state.memory)
                + 1 ==> #[trigger] after.memory[i] == state.memory[i],
{
    let half = work.write_slot(one, T0);
    let end = half.write_slot(other, T1);
    if half.code.failed {
        assert(end.code.failed);
    }
    let x = work.source[one.0 as int]->Slot_0;
    let y = work.source[other.0 as int]->Slot_0;
    let by = a_slot_is_written(work.code, T0, x, state);
    leading_stays(work.code, half.code, state, by);
    assert(by.memory[FP as int] == state.memory[FP as int]);
    assert(by.memory[FP + 1] == state.memory[FP + 1]);
    assert(by.memory[T1 as int] == state.memory[T1 as int]);
    assert(by.memory[T1 + 1] == state.memory[T1 + 1]);
    assert(frame(by.memory) == frame(state.memory));
    let after = a_slot_is_written(half.code, T1, y, by);
    leading_chains(work.code, half.code, end.code, state, by, after);
    let at = slot(work, one, state.memory);
    assert(after.memory[at] == by.memory[at]);
    assert(after.memory[at + 1] == by.memory[at + 1]);
    after
}

/// A transfer moves everything at once: each destination takes the word its
/// source was before any of them was written, and beside the pairs worked
/// through nothing else changes.
pub proof fn a_transfer_moves_at_once(
    machine: Machine,
    work: Work,
    sources: Seq<ValueId>,
    destinations: Seq<ValueId>,
    state: State,
) -> (after: State)
    requires
        sources.len() == destinations.len(),
        !machine.transfer(work, sources, destinations).code.failed,
        stands(state),
        forall|i: int| 0 <= i < sources.len() ==> is_placed(work, #[trigger] sources[i]),
        forall|i: int| 0 <= i < destinations.len() ==> is_placed(work, #[trigger] destinations[i]),
        forall|i: int, j: int|
            0 <= i < j < destinations.len() ==> are_apart(
                work,
                #[trigger] destinations[i],
                #[trigger] destinations[j],
            ),
    ensures
        runs(
            added(work.code, machine.transfer(work, sources, destinations).code),
            state,
        ) == Some(after),
        after.memory.len() == state.memory.len(),
        forall|i: int|
            0 <= i < destinations.len() ==> work.source[(#[trigger] destinations[i]).0 as int]
                is Slot && word(after.memory, slot(work, destinations[i], state.memory))
                == machine.word(work, sources[i], state.memory),
        forall|at: int|
            0 <= at < size() && !(T0 <= at <= T1_HIGH) && (forall|i: int|
                0 <= i < destinations.len() ==> at != slot(
                    work,
                    #[trigger] destinations[i],
                    state.memory,
                ) && at != slot(work, destinations[i], state.memory) + 1) ==> #[trigger]
            after.memory[at] == state.memory[at],
{
    reveal_with_fuel(Machine::read_moved, 3);
    reveal_with_fuel(Machine::write_moved, 3);
    let none = Seq::<u8>::empty();
    let end = machine.transfer(work, sources, destinations);
    assert(sources.len() <= 2);
    let after = if sources.len() == 0 {
        nothing_leads_nowhere(work.code, state);
        state
    } else if sources.len() == 1 {
        let held = machine.read(work, T0, sources[0]);
        if held.code.failed {
            assert(held.write_slot(destinations[0], T0).code.failed);
        }
        let by = a_value_is_read(machine, work, T0, sources[0], state);
        a_result_is_kept(held, work.code, destinations[0], state, by)
    } else {
        let held = machine.pair(work, sources[0], sources[1]);
        let half = held.write_slot(destinations[0], T0);
        if held.code.failed {
            assert(half.code.failed);
        }
        if half.code.failed {
            assert(half.write_slot(destinations[1], T1).code.failed);
        }
        let by = two_values_are_read(machine, work, sources[0], sources[1], state);
        leading_stays(work.code, held.code, state, by);
        the_frame_stays(state, by);
        assert(are_apart(work, destinations[0], destinations[1]));
        let after = two_are_written(held, destinations[0], destinations[1], by);
        leading_chains(work.code, held.code, end.code, state, by, after);
        after
    };
    assert(added(work.code, end.code) + none =~= added(work.code, end.code));
    assert(runs(added(work.code, end.code) + none, state) == runs(none, after));
    after
}

} // verus!
