//! Where branches, jumps and calls lead.
//!
//! A branch is short where its label is near enough and goes round a jump
//! where it is not; either way it leads to its label where its condition
//! holds, and on where it does not. A call leaves where to come back to on the
//! hardware stack.

use super::assembler::{self, Cc, Label, Listing};
use super::lower::{self, Around, Machine, Source, Work};
use super::machine::{self, State};
use super::{
    ARGS, ARG_COUNT, FP, HEAP, HOOK_EXIT, HOOK_WRITE, PTR, R0, T0, T0_HIGH, T1, T1_HIGH,
};
use crate::ir::{
    Binary, Exit, FunctionId, Offset, Op, Range, RegionId, Relation, Terminator, ValueId,
    Width,
};
use vstd::prelude::*;

verus! {

/// A byte, as the signed number of the same eight bits.
pub open spec fn signed(value: u8) -> int {
    if value < 128 {
        value as int
    } else {
        value - 256
    }
}

/// The condition a branch is for, where an opcode is one.
pub open spec fn condition(opcode: u8) -> Option<Cc> {
    if opcode == 0xF0 {
        Some(Cc::Equal)
    } else if opcode == 0xD0 {
        Some(Cc::NotEqual)
    } else if opcode == 0x90 {
        Some(Cc::NoCarry)
    } else if opcode == 0xB0 {
        Some(Cc::Carry)
    } else {
        None
    }
}

impl State {
    /// Whether a condition holds.
    pub open spec fn holds(self, cc: Cc) -> bool {
        match cc {
            Cc::Equal => self.zero,
            Cc::NotEqual => !self.zero,
            Cc::NoCarry => !self.carry,
            Cc::Carry => self.carry,
        }
    }
}

impl State {
    /// A return address goes on the hardware stack.
    pub open spec fn push(self, address: int) -> State {
        let high = 0x100 + self.top;
        State {
            top: (self.top - 2) as u8,
            memory: self.memory.update(high, (address / 256 % 256) as u8).update(
                high - 1,
                (address % 256) as u8,
            ),
            ..self
        }
    }

    /// And comes back off it.
    pub open spec fn popped(self) -> int {
        machine::word(self.memory, 0x101 + self.top) as int
    }
}

/// The address two bytes of code are.
pub open spec fn address_at(code: Seq<u8>, at: int) -> int {
    code[at] + 256 * code[at + 1]
}

/// One step, from a place in code that begins at `origin`: where it leads and
/// what it leaves. Nothing is said of a hardware stack that goes round.
pub open spec fn step(code: Seq<u8>, origin: int, at: int, state: State) -> Option<(int, State)> {
    if at < 0 || at >= code.len() {
        None
    } else if state.acts(code[at]) is Some {
        Some((at + 1, state.acts(code[at])->Some_0))
    } else if code[at] == 0x9A {
        Some((at + 1, State { top: state.x, ..state }))
    } else if code[at] == 0x60 {
        if state.top <= 0xFD {
            Some((state.popped() + 1 - origin, State { top: (state.top + 2) as u8, ..state }))
        } else {
            None
        }
    } else if at + 1 >= code.len() {
        None
    } else if condition(code[at]) is Some {
        if state.holds(condition(code[at])->Some_0) {
            Some((at + 2 + signed(code[at + 1]), state))
        } else {
            Some((at + 2, state))
        }
    } else if code[at] == 0x4C || code[at] == 0x20 {
        if at + 2 >= code.len() || address_at(code, at + 1) >= HOOK_WRITE {
            None
        } else if code[at] == 0x4C {
            Some((address_at(code, at + 1) - origin, state))
        } else if state.top >= 2 {
            Some((address_at(code, at + 1) - origin, state.push(origin + at + 2)))
        } else {
            None
        }
    } else {
        match state.does(code[at], code[at + 1]) {
            Some(after) => Some((at + 2, after)),
            None => None,
        }
    }
}

/// Whether code stops, by going to the host for it, with a status.
pub open spec fn is_stop(code: Seq<u8>, at: int, state: State, status: u8) -> bool {
    &&& 0 <= at
    &&& at + 2 < code.len()
    &&& code[at] == 0x4C
    &&& address_at(code, at + 1) == HOOK_EXIT
    &&& state.a == status
}

/// So many steps.
pub open spec fn goes(code: Seq<u8>, origin: int, at: int, state: State, steps: nat) -> Option<
    (int, State),
>
    decreases steps,
{
    if steps == 0 {
        Some((at, state))
    } else {
        match step(code, origin, at, state) {
            Some((next, after)) => goes(code, origin, next, after, (steps - 1) as nat),
            None => None,
        }
    }
}

/// Whether code gets from one place to another, and from one state to
/// another.
pub open spec fn reaches(
    code: Seq<u8>,
    origin: int,
    at: int,
    from: State,
    next: int,
    to: State,
) -> bool {
    exists|steps: nat| #[trigger] goes(code, origin, at, from, steps) == Some((next, to))
}

proof fn steps_chain(
    code: Seq<u8>,
    origin: int,
    at: int,
    from: State,
    one: nat,
    next: int,
    by: State,
    other: nat,
)
    requires
        goes(code, origin, at, from, one) == Some((next, by)),
    ensures
        goes(code, origin, at, from, one + other) == goes(code, origin, next, by, other),
    decreases one,
{
    if one > 0 {
        if let Some((then, after)) = step(code, origin, at, from) {
            steps_chain(code, origin, then, after, (one - 1) as nat, next, by, other);
        }
    }
}

pub(super) proof fn reaching_chains(
    code: Seq<u8>,
    origin: int,
    at: int,
    from: State,
    mid: int,
    by: State,
    next: int,
    to: State,
)
    requires
        reaches(code, origin, at, from, mid, by),
        reaches(code, origin, mid, by, next, to),
    ensures
        reaches(code, origin, at, from, next, to),
{
    let one = choose|steps: nat| #[trigger]
        goes(code, origin, at, from, steps) == Some((mid, by));
    let other = choose|steps: nat| #[trigger]
        goes(code, origin, mid, by, steps) == Some((next, to));
    steps_chain(code, origin, at, from, one, mid, by, other);
    assert(goes(code, origin, at, from, one + other) == Some((next, to)));
}

pub(super) proof fn staying_reaches(code: Seq<u8>, origin: int, at: int, state: State)
    ensures
        reaches(code, origin, at, state, at, state),
{
    assert(goes(code, origin, at, state, 0) == Some((at, state)));
}

pub(super) proof fn a_step_reaches(code: Seq<u8>, origin: int, at: int, from: State, next: int, to: State)
    requires
        step(code, origin, at, from) == Some((next, to)),
    ensures
        reaches(code, origin, at, from, next, to),
{
    assert(goes(code, origin, next, to, 0) == Some((next, to)));
    assert(goes(code, origin, at, from, 1) == Some((next, to)));
}

/// Code that comes to something gets past itself, wherever it stands.
pub(super) proof fn what_runs_reaches(
    whole: Seq<u8>,
    origin: int,
    at: int,
    code: Seq<u8>,
    from: State,
    to: State,
)
    requires
        0 <= at,
        at + code.len() <= whole.len(),
        whole.subrange(at, at + code.len() as int) == code,
        machine::runs(code, from) == Some(to),
    ensures
        reaches(whole, origin, at, from, at + code.len() as int, to),
    decreases code.len(),
{
    if code.len() == 0 {
        staying_reaches(whole, origin, at, from);
    } else {
        assert(whole[at] == code[0]) by {
            assert(whole.subrange(at, at + code.len() as int)[0] == code[0]);
        }
        let (taken, next): (int, State) = match from.acts(code[0]) {
            Some(next) => (1, next),
            None => {
                assert(whole[at + 1] == code[1]) by {
                    assert(whole.subrange(at, at + code.len() as int)[1] == code[1]);
                }
                assert(condition(code[0]) is None && code[0] != 0x4C && code[0] != 0x20 && code[0]
                    != 0x9A && code[0] != 0x60);
                (2, from.does(code[0], code[1])->Some_0)
            },
        };
        a_step_reaches(whole, origin, at, from, at + taken, next);
        let rest = code.skip(taken);
        assert(whole.subrange(at + taken, at + taken + rest.len() as int) =~= rest) by {
            assert forall|i: int| 0 <= i < rest.len() implies whole[at + taken + i] == rest[i] by {
                assert(whole.subrange(at, at + code.len() as int)[taken + i] == code[taken + i]);
            }
        }
        what_runs_reaches(whole, origin, at + taken, rest, next, to);
        reaching_chains(
            whole,
            origin,
            at,
            from,
            at + taken,
            next,
            at + code.len() as int,
            to,
        );
    }
}

/// Whether one listing goes on from another.
pub open spec fn grows(before: Listing, after: Listing) -> bool {
    &&& before.bytes.is_prefix_of(after.bytes)
    &&& before.holes.is_prefix_of(after.holes)
    &&& before.near.is_prefix_of(after.near)
    &&& before.halves.is_prefix_of(after.halves)
    &&& before.labels.len() <= after.labels.len()
    &&& before.origin == after.origin
    &&& before.far == after.far
    &&& before.failed ==> after.failed
    &&& after.are_spaced(
        before.holes.len() as int,
        before.near.len() as int,
        before.halves.len() as int,
    )
    &&& forall|j: int|
        before.holes.len() <= j < after.holes.len() ==> before.bytes.len() <= (
        #[trigger] after.holes[j]).0 && after.holes[j].0 + 2 <= after.bytes.len()
    &&& forall|j: int|
        before.near.len() <= j < after.near.len() ==> before.bytes.len() <= (
        #[trigger] after.near[j]).0 && after.near[j].0 + 1 <= after.bytes.len()
    &&& forall|j: int|
        before.halves.len() <= j < after.halves.len() ==> before.bytes.len() <= (
        #[trigger] after.halves[j]).0 && after.halves[j].0 + 1 <= after.bytes.len()
}

pub(super) proof fn growth_chains(first: Listing, second: Listing, third: Listing)
    requires
        grows(first, second),
        grows(second, third),
    ensures
        grows(first, third),
{
    assert forall|i: int| 0 <= i < first.bytes.len() implies first.bytes[i] == third.bytes[i] by {
        assert(first.bytes[i] == second.bytes[i]);
    }
    assert forall|i: int| 0 <= i < first.holes.len() implies first.holes[i] == third.holes[i] by {
        assert(first.holes[i] == second.holes[i]);
    }
    assert forall|i: int| 0 <= i < first.near.len() implies first.near[i] == third.near[i] by {
        assert(first.near[i] == second.near[i]);
    }
    assert forall|i: int| 0 <= i < first.halves.len() implies first.halves[i]
        == third.halves[i] by {
        assert(first.halves[i] == second.halves[i]);
    }
    assert forall|j: int| first.holes.len() <= j < third.holes.len() implies first.bytes.len() <= (
    #[trigger] third.holes[j]).0 && third.holes[j].0 + 2 <= third.bytes.len() by {
        if j < second.holes.len() {
            assert(second.holes[j] == third.holes[j]);
        }
    }
    assert forall|j: int| first.near.len() <= j < third.near.len() implies first.bytes.len() <= (
    #[trigger] third.near[j]).0 && third.near[j].0 + 1 <= third.bytes.len() by {
        if j < second.near.len() {
            assert(second.near[j] == third.near[j]);
        }
    }
    assert forall|j: int| first.halves.len() <= j < third.halves.len() implies first.bytes.len()
        <= (#[trigger] third.halves[j]).0 && third.halves[j].0 + 1 <= third.bytes.len() by {
        if j < second.halves.len() {
            assert(second.halves[j] == third.halves[j]);
        }
    }
    spacing_chains(
        second,
        third,
        first.holes.len() as int,
        first.near.len() as int,
        first.halves.len() as int,
    );
}

/// What was apart stays apart, and from what is added.
proof fn spacing_chains(before: Listing, after: Listing, holes: int, near: int, halves: int)
    requires
        0 <= holes <= before.holes.len(),
        0 <= near <= before.near.len(),
        0 <= halves <= before.halves.len(),
        grows(before, after),
        before.are_spaced(holes, near, halves),
        forall|j: int|
            holes <= j < before.holes.len() ==> (#[trigger] before.holes[j]).0 + 2
                <= before.bytes.len(),
        forall|j: int|
            near <= j < before.near.len() ==> (#[trigger] before.near[j]).0 + 1
                <= before.bytes.len(),
        forall|j: int|
            halves <= j < before.halves.len() ==> (#[trigger] before.halves[j]).0 + 1
                <= before.bytes.len(),
    ensures
        after.are_spaced(holes, near, halves),
{
    reveal(Listing::are_spaced);
    assert forall|i: int| 0 <= i < before.holes.len() implies before.holes[i]
        == #[trigger] after.holes[i] by {}
    assert forall|i: int| 0 <= i < before.near.len() implies before.near[i]
        == #[trigger] after.near[i] by {}
    assert forall|i: int| 0 <= i < before.halves.len() implies before.halves[i]
        == #[trigger] after.halves[i] by {}
    assert forall|i: int, j: int|
        holes <= i < after.holes.len() && halves <= j < after.halves.len() implies after.apart(
        #[trigger] after.holes[i].0,
        #[trigger] after.halves[j].0,
    ) by {
        if i < before.holes.len() && j < before.halves.len() {
            assert(before.apart(before.holes[i].0, before.halves[j].0));
        }
    }
    assert forall|i: int, j: int|
        holes <= i < after.holes.len() && near <= j < after.near.len() implies after.apart(
        #[trigger] after.holes[i].0,
        #[trigger] after.near[j].0,
    ) by {
        if i < before.holes.len() && j < before.near.len() {
            assert(before.apart(before.holes[i].0, before.near[j].0));
        }
    }
}

pub(super) proof fn binding_grows(listing: Listing, label: Label)
    requires
        label.0 < listing.labels.len(),
    ensures
        grows(listing, listing.bind(label)),
{
    reveal(Listing::are_spaced);
}

pub(super) proof fn a_jump_grows(listing: Listing, label: Label)
    ensures
        grows(listing, listing.jmp(label)),
{
    reveal(Listing::are_spaced);
    let opened = listing.emit(seq![0x4Cu8]);
    let after = listing.jmp(label);
    assert(after.bytes.len() == listing.bytes.len() + 3);
    assert(after.holes == opened.holes.push((opened.bytes.len(), label)));
}

pub(super) proof fn a_branch_grows(listing: Listing, cc: Cc, label: Label)
    ensures
        grows(listing, listing.branch(cc, label)),
{
    reveal(Listing::are_spaced);
    if listing.is_far(listing.branches) {
        let counted = Listing { branches: listing.branches + 1, ..listing };
        let hopped = counted.emit(seq![cc.unless(), 3u8]);
        assert(grows(listing, hopped));
        a_jump_grows(hopped, label);
        growth_chains(listing, hopped, hopped.jmp(label));
    } else {
        let after = listing.branch(cc, label);
        assert(after.bytes.len() == listing.bytes.len() + 2);
    }
}

/// Whether every hole lies in the code that is there.
pub open spec fn is_within(listing: Listing) -> bool {
    &&& forall|j: int|
        0 <= j < listing.holes.len() ==> (#[trigger] listing.holes[j]).0 + 2
            <= listing.bytes.len()
    &&& forall|j: int|
        0 <= j < listing.near.len() ==> (#[trigger] listing.near[j]).0 + 1 <= listing.bytes.len()
    &&& forall|j: int|
        0 <= j < listing.halves.len() ==> (#[trigger] listing.halves[j]).0 + 1
            <= listing.bytes.len()
    &&& listing.are_spaced(0, 0, 0)
}

pub(super) proof fn what_grows_stays_within(before: Listing, after: Listing)
    requires
        is_within(before),
        grows(before, after),
    ensures
        is_within(after),
{
    assert forall|j: int| 0 <= j < after.holes.len() implies (#[trigger] after.holes[j]).0 + 2
        <= after.bytes.len() by {
        if j < before.holes.len() {
            assert(before.holes[j] == after.holes[j]);
        }
    }
    assert forall|j: int| 0 <= j < after.near.len() implies (#[trigger] after.near[j]).0 + 1
        <= after.bytes.len() by {
        if j < before.near.len() {
            assert(before.near[j] == after.near[j]);
        }
    }
    assert forall|j: int| 0 <= j < after.halves.len() implies (#[trigger] after.halves[j]).0 + 1
        <= after.bytes.len() by {
        if j < before.halves.len() {
            assert(before.halves[j] == after.halves[j]);
        }
    }
    spacing_chains(before, after, 0, 0, 0);
}

/// Whether a byte belongs to a hole.
pub open spec fn is_hole(listing: Listing, i: int) -> bool {
    ||| exists|j: int|
        0 <= j < listing.holes.len() && (#[trigger] listing.holes[j]).0 <= i < listing.holes[j].0
            + 2
    ||| exists|j: int| 0 <= j < listing.near.len() && (#[trigger] listing.near[j]).0 == i
    ||| exists|j: int| 0 <= j < listing.halves.len() && (#[trigger] listing.halves[j]).0 == i
}

/// Whether code is what was listed, with its holes filled and every short
/// branch reaching its label.
pub open spec fn is_loaded(done: Listing, whole: Seq<u8>) -> bool {
    &&& done.closes()
    &&& done.resolved(whole)
    &&& done.origin + whole.len() < HOOK_WRITE
    &&& forall|i: int|
        0 <= i < whole.len() && !is_hole(done, i) ==> #[trigger] whole[i] == done.bytes[i]
    &&& forall|j: int|
        0 <= j < done.near.len() ==> done.reaches((#[trigger] done.near[j]).0, done.near[j].1)
}

/// How far in a label landed.
pub open spec fn place_of(done: Listing, label: Label) -> int {
    done.target(label)->0 - done.origin
}

/// How far in a listing goes.
pub open spec fn end_of(listing: Listing) -> int {
    listing.bytes.len() as int
}

pub(super) proof fn between_there_are_no_holes(before: Listing, after: Listing, done: Listing, i: int)
    requires
        is_within(before),
        grows(before, after),
        grows(after, done),
        after.halves == before.halves,
        before.bytes.len() <= i < after.bytes.len(),
        forall|j: int|
            before.holes.len() <= j < after.holes.len() ==> i < (#[trigger] after.holes[j]).0,
        forall|j: int|
            before.near.len() <= j < after.near.len() ==> i < (#[trigger] after.near[j]).0,
    ensures
        !is_hole(done, i),
        done.bytes[i] == after.bytes[i],
{
    assert forall|j: int| 0 <= j < done.holes.len() implies !((#[trigger] done.holes[j]).0 <= i
        < done.holes[j].0 + 2) by {
        if j < before.holes.len() {
            assert(before.holes[j] == after.holes[j]);
            assert(after.holes[j] == done.holes[j]);
        } else if j < after.holes.len() {
            assert(after.holes[j] == done.holes[j]);
        }
    }
    assert forall|j: int| 0 <= j < done.near.len() implies (#[trigger] done.near[j]).0 != i by {
        if j < before.near.len() {
            assert(before.near[j] == after.near[j]);
            assert(after.near[j] == done.near[j]);
        } else if j < after.near.len() {
            assert(after.near[j] == done.near[j]);
        }
    }
    assert forall|j: int| 0 <= j < done.halves.len() implies (#[trigger] done.halves[j]).0
        != i by {
        if j < before.halves.len() {
            assert(before.halves[j] == after.halves[j]);
            assert(after.halves[j] == done.halves[j]);
        }
    }
}

/// Whether a piece of listing leaves no holes.
pub open spec fn is_straight(before: Listing, after: Listing) -> bool {
    &&& after.holes == before.holes
    &&& after.near == before.near
    &&& after.halves == before.halves
}

/// Straight code leads on, in the end.
pub(super) proof fn straight_code_reaches(
    before: Listing,
    after: Listing,
    done: Listing,
    whole: Seq<u8>,
    from: State,
    to: State,
)
    requires
        is_loaded(done, whole),
        is_within(before),
        grows(before, after),
        grows(after, done),
        is_straight(before, after),
        machine::leads(before, after, from, to),
    ensures
        reaches(whole, done.origin as int, end_of(before), from, end_of(after), to),
{
    let none = Seq::<u8>::empty();
    let code = machine::added(before, after);
    assert(code + none =~= code);
    assert(machine::runs(code + none, from) == machine::runs(none, to));
    running_code_reaches(before, after, done, whole, from, to);
}

pub(super) proof fn an_address_reads_back(address: nat)
    requires
        address <= 0xFFFF,
    ensures
        assembler::low(address) + 256 * assembler::high(address) == address,
{
}

/// Bytes that are a jump are one.
proof fn a_jump_steps(code: Seq<u8>, origin: int, at: int, state: State)
    requires
        0 <= at,
        at + 2 < code.len(),
        code[at] == 0x4C,
        address_at(code, at + 1) < HOOK_WRITE,
    ensures
        step(code, origin, at, state) == Some((address_at(code, at + 1) - origin, state)),
{
    assert(state.acts(code[at]) is None);
    assert(condition(code[at]) is None);
}

/// A jump leads to its label.
#[verifier::rlimit(40)]
#[verifier::spinoff_prover]
pub(super) proof fn a_jump_reaches(
    before: Listing,
    label: Label,
    done: Listing,
    whole: Seq<u8>,
    state: State,
)
    requires
        is_loaded(done, whole),
        is_within(before),
        grows(before.jmp(label), done),
    ensures
        reaches(
            whole,
            done.origin as int,
            end_of(before),
            state,
            place_of(done, label),
            state,
        ),
{
    let after = before.jmp(label);
    let at = before.bytes.len() as int;
    let which = before.holes.len() as int;
    a_jump_grows(before, label);
    assert(after.holes[which] == ((at + 1) as nat, label));
    assert(done.holes[which] == ((at + 1) as nat, label));
    assert(done.lands(done.holes[which].1));
    between_there_are_no_holes(before, after, done, at);
    assert(whole[at] == 0x4C);
    assert(done.labels[label.0 as int] is Some);
    an_address_reads_back(done.target(label)->0);
    assert(address_at(whole, at + 1) == done.target(label)->0);
    a_jump_steps(whole, done.origin as int, at, state);
    a_step_reaches(whole, done.origin as int, at, state, place_of(done, label), state);
}

/// A byte that is a branch is one.
proof fn a_branch_steps(code: Seq<u8>, origin: int, at: int, cc: Cc, state: State)
    requires
        0 <= at,
        at + 1 < code.len(),
        code[at] == cc.when(),
    ensures
        step(code, origin, at, state) == Some(
            (
                if state.holds(cc) {
                    at + 2 + signed(code[at + 1])
                } else {
                    at + 2
                },
                state,
            ),
        ),
{
    assert(state.acts(code[at]) is None);
    assert(condition(code[at]) == Some(cc));
}

/// The condition that holds where another does not.
pub open spec fn inverse(cc: Cc) -> Cc {
    match cc {
        Cc::Equal => Cc::NotEqual,
        Cc::NotEqual => Cc::Equal,
        Cc::NoCarry => Cc::Carry,
        Cc::Carry => Cc::NoCarry,
    }
}

/// A branch that is known not to reach goes round a jump.
proof fn a_far_branch_reaches(
    before: Listing,
    cc: Cc,
    label: Label,
    done: Listing,
    whole: Seq<u8>,
    state: State,
)
    requires
        is_loaded(done, whole),
        is_within(before),
        grows(before.branch(cc, label), done),
        before.is_far(before.branches),
    ensures
        reaches(
            whole,
            done.origin as int,
            end_of(before),
            state,
            if state.holds(cc) {
                place_of(done, label)
            } else {
                end_of(before.branch(cc, label))
            },
            state,
        ),
{
    reveal(Listing::are_spaced);
    let after = before.branch(cc, label);
    let at = end_of(before);
    let origin = done.origin as int;
    let counted = Listing { branches: before.branches + 1, ..before };
    let hopped = counted.emit(seq![cc.unless(), 3u8]);
    assert(after == hopped.jmp(label));
    a_jump_grows(hopped, label);
    growth_chains(hopped, after, done);
    assert(grows(before, hopped));
    what_grows_stays_within(before, hopped);
    between_there_are_no_holes(before, hopped, done, at);
    between_there_are_no_holes(before, hopped, done, at + 1);
    assert(hopped.bytes[at] == cc.unless() && hopped.bytes[at + 1] == 3);
    assert(whole[at] == inverse(cc).when() && whole[at + 1] == 3);
    a_branch_steps(whole, origin, at, inverse(cc), state);
    assert(state.holds(inverse(cc)) == !state.holds(cc));
    if state.holds(cc) {
        a_step_reaches(whole, origin, at, state, at + 2, state);
        a_jump_reaches(hopped, label, done, whole, state);
        reaching_chains(whole, origin, at, state, at + 2, state, place_of(done, label), state);
    } else {
        a_step_reaches(whole, origin, at, state, at + 5, state);
        assert(end_of(after) == at + 5);
    }
}

/// A branch leads to its label where its condition holds, and on where it
/// does not.
pub(super) proof fn a_branch_reaches(
    before: Listing,
    cc: Cc,
    label: Label,
    done: Listing,
    whole: Seq<u8>,
    state: State,
)
    requires
        is_loaded(done, whole),
        is_within(before),
        grows(before.branch(cc, label), done),
    ensures
        reaches(
            whole,
            done.origin as int,
            end_of(before),
            state,
            if state.holds(cc) {
                place_of(done, label)
            } else {
                end_of(before.branch(cc, label))
            },
            state,
        ),
{
    if before.is_far(before.branches) {
        a_far_branch_reaches(before, cc, label, done, whole, state);
    } else {
        let after = before.branch(cc, label);
        let at = end_of(before);
        let which = before.near.len() as int;
        a_branch_grows(before, cc, label);
        assert(after.near[which] == ((at + 1) as nat, label, before.branches));
        assert(done.near[which] == ((at + 1) as nat, label, before.branches));
        assert(done.reaches(done.near[which].0, done.near[which].1));
        between_there_are_no_holes(before, after, done, at);
        assert(after.bytes[at] == cc.when());
        let away = done.displacement((at + 1) as nat, label);
        assert(whole[at + 1] == (away % 256) as u8);
        assert(signed((away % 256) as u8) == away) by {
            if away >= 0 {
                assert(away % 256 == away);
            } else {
                assert(away % 256 == away + 256);
            }
        }
        a_branch_steps(whole, done.origin as int, at, cc, state);
        let next = if state.holds(cc) {
            place_of(done, label)
        } else {
            at + 2
        };
        a_step_reaches(whole, done.origin as int, at, state, next, state);
    }
}

/// A branch, from wherever the code before it was reached from.
proof fn a_branch_follows(
    at: int,
    from: State,
    before: Listing,
    cc: Cc,
    label: Label,
    done: Listing,
    whole: Seq<u8>,
    state: State,
)
    requires
        is_loaded(done, whole),
        is_within(before),
        grows(before.branch(cc, label), done),
        reaches(whole, done.origin as int, at, from, end_of(before), state),
    ensures
        reaches(
            whole,
            done.origin as int,
            at,
            from,
            if state.holds(cc) {
                place_of(done, label)
            } else {
                end_of(before.branch(cc, label))
            },
            state,
        ),
{
    a_branch_reaches(before, cc, label, done, whole, state);
    reaching_chains(
        whole,
        done.origin as int,
        at,
        from,
        end_of(before),
        state,
        if state.holds(cc) {
            place_of(done, label)
        } else {
            end_of(before.branch(cc, label))
        },
        state,
    );
}

/// The word in a pair of the first page.
pub open spec fn pair_of(state: State, pair: u8) -> nat {
    machine::word(state.memory, pair as int)
}

/// Two bytes of the first page are held against each other.
proof fn two_bytes_are_held_together(listing: Listing, left: u8, right: u8, state: State) -> (
    after: State)
    ensures
        machine::leads(
            listing,
            listing.lda_zp(left).emit(seq![0xC5u8, right]),
            state,
            after,
        ),
        after.limit == state.limit,
        after.top == state.top,
        after.memory == state.memory,
        after.zero == (state.memory[left as int] == state.memory[right as int]),
        after.carry == (state.memory[left as int] >= state.memory[right as int]),
        grows(listing, listing.lda_zp(left).emit(seq![0xC5u8, right])),
        is_straight(listing, listing.lda_zp(left).emit(seq![0xC5u8, right])),
{
    reveal(Listing::are_spaced);
    let read = state.read(state.memory[left as int]);
    machine::two_bytes_lead(listing, 0xA5, left, state);
    machine::two_bytes_more(listing, listing.lda_zp(left), state, read, 0xC5, right);
    read.does(0xC5, right)->Some_0
}

/// Whether labels made lately are, in the end, where they are.
pub open spec fn labels_settle(before: Listing, end: Listing, done: Listing) -> bool {
    forall|l: int|
        before.labels.len() <= l < end.labels.len() ==> #[trigger] done.labels[l]
            == end.labels[l]
}

/// A pair is set, and with it whatever the code goes on to.
proof fn a_setting_reaches(
    before: Listing,
    pair: u8,
    value: u16,
    done: Listing,
    whole: Seq<u8>,
    state: State,
) -> (after: State)
    requires
        is_loaded(done, whole),
        is_within(before),
        grows(before.set_pair(pair, value), done),
        machine::is_free(pair),
        state.memory.len() == machine::size(),
    ensures
        reaches(
            whole,
            done.origin as int,
            end_of(before),
            state,
            end_of(before.set_pair(pair, value)),
            after,
        ),
        after.limit == state.limit,
        after.top == state.top,
        pair_of(after, pair) == value,
        after.memory.len() == machine::size(),
        forall|i: int|
            0 <= i < machine::size() && i != pair && i != pair + 1 ==> #[trigger] after.memory[i]
                == state.memory[i],
{
    let after = machine::a_pair_is_set(before, pair, value, state);
    machine::leading_stays(before, before.set_pair(pair, value), state, after);
    setting_grows(before, pair, value);
    straight_code_reaches(before, before.set_pair(pair, value), done, whole, state, after);
    after
}

proof fn setting_grows(listing: Listing, pair: u8, value: u16)
    ensures
        grows(listing, listing.set_pair(pair, value)),
        is_straight(listing, listing.set_pair(pair, value)),
        listing.set_pair(pair, value).labels == listing.labels,
{
    reveal(Listing::are_spaced);
    let code = seq![
        0xA9u8,
        assembler::low(value as nat),
        0x85u8,
        pair,
        0xA9u8,
        assembler::high(value as nat),
        0x85u8,
        (pair + 1) as u8,
    ];
    assert(listing.set_pair(pair, value).bytes =~= listing.bytes + code);
}

/// What a comparison ends with, once it is decided: nothing where it is not
/// so, and one where it is.
pub open spec fn told(decided: Listing, yes: Label, over: Label, no: Label) -> Listing {
    decided.bind(no).set_pair(T0, 0).jmp(over).bind(yes).set_pair(T0, 1).bind(over)
}

/// Up to where it says no.
spec fn told_no(decided: Listing, no: Label) -> Listing {
    decided.bind(no).set_pair(T0, 0)
}

/// Up to where it says yes.
spec fn told_yes(decided: Listing, yes: Label, over: Label, no: Label) -> Listing {
    told_no(decided, no).jmp(over).bind(yes)
}

proof fn telling_grows(decided: Listing, yes: Label, over: Label, no: Label)
    requires
        yes.0 < decided.labels.len(),
        over.0 < decided.labels.len(),
        no.0 < decided.labels.len(),
        yes.0 != over.0,
        yes.0 != no.0,
        over.0 != no.0,
    ensures
        grows(decided, told(decided, yes, over, no)),
        grows(decided.bind(no), told(decided, yes, over, no)),
        grows(told_no(decided, no), told(decided, yes, over, no)),
        grows(told_no(decided, no).jmp(over), told(decided, yes, over, no)),
        grows(told_yes(decided, yes, over, no), told(decided, yes, over, no)),
        grows(
            told_yes(decided, yes, over, no).set_pair(T0, 1),
            told(decided, yes, over, no),
        ),
        grows(decided, decided.bind(no)),
        grows(decided, told_no(decided, no)),
        grows(decided, told_yes(decided, yes, over, no)),
        told(decided, yes, over, no).labels.len() == decided.labels.len(),
        told(decided, yes, over, no).labels[no.0 as int] == Some(decided.bytes.len()),
        told(decided, yes, over, no).labels[yes.0 as int] == Some(
            told_yes(decided, yes, over, no).bytes.len(),
        ),
        told(decided, yes, over, no).labels[over.0 as int] == Some(
            told(decided, yes, over, no).bytes.len(),
        ),
{
    let end = told(decided, yes, over, no);
    let one = decided.bind(no);
    let two = told_no(decided, no);
    let three = two.jmp(over);
    let four = told_yes(decided, yes, over, no);
    let five = four.set_pair(T0, 1);
    binding_grows(decided, no);
    setting_grows(one, T0, 0);
    a_jump_grows(two, over);
    binding_grows(three, yes);
    setting_grows(four, T0, 1);
    binding_grows(five, over);
    growth_chains(four, five, end);
    growth_chains(three, four, end);
    growth_chains(two, three, end);
    growth_chains(one, two, end);
    growth_chains(decided, one, end);
    growth_chains(decided, one, two);
    growth_chains(decided, two, three);
    growth_chains(decided, three, four);
}

/// From where it is not so, nothing is told.
proof fn no_is_told(
    decided: Listing,
    yes: Label,
    over: Label,
    no: Label,
    done: Listing,
    whole: Seq<u8>,
    state: State,
) -> (after: State)
    requires
        is_loaded(done, whole),
        is_within(decided),
        yes.0 < decided.labels.len(),
        over.0 < decided.labels.len(),
        no.0 < decided.labels.len(),
        yes.0 != over.0,
        yes.0 != no.0,
        over.0 != no.0,
        grows(told(decided, yes, over, no), done),
        place_of(done, over) == end_of(told(decided, yes, over, no)),
        state.memory.len() == machine::size(),
    ensures
        reaches(
            whole,
            done.origin as int,
            end_of(decided),
            state,
            end_of(told(decided, yes, over, no)),
            after,
        ),
        after.limit == state.limit,
        after.top == state.top,
        pair_of(after, T0) == 0,
        after.memory.len() == machine::size(),
        forall|i: int|
            0 <= i < machine::size() && i != T0 && i != T0_HIGH ==> #[trigger] after.memory[i]
                == state.memory[i],
{
    let end = told(decided, yes, over, no);
    let one = decided.bind(no);
    let two = told_no(decided, no);
    telling_grows(decided, yes, over, no);
    what_grows_stays_within(decided, one);
    what_grows_stays_within(decided, two);
    growth_chains(two, end, done);
    growth_chains(two.jmp(over), end, done);
    let after = a_setting_reaches(one, T0, 0, done, whole, state);
    a_jump_reaches(two, over, done, whole, after);
    reaching_chains(
        whole,
        done.origin as int,
        end_of(decided),
        state,
        end_of(two),
        after,
        end_of(end),
        after,
    );
    after
}

/// From where it is so, one is.
proof fn yes_is_told(
    decided: Listing,
    yes: Label,
    over: Label,
    no: Label,
    done: Listing,
    whole: Seq<u8>,
    state: State,
) -> (after: State)
    requires
        is_loaded(done, whole),
        is_within(decided),
        yes.0 < decided.labels.len(),
        over.0 < decided.labels.len(),
        no.0 < decided.labels.len(),
        yes.0 != over.0,
        yes.0 != no.0,
        over.0 != no.0,
        grows(told(decided, yes, over, no), done),
        place_of(done, yes) == end_of(told_yes(decided, yes, over, no)),
        state.memory.len() == machine::size(),
    ensures
        reaches(
            whole,
            done.origin as int,
            place_of(done, yes),
            state,
            end_of(told(decided, yes, over, no)),
            after,
        ),
        after.limit == state.limit,
        after.top == state.top,
        pair_of(after, T0) == 1,
        after.memory.len() == machine::size(),
        forall|i: int|
            0 <= i < machine::size() && i != T0 && i != T0_HIGH ==> #[trigger] after.memory[i]
                == state.memory[i],
{
    let end = told(decided, yes, over, no);
    let four = told_yes(decided, yes, over, no);
    telling_grows(decided, yes, over, no);
    what_grows_stays_within(decided, four);
    growth_chains(four.set_pair(T0, 1), end, done);
    a_setting_reaches(four, T0, 1, done, whole, state)
}

/// Whether a relation holds between two words.
pub open spec fn relates(relation: Relation, left: nat, right: nat) -> bool {
    match relation {
        Relation::Equal => left == right,
        Relation::Less => left < right,
    }
}

/// Where a comparison of two words is decided, and the labels it goes to.
spec fn decided(listing: Listing, relation: Relation) -> Listing {
    let yes = listing.next();
    let no = listing.label().label().next();
    let start = listing.label().label().label();
    match relation {
        Relation::Equal => start.lda_zp(T0).emit(seq![0xC5u8, T1]).branch(Cc::NotEqual, no).lda_zp(
            T0_HIGH,
        ).emit(seq![0xC5u8, T1_HIGH]).branch(Cc::Equal, yes),
        Relation::Less => start.lda_zp(T0_HIGH).emit(seq![0xC5u8, T1_HIGH]).branch(
            Cc::NoCarry,
            yes,
        ).branch(Cc::NotEqual, no).lda_zp(T0).emit(seq![0xC5u8, T1]).branch(Cc::NoCarry, yes),
    }
}

/// Two bytes, from wherever the code before them was reached from.
proof fn a_look_follows(
    at: int,
    from: State,
    before: Listing,
    left: u8,
    right: u8,
    done: Listing,
    whole: Seq<u8>,
    state: State,
) -> (after: State)
    requires
        is_loaded(done, whole),
        is_within(before),
        grows(before.lda_zp(left).emit(seq![0xC5u8, right]), done),
        reaches(whole, done.origin as int, at, from, end_of(before), state),
    ensures
        reaches(
            whole,
            done.origin as int,
            at,
            from,
            end_of(before.lda_zp(left).emit(seq![0xC5u8, right])),
            after,
        ),
        after.limit == state.limit,
        after.top == state.top,
        after.memory == state.memory,
        after.zero == (state.memory[left as int] == state.memory[right as int]),
        after.carry == (state.memory[left as int] >= state.memory[right as int]),
{
    let next = before.lda_zp(left).emit(seq![0xC5u8, right]);
    let after = two_bytes_are_held_together(before, left, right, state);
    straight_code_reaches(before, next, done, whole, state, after);
    reaching_chains(
        whole,
        done.origin as int,
        at,
        from,
        end_of(before),
        state,
        end_of(next),
        after,
    );
    after
}

proof fn a_look_grows(listing: Listing, left: u8, right: u8)
    ensures
        grows(listing, listing.lda_zp(left).emit(seq![0xC5u8, right])),
{
    reveal(Listing::are_spaced);
}

/// What is listed on the way to a decision goes on to it.
proof fn a_decision_grows(listing: Listing, relation: Relation)
    ensures
        grows(listing, decided(listing, relation)),
        grows(listing.label().label().label(), decided(listing, relation)),
        decided(listing, relation).labels.len() == listing.labels.len() + 3,
{
    reveal(Listing::are_spaced);
    let yes = listing.next();
    let no = listing.label().label().next();
    let start = listing.label().label().label();
    let end = decided(listing, relation);
    assert(grows(listing, start));
    match relation {
        Relation::Equal => {
            let one = start.lda_zp(T0).emit(seq![0xC5u8, T1]);
            let two = one.branch(Cc::NotEqual, no);
            let three = two.lda_zp(T0_HIGH).emit(seq![0xC5u8, T1_HIGH]);
            a_look_grows(start, T0, T1);
            a_branch_grows(one, Cc::NotEqual, no);
            a_look_grows(two, T0_HIGH, T1_HIGH);
            a_branch_grows(three, Cc::Equal, yes);
            growth_chains(start, one, two);
            growth_chains(start, two, three);
            growth_chains(start, three, end);
        },
        Relation::Less => {
            let one = start.lda_zp(T0_HIGH).emit(seq![0xC5u8, T1_HIGH]);
            let two = one.branch(Cc::NoCarry, yes);
            let three = two.branch(Cc::NotEqual, no);
            let four = three.lda_zp(T0).emit(seq![0xC5u8, T1]);
            a_look_grows(start, T0_HIGH, T1_HIGH);
            a_branch_grows(one, Cc::NoCarry, yes);
            a_branch_grows(two, Cc::NotEqual, no);
            a_look_grows(three, T0, T1);
            a_branch_grows(four, Cc::NoCarry, yes);
            growth_chains(start, one, two);
            growth_chains(start, two, three);
            growth_chains(start, three, four);
            growth_chains(start, four, end);
        },
    }
    growth_chains(listing, start, end);
}

/// Words are one where both their bytes are.
proof fn words_are_their_bytes(state: State)
    ensures
        pair_of(state, T0) == pair_of(state, T1) <==> state.memory[T0 as int]
            == state.memory[T1 as int] && state.memory[T0_HIGH as int]
            == state.memory[T1_HIGH as int],
{
}

#[verifier::spinoff_prover]
#[verifier::rlimit(40)]
proof fn equality_is_decided(
    start: Listing,
    yes: Label,
    no: Label,
    done: Listing,
    whole: Seq<u8>,
    state: State,
) -> (after: State)
    requires
        is_loaded(done, whole),
        is_within(start),
        ({
            let end = start.lda_zp(T0).emit(seq![0xC5u8, T1]).branch(Cc::NotEqual, no).lda_zp(
                T0_HIGH,
            ).emit(seq![0xC5u8, T1_HIGH]).branch(Cc::Equal, yes);
            &&& grows(end, done)
            &&& place_of(done, no) == end_of(end)
        }),
    ensures
        ({
            let end = start.lda_zp(T0).emit(seq![0xC5u8, T1]).branch(Cc::NotEqual, no).lda_zp(
                T0_HIGH,
            ).emit(seq![0xC5u8, T1_HIGH]).branch(Cc::Equal, yes);
            reaches(
                whole,
                done.origin as int,
                end_of(start),
                state,
                if pair_of(state, T0) == pair_of(state, T1) {
                    place_of(done, yes)
                } else {
                    end_of(end)
                },
                after,
            )
        }),
        after.limit == state.limit,
        after.top == state.top,
        after.memory == state.memory,
{
    let one = start.lda_zp(T0).emit(seq![0xC5u8, T1]);
    let two = one.branch(Cc::NotEqual, no);
    let three = two.lda_zp(T0_HIGH).emit(seq![0xC5u8, T1_HIGH]);
    let end = three.branch(Cc::Equal, yes);
    let at = end_of(start);
    a_look_grows(start, T0, T1);
    a_branch_grows(one, Cc::NotEqual, no);
    a_look_grows(two, T0_HIGH, T1_HIGH);
    a_branch_grows(three, Cc::Equal, yes);
    growth_chains(three, end, done);
    growth_chains(two, three, done);
    growth_chains(one, two, done);
    what_grows_stays_within(start, one);
    what_grows_stays_within(one, two);
    what_grows_stays_within(two, three);
    staying_reaches(whole, done.origin as int, at, state);
    words_are_their_bytes(state);
    let first = a_look_follows(at, state, start, T0, T1, done, whole, state);
    a_branch_follows(at, state, one, Cc::NotEqual, no, done, whole, first);
    if !first.zero {
        first
    } else {
        let second = a_look_follows(
            at,
            state,
            two,
            T0_HIGH,
            T1_HIGH,
            done,
            whole,
            first,
        );
        a_branch_follows(at, state, three, Cc::Equal, yes, done, whole, second);
        second
    }
}

#[verifier::spinoff_prover]
proof fn order_is_decided(
    start: Listing,
    yes: Label,
    no: Label,
    done: Listing,
    whole: Seq<u8>,
    state: State,
) -> (after: State)
    requires
        is_loaded(done, whole),
        is_within(start),
        ({
            let end = start.lda_zp(T0_HIGH).emit(seq![0xC5u8, T1_HIGH]).branch(
                Cc::NoCarry,
                yes,
            ).branch(Cc::NotEqual, no).lda_zp(T0).emit(seq![0xC5u8, T1]).branch(
                Cc::NoCarry,
                yes,
            );
            &&& grows(end, done)
            &&& place_of(done, no) == end_of(end)
        }),
    ensures
        ({
            let end = start.lda_zp(T0_HIGH).emit(seq![0xC5u8, T1_HIGH]).branch(
                Cc::NoCarry,
                yes,
            ).branch(Cc::NotEqual, no).lda_zp(T0).emit(seq![0xC5u8, T1]).branch(
                Cc::NoCarry,
                yes,
            );
            reaches(
                whole,
                done.origin as int,
                end_of(start),
                state,
                if pair_of(state, T0) < pair_of(state, T1) {
                    place_of(done, yes)
                } else {
                    end_of(end)
                },
                after,
            )
        }),
        after.limit == state.limit,
        after.top == state.top,
        after.memory == state.memory,
{
    let one = start.lda_zp(T0_HIGH).emit(seq![0xC5u8, T1_HIGH]);
    let two = one.branch(Cc::NoCarry, yes);
    let three = two.branch(Cc::NotEqual, no);
    let four = three.lda_zp(T0).emit(seq![0xC5u8, T1]);
    let end = four.branch(Cc::NoCarry, yes);
    let at = end_of(start);
    a_look_grows(start, T0_HIGH, T1_HIGH);
    a_branch_grows(one, Cc::NoCarry, yes);
    a_branch_grows(two, Cc::NotEqual, no);
    a_look_grows(three, T0, T1);
    a_branch_grows(four, Cc::NoCarry, yes);
    growth_chains(four, end, done);
    growth_chains(three, four, done);
    growth_chains(two, three, done);
    growth_chains(one, two, done);
    what_grows_stays_within(start, one);
    what_grows_stays_within(one, two);
    what_grows_stays_within(two, three);
    what_grows_stays_within(three, four);
    staying_reaches(whole, done.origin as int, at, state);
    let first = a_look_follows(at, state, start, T0_HIGH, T1_HIGH, done, whole, state);
    a_branch_follows(at, state, one, Cc::NoCarry, yes, done, whole, first);
    if !first.carry {
        first
    } else {
        a_branch_follows(at, state, two, Cc::NotEqual, no, done, whole, first);
        if !first.zero {
            first
        } else {
            let second = a_look_follows(at, state, three, T0, T1, done, whole, first);
            a_branch_follows(at, state, four, Cc::NoCarry, yes, done, whole, second);
            second
        }
    }
}

/// Two words are held against each other, and the code goes where that says.
proof fn a_decision_reaches(
    listing: Listing,
    relation: Relation,
    done: Listing,
    whole: Seq<u8>,
    state: State,
) -> (after: State)
    requires
        is_loaded(done, whole),
        is_within(listing),
        grows(decided(listing, relation), done),
        place_of(done, listing.label().label().next()) == end_of(decided(listing, relation)),
        state.memory.len() == machine::size(),
    ensures
        reaches(
            whole,
            done.origin as int,
            end_of(listing),
            state,
            if relates(relation, pair_of(state, T0), pair_of(state, T1)) {
                place_of(done, listing.next())
            } else {
                end_of(decided(listing, relation))
            },
            after,
        ),
        after.limit == state.limit,
        after.top == state.top,
        after.memory == state.memory,
{
    let yes = listing.next();
    let no = listing.label().label().next();
    let start = listing.label().label().label();
    reveal(Listing::are_spaced);
    assert(is_within(start));
    match relation {
        Relation::Equal => equality_is_decided(start, yes, no, done, whole, state),
        Relation::Less => order_is_decided(start, yes, no, done, whole, state),
    }
}

/// A comparison tells whether two words relate, as one or nothing, and leaves
/// the rest of memory what it was.
pub proof fn a_comparison_tells(
    listing: Listing,
    relation: Relation,
    done: Listing,
    whole: Seq<u8>,
    state: State,
) -> (after: State)
    requires
        is_loaded(done, whole),
        is_within(listing),
        grows(listing.comparison(relation), done),
        labels_settle(listing, listing.comparison(relation), done),
        state.memory.len() == machine::size(),
    ensures
        grows(listing, listing.comparison(relation)),
        reaches(
            whole,
            done.origin as int,
            end_of(listing),
            state,
            end_of(listing.comparison(relation)),
            after,
        ),
        after.limit == state.limit,
        after.top == state.top,
        pair_of(after, T0) == if relates(relation, pair_of(state, T0), pair_of(state, T1)) {
            1nat
        } else {
            0nat
        },
        after.memory.len() == machine::size(),
        forall|i: int|
            0 <= i < machine::size() && i != T0 && i != T0_HIGH ==> #[trigger] after.memory[i]
                == state.memory[i],
{
    let yes = listing.next();
    let over = listing.label().next();
    let no = listing.label().label().next();
    let n = listing.labels.len() as int;
    let mid = decided(listing, relation);
    let end = listing.comparison(relation);
    assert(end == told(mid, yes, over, no));
    a_decision_grows(listing, relation);
    growing_keeps_labels(listing, relation);
    assert(end.labels.len() <= done.labels.len());
    assert(yes.0 == n && over.0 == n + 1 && no.0 == n + 2);
    telling_grows(mid, yes, over, no);
    growth_chains(mid, end, done);
    assert(done.labels[n] == end.labels[n]);
    assert(done.labels[n + 1] == end.labels[n + 1]);
    assert(done.labels[n + 2] == end.labels[n + 2]);
    let by = a_decision_reaches(listing, relation, done, whole, state);
    growth_chains(listing, mid, end);
    what_grows_stays_within(listing, mid);
    if relates(relation, pair_of(state, T0), pair_of(state, T1)) {
        let after = yes_is_told(mid, yes, over, no, done, whole, by);
        reaching_chains(
            whole,
            done.origin as int,
            end_of(listing),
            state,
            place_of(done, yes),
            by,
            end_of(end),
            after,
        );
        after
    } else {
        let after = no_is_told(mid, yes, over, no, done, whole, by);
        reaching_chains(
            whole,
            done.origin as int,
            end_of(listing),
            state,
            end_of(mid),
            by,
            end_of(end),
            after,
        );
        after
    }
}

proof fn growing_keeps_labels(listing: Listing, relation: Relation)
    ensures
        listing.comparison(relation).labels.len() >= listing.labels.len() + 3
            || listing.labels.len() + 3 > usize::MAX,
{
    let yes = listing.next();
    let over = listing.label().next();
    let no = listing.label().label().next();
    let mid = decided(listing, relation);
    a_decision_grows(listing, relation);
    if listing.labels.len() + 3 <= usize::MAX {
        telling_grows(mid, yes, over, no);
    }
}

/// A value is read by straight code.
pub(super) proof fn reading_grows(machine: Machine, work: Work, pair: u8, value: ValueId)
    ensures
        grows(work.code, machine.read(work, pair, value).code),
        is_straight(work.code, machine.read(work, pair, value).code),
        machine.read(work, pair, value).code.labels == work.code.labels,
        machine.read(work, pair, value).source == work.source,
        machine.read(work, pair, value).frame == work.frame,
        work.code.failed ==> machine.read(work, pair, value).code.failed,
{
    reveal(Listing::are_spaced);
    match work.source[value.0 as int] {
        Source::Const(word) => {
            setting_grows(work.code, pair, word as u16);
        },
        Source::Addr(data) => {
            setting_grows(work.code, pair, machine.address(data) as u16);
        },
        Source::Slot(offset) => {
            let code = seq![
                0xA0u8,
                offset,
                0xB1u8,
                FP,
                0x85u8,
                pair,
                0xC8u8,
                0xB1u8,
                FP,
                0x85u8,
                (pair + 1) as u8,
            ];
            assert(machine.read(work, pair, value).code.bytes =~= work.code.bytes + code);
        },
    }
}

/// A value is kept by straight code.
pub(super) proof fn keeping_grows(work: Work, value: ValueId, pair: u8)
    ensures
        grows(work.code, work.write_slot(value, pair).code),
        is_straight(work.code, work.write_slot(value, pair).code),
        work.write_slot(value, pair).code.labels == work.code.labels,
        work.write_slot(value, pair).source == work.source,
        work.write_slot(value, pair).frame == work.frame,
        work.code.failed ==> work.write_slot(value, pair).code.failed,
{
    reveal(Listing::are_spaced);
    match work.source[value.0 as int] {
        Source::Slot(offset) => {
            let code = seq![
                0xA0u8,
                offset,
                0xA5u8,
                pair,
                0x91u8,
                FP,
                0xC8u8,
                0xA5u8,
                (pair + 1) as u8,
                0x91u8,
                FP,
            ];
            assert(work.write_slot(value, pair).code.bytes =~= work.code.bytes + code);
        },
        _ => {},
    }
}

pub(super) proof fn comparing_fails_where_it_did(listing: Listing, relation: Relation)
    ensures
        listing.comparison(relation).failed == listing.failed,
{
}

/// A comparison computes what the program says it does: the slot of its result
/// takes one or nothing, and beside the scratch it goes through nothing else
/// changes.
pub proof fn a_comparison_computes(
    machine: Machine,
    work: Work,
    relation: Relation,
    left: ValueId,
    right: ValueId,
    result: ValueId,
    done: Listing,
    whole: Seq<u8>,
    state: State,
) -> (after: State)
    requires
        is_loaded(done, whole),
        is_within(work.code),
        !machine.simple(work, Op::Compare { relation, left, right }, seq![result]).code.failed,
        grows(
            machine.simple(work, Op::Compare { relation, left, right }, seq![result]).code,
            done,
        ),
        labels_settle(
            work.code,
            machine.simple(work, Op::Compare { relation, left, right }, seq![result]).code,
            done,
        ),
        machine::stands(state),
        machine::is_placed(work, left),
        machine::is_placed(work, right),
        machine::is_placed(work, result),
    ensures
        after.limit == state.limit,
        after.top == state.top,
        work.source[result.0 as int] is Slot,
        reaches(
            whole,
            done.origin as int,
            end_of(work.code),
            state,
            end_of(
                machine.simple(work, Op::Compare { relation, left, right }, seq![result]).code,
            ),
            after,
        ),
        machine::word(after.memory, machine::slot(work, result, state.memory)) == if relates(
            relation,
            machine.word(work, left, state.memory),
            machine.word(work, right, state.memory),
        ) {
            1nat
        } else {
            0nat
        },
        machine::only_sets(
            state.memory,
            after.memory,
            machine::slot(work, result, state.memory),
        ),
{
    let half = machine.read(work, T0, left);
    let held = machine.pair(work, left, right);
    let told = Work { code: held.code.comparison(relation), ..held };
    let end = machine.simple(work, Op::Compare { relation, left, right }, seq![result]);
    assert(end == told.write_slot(result, T0));
    reading_grows(machine, work, T0, left);
    reading_grows(machine, half, T1, right);
    growth_chains(work.code, half.code, held.code);
    what_grows_stays_within(work.code, held.code);
    keeping_grows(told, result, T0);
    growth_chains(told.code, end.code, done);
    comparing_fails_where_it_did(held.code, relation);
    let one = machine::two_values_are_read(machine, work, left, right, state);
    machine::leading_stays(work.code, held.code, state, one);
    machine::the_frame_stays(state, one);
    let two = a_comparison_tells(held.code, relation, done, whole, one);
    growth_chains(held.code, told.code, done);
    straight_code_reaches(work.code, held.code, done, whole, state, one);
    assert(machine::keeps(state.memory, two.memory));
    machine::the_frame_stays(state, two);
    machine::nothing_leads_nowhere(told.code, two);
    what_grows_stays_within(held.code, told.code);
    let after = machine::a_result_is_kept(told, told.code, result, two, two);
    machine::leading_stays(told.code, end.code, two, after);
    straight_code_reaches(told.code, end.code, done, whole, two, after);
    reaching_chains(
        whole,
        done.origin as int,
        end_of(work.code),
        state,
        end_of(held.code),
        one,
        end_of(told.code),
        two,
    );
    reaching_chains(
        whole,
        done.origin as int,
        end_of(work.code),
        state,
        end_of(told.code),
        two,
        end_of(end.code),
        after,
    );
    after
}

/// What is listed and leaves no holes goes on.
pub(super) proof fn plain_grows(before: Listing, after: Listing)
    requires
        after == (Listing { bytes: after.bytes, failed: after.failed, ..before }),
        before.bytes.is_prefix_of(after.bytes),
        before.failed ==> after.failed,
    ensures
        grows(before, after),
        is_straight(before, after),
{
    reveal(Listing::are_spaced);
}

/// Whether writing goes on, and neither binds a label nor moves a value.
pub open spec fn extends(before: Work, after: Work) -> bool {
    &&& grows(before.code, after.code)
    &&& after.code.labels == before.code.labels
    &&& after.source == before.source
    &&& after.frame == before.frame
}

/// Whether writing goes on, and labels there were are where they were.
pub open spec fn goes_further(before: Work, after: Work) -> bool {
    &&& grows(before.code, after.code)
    &&& after.source == before.source
    &&& after.frame == before.frame
    &&& after.code.labels.len() <= usize::MAX ==> forall|l: int|
        0 <= l < before.code.labels.len() ==> #[trigger] after.code.labels[l]
            == before.code.labels[l]
}

pub(super) proof fn extending_chains(first: Work, second: Work, third: Work)
    requires
        extends(first, second),
        extends(second, third),
    ensures
        extends(first, third),
{
    growth_chains(first.code, second.code, third.code);
}

pub(super) proof fn going_further_chains(first: Work, second: Work, third: Work)
    requires
        goes_further(first, second),
        goes_further(second, third),
    ensures
        goes_further(first, third),
{
    growth_chains(first.code, second.code, third.code);
    if third.code.labels.len() <= usize::MAX {
        assert forall|l: int| 0 <= l < first.code.labels.len() implies
            #[trigger] third.code.labels[l] == first.code.labels[l] by {
            assert(second.code.labels[l] == first.code.labels[l]);
        }
    }
}

pub(super) proof fn reading_extends(machine: Machine, work: Work, pair: u8, value: ValueId)
    ensures
        extends(work, machine.read(work, pair, value)),
{
    reading_grows(machine, work, pair, value);
}

pub(super) proof fn keeping_extends(work: Work, value: ValueId, pair: u8)
    ensures
        extends(work, work.write_slot(value, pair)),
{
    keeping_grows(work, value, pair);
}

pub(super) proof fn taking_extends(machine: Machine, work: Work, params: Seq<ValueId>, from: int)
    ensures
        extends(work, machine.take_args(work, params, from)),
    decreases params.len() - from,
{
    reveal(Listing::are_spaced);
    if 0 <= from < params.len() && from < 120 {
        let next = work.write_slot(params[from], (ARGS + 2 * from) as u8);
        keeping_extends(work, params[from], (ARGS + 2 * from) as u8);
        taking_extends(machine, next, params, from + 1);
        extending_chains(work, next, machine.take_args(work, params, from));
    }
}

pub(super) proof fn passing_extends(machine: Machine, work: Work, args: Seq<ValueId>, from: int)
    ensures
        extends(work, machine.pass_args(work, args, from)),
    decreases args.len() - from,
{
    reveal(Listing::are_spaced);
    if 0 <= from < args.len() && from < ARG_COUNT {
        let next = machine.read(work, (ARGS + 2 * from) as u8, args[from]);
        reading_extends(machine, work, (ARGS + 2 * from) as u8, args[from]);
        passing_extends(machine, next, args, from + 1);
        extending_chains(work, next, machine.pass_args(work, args, from));
    }
}

pub(super) proof fn a_call_grows(listing: Listing, label: Label)
    ensures
        grows(listing, listing.jsr(label)),
{
    reveal(Listing::are_spaced);
    let opened = listing.emit(seq![0x20u8]);
    let after = listing.jsr(label);
    assert(after.bytes.len() == listing.bytes.len() + 3);
    assert(after.holes == opened.holes.push((opened.bytes.len(), label)));
}

proof fn a_call_extends(
    machine: Machine,
    work: Work,
    function: FunctionId,
    args: Seq<ValueId>,
    results: Seq<ValueId>,
)
    ensures
        extends(work, machine.call(work, function, args, results)),
{
    let passed = machine.pass_args(work, args, 0);
    let called = Work { code: passed.code.jsr(Label(function.0 as usize)), ..passed };
    passing_extends(machine, work, args, 0);
    a_call_grows(passed.code, Label(function.0 as usize));
    extending_chains(work, passed, called);
    if results.len() > 0 {
        keeping_extends(called, results[0], R0);
        extending_chains(work, called, called.write_slot(results[0], R0));
    }
}

pub(super) proof fn moving_reads(machine: Machine, work: Work, sources: Seq<ValueId>, from: int)
    ensures
        extends(work, machine.read_moved(work, sources, from)),
        is_straight(work.code, machine.read_moved(work, sources, from).code),
    decreases sources.len() - from,
{
    reveal(Listing::are_spaced);
    if 0 <= from < sources.len() {
        let pair = if from == 0 {
            T0
        } else {
            T1
        };
        let next = machine.read(work, pair, sources[from]);
        reading_grows(machine, work, pair, sources[from]);
        moving_reads(machine, next, sources, from + 1);
        extending_chains(work, next, machine.read_moved(work, sources, from));
    }
}

pub(super) proof fn moving_writes(machine: Machine, work: Work, values: Seq<ValueId>, from: int)
    ensures
        extends(work, machine.write_moved(work, values, from)),
        is_straight(work.code, machine.write_moved(work, values, from).code),
    decreases values.len() - from,
{
    reveal(Listing::are_spaced);
    if 0 <= from < values.len() {
        let pair = if from == 0 {
            T0
        } else {
            T1
        };
        let next = work.write_slot(values[from], pair);
        keeping_grows(work, values[from], pair);
        moving_writes(machine, next, values, from + 1);
        extending_chains(work, next, machine.write_moved(work, values, from));
    }
}

pub(super) proof fn a_transfer_extends(
    machine: Machine,
    work: Work,
    sources: Seq<ValueId>,
    destinations: Seq<ValueId>,
)
    ensures
        extends(work, machine.transfer(work, sources, destinations)),
        is_straight(work.code, machine.transfer(work, sources, destinations).code),
{
    reveal(Listing::are_spaced);
    let mid = machine.read_moved(work, sources, 0);
    moving_reads(machine, work, sources, 0);
    moving_writes(machine, mid, destinations, 0);
    extending_chains(work, mid, machine.write_moved(mid, destinations, 0));
}

proof fn a_mask_grows(listing: Listing, bits: u16)
    ensures
        grows(listing, listing.mask(bits)),
        is_straight(listing, listing.mask(bits)),
        listing.mask(bits).labels == listing.labels,
{
    plain_grows(listing, listing.mask(bits));
}

proof fn arithmetic_grows(listing: Listing, op: Binary, narrow: bool)
    ensures
        grows(listing, listing.arithmetic(op, narrow)),
        is_straight(listing, listing.arithmetic(op, narrow)),
        listing.arithmetic(op, narrow).labels == listing.labels,
{
    plain_grows(listing, listing.arithmetic(op, narrow));
}

pub(super) proof fn a_frame_grows(listing: Listing, frame: u8)
    ensures
        grows(listing, listing.open_frame(frame)),
        is_straight(listing, listing.open_frame(frame)),
        grows(listing, listing.close_frame(frame)),
        is_straight(listing, listing.close_frame(frame)),
{
    plain_grows(listing, listing.open_frame(frame));
    plain_grows(listing, listing.close_frame(frame));
}

proof fn a_push_grows(listing: Listing, pair: u8)
    ensures
        grows(listing, listing.push_pair(pair)),
{
    plain_grows(listing, listing.push_pair(pair));
}

proof fn a_drop_grows(listing: Listing, count: u8)
    ensures
        grows(listing, listing.drop_pushed(count)),
{
    plain_grows(listing, listing.drop_pushed(count));
}

proof fn a_load_extends(
    machine: Machine,
    work: Work,
    width: Width,
    address: ValueId,
    offset: Offset,
    result: ValueId,
)
    ensures
        extends(work, machine.load_at(work, width, address, offset, result)),
{
    let held = machine.read(work, PTR, address);
    reading_extends(machine, work, PTR, address);
    if lower::indexable(offset) {
        let code = held.code.ldy_imm(lower::distance(offset) as u8).lda_ind_y(PTR).sta_zp(T0);
        let upper = match width {
            Width::Byte => code.lda_imm(0),
            Width::Word => code.iny().lda_ind_y(PTR),
        };
        let loaded = Work { code: upper.sta_zp(T0_HIGH), ..held };
        plain_grows(held.code, loaded.code);
        extending_chains(work, held, loaded);
        keeping_extends(loaded, result, T0);
        extending_chains(work, loaded, loaded.write_slot(result, T0));
    } else {
        plain_grows(held.code, held.fail().code);
        extending_chains(work, held, held.fail());
    }
}

proof fn a_store_extends(
    machine: Machine,
    work: Work,
    width: Width,
    address: ValueId,
    offset: Offset,
    value: ValueId,
)
    ensures
        extends(work, machine.store_at(work, width, address, offset, value)),
{
    let half = machine.read(work, T0, value);
    let held = machine.read(half, PTR, address);
    let end = machine.store_at(work, width, address, offset, value);
    reading_extends(machine, work, T0, value);
    reading_extends(machine, half, PTR, address);
    extending_chains(work, half, held);
    plain_grows(held.code, end.code);
    extending_chains(work, held, end);
}

proof fn writing_out_extends(machine: Machine, work: Work, args: Seq<ValueId>)
    ensures
        extends(work, machine.write(work, args)),
{
    if args.len() < 2 {
        plain_grows(work.code, work.fail().code);
    } else {
        let set = work.code.set_pair(T1, 1);
        let described = Work { code: set.push_pair(T1), ..work };
        let buffer = machine.read(described, T1, args[0]);
        let pushed = Work { code: buffer.code.push_pair(T1), ..buffer };
        let counted = machine.read(pushed, T0, args[1]);
        let called = counted.code.ldx_zp(T0_HIGH).lda_zp(T0).jsr_abs(HOOK_WRITE);
        let end = machine.write(work, args);
        setting_grows(work.code, T1, 1);
        a_push_grows(set, T1);
        growth_chains(work.code, set, described.code);
        reading_extends(machine, described, T1, args[0]);
        extending_chains(work, described, buffer);
        a_push_grows(buffer.code, T1);
        extending_chains(work, buffer, pushed);
        reading_extends(machine, pushed, T0, args[1]);
        extending_chains(work, pushed, counted);
        plain_grows(counted.code, called);
        a_drop_grows(called, 4);
        growth_chains(counted.code, called, end.code);
        extending_chains(work, counted, end);
    }
}

pub(super) proof fn exiting_extends(machine: Machine, work: Work, args: Seq<ValueId>)
    ensures
        extends(work, machine.exit(work, args)),
{
    if args.len() < 1 {
        plain_grows(work.code, work.fail().code);
    } else {
        let held = machine.read(work, T0, args[0]);
        let end = machine.exit(work, args);
        reading_extends(machine, work, T0, args[0]);
        plain_grows(held.code, end.code);
        extending_chains(work, held, end);
    }
}

proof fn growing_extends(
    machine: Machine,
    work: Work,
    args: Seq<ValueId>,
    results: Seq<ValueId>,
)
    ensures
        extends(work, machine.grow(work, args, results)),
{
    if args.len() < 1 || results.len() < 1 {
        plain_grows(work.code, work.fail().code);
    } else {
        let held = machine.read(work, T0, args[0]);
        let upper = (HEAP + 1) as u8;
        let kept = held.code.lda_zp(HEAP).sta_zp(T1).lda_zp(upper).sta_zp(T1_HIGH);
        let code = kept.clc().lda_zp(HEAP).adc_zp(T0).sta_zp(HEAP).lda_zp(upper).adc_zp(
            T0_HIGH,
        ).sta_zp(upper);
        let moved = Work { code, ..held };
        reading_extends(machine, work, T0, args[0]);
        plain_grows(held.code, kept);
        plain_grows(kept, code);
        growth_chains(held.code, kept, code);
        extending_chains(work, held, moved);
        keeping_extends(moved, results[0], T1);
        extending_chains(work, moved, moved.write_slot(results[0], T1));
    }
}

proof fn a_comparison_grows(listing: Listing, relation: Relation)
    ensures
        grows(listing, listing.comparison(relation)),
        listing.comparison(relation).labels.len() <= usize::MAX ==> forall|l: int|
            0 <= l < listing.labels.len() ==> #[trigger] listing.comparison(relation).labels[l]
                == listing.labels[l],
{
    let yes = listing.next();
    let over = listing.label().next();
    let no = listing.label().label().next();
    let mid = decided(listing, relation);
    let end = listing.comparison(relation);
    let n = listing.labels.len();
    assert(end == told(mid, yes, over, no));
    a_decision_grows(listing, relation);
    assert(yes.0 < mid.labels.len() && over.0 < mid.labels.len() && no.0 < mid.labels.len());
    let one = mid.bind(no);
    let two = told_no(mid, no);
    let three = two.jmp(over);
    let four = told_yes(mid, yes, over, no);
    let five = four.set_pair(T0, 1);
    binding_grows(mid, no);
    setting_grows(one, T0, 0);
    a_jump_grows(two, over);
    binding_grows(three, yes);
    setting_grows(four, T0, 1);
    binding_grows(five, over);
    growth_chains(mid, one, two);
    growth_chains(mid, two, three);
    growth_chains(mid, three, four);
    growth_chains(mid, four, five);
    growth_chains(mid, five, end);
    growth_chains(listing, mid, end);
    assert(mid.labels == listing.label().label().label().labels);
}

/// An instruction that holds no regions.
pub(super) proof fn a_simple_one_goes_further(
    machine: Machine,
    work: Work,
    op: Op,
    results: Seq<ValueId>,
)
    ensures
        goes_further(work, machine.simple(work, op, results)),
{
    let end = machine.simple(work, op, results);
    match op {
        Op::Binary { op: how, left, right } => {
            let half = machine.read(work, T0, left);
            let held = machine.pair(work, left, right);
            let bits = lower::width(machine.program.class(results[0]));
            let made = held.code.arithmetic(how, bits <= 8);
            let last = Work { code: made.mask(bits), ..held };
            reading_extends(machine, work, T0, left);
            reading_extends(machine, half, T1, right);
            extending_chains(work, half, held);
            arithmetic_grows(held.code, how, bits <= 8);
            a_mask_grows(made, bits);
            growth_chains(held.code, made, last.code);
            extending_chains(work, held, last);
            keeping_extends(last, results[0], T0);
            extending_chains(work, last, end);
        },
        Op::Compare { relation, left, right } => {
            let half = machine.read(work, T0, left);
            let held = machine.pair(work, left, right);
            let told = Work { code: held.code.comparison(relation), ..held };
            reading_extends(machine, work, T0, left);
            reading_extends(machine, half, T1, right);
            extending_chains(work, half, held);
            a_comparison_grows(held.code, relation);
            going_further_chains(work, held, told);
            keeping_extends(told, results[0], T0);
            going_further_chains(work, told, end);
        },
        Op::Load { width, address, offset } => {
            a_load_extends(machine, work, width, address, offset, results[0]);
        },
        Op::Store { width, address, offset, value } => {
            a_store_extends(machine, work, width, address, offset, value);
        },
        Op::Convert { class, value } => {
            let held = machine.read(work, T0, value);
            let own = lower::width(machine.program.class(value));
            let bits = if lower::width(class) < own {
                lower::width(class)
            } else {
                own
            };
            let cleared = if bits <= 8 {
                held.code.lda_imm(0).sta_zp(T0_HIGH)
            } else {
                held.code
            };
            let last = Work { code: cleared.mask(bits), ..held };
            reading_extends(machine, work, T0, value);
            plain_grows(held.code, cleared);
            a_mask_grows(cleared, bits);
            growth_chains(held.code, cleared, last.code);
            extending_chains(work, held, last);
            keeping_extends(last, results[0], T0);
            extending_chains(work, last, end);
        },
        Op::PlatformCall { platform, args } => {
            let values = machine.program.values(args);
            writing_out_extends(machine, work, values);
            exiting_extends(machine, work, values);
            growing_extends(machine, work, values, results);
            plain_grows(work.code, work.fail().code);
        },
        Op::Call { function, args } => {
            a_call_extends(machine, work, function, machine.program.values(args), results);
        },
        _ => {
            plain_grows(work.code, work.code);
        },
    }
}

pub(super) proof fn a_handing_over_extends(
    machine: Machine,
    work: Work,
    values: Seq<ValueId>,
    destinations: Seq<ValueId>,
    label: Label,
)
    ensures
        ({
            let moved = machine.transfer(work, values, destinations);
            extends(work, (Work { code: moved.code.jmp(label), ..moved }))
        }),
{
    let moved = machine.transfer(work, values, destinations);
    a_transfer_extends(machine, work, values, destinations);
    a_jump_grows(moved.code, label);
    extending_chains(work, moved, Work { code: moved.code.jmp(label), ..moved });
}

pub(super) proof fn an_end_extends(machine: Machine, work: Work, around: Around, end: Terminator)
    ensures
        extends(work, machine.terminator(work, around, end)),
{
    let values = machine.program.values(end.values);
    plain_grows(work.code, work.fail().code);
    match end.exit {
        Exit::Yield => {
            if let Some((results, after)) = around.branch {
                a_handing_over_extends(
                    machine,
                    work,
                    values,
                    machine.program.values(results),
                    after,
                );
            }
        },
        Exit::Continue => {
            if let Some((params, head, _, _)) = around.repeat {
                a_handing_over_extends(
                    machine,
                    work,
                    values,
                    machine.program.values(params),
                    head,
                );
            }
        },
        Exit::Break => {
            if let Some((_, _, results, after)) = around.repeat {
                a_handing_over_extends(
                    machine,
                    work,
                    values,
                    machine.program.values(results),
                    after,
                );
            }
        },
        Exit::Return => {
            let held = if values.len() > 0 {
                machine.read(work, R0, values[0])
            } else {
                work
            };
            let closed = if held.frame > 0 {
                held.code.close_frame(held.frame)
            } else {
                held.code
            };
            let last = Work { code: closed.rts(), ..held };
            plain_grows(work.code, work.code);
            if values.len() > 0 {
                reading_extends(machine, work, R0, values[0]);
            }
            plain_grows(held.code, held.code);
            a_frame_grows(held.code, held.frame);
            plain_grows(closed, closed.rts());
            growth_chains(held.code, closed, last.code);
            extending_chains(work, held, last);
        },
        Exit::Unreachable => {
            plain_grows(work.code, work.code.rts());
        },
    }
}

/// One instruction of a region, with the regions inside it.
pub open spec fn op_work(machine: Machine, work: Work, around: Around, region: RegionId, at: int)
    -> Work {
    let results = machine.program.region_results(region)[at];
    match machine.program.region_ops(region)[at] {
        Op::If { condition, then_region, else_region } => if machine.program.nests(
            region,
            then_region,
        ) && machine.program.nests(region, else_region) {
            let within = inside_if(work, around, results);
            let then = machine.region(asked(machine, work, condition), within, then_region, 0);
            let both = machine.region(turned(work, then), within, else_region, 0);
            Work { code: both.code.bind(work.code.label().next()), ..both }
        } else {
            work.fail()
        },
        Op::Loop { initial, body } => if machine.program.nests(region, body) {
            let inside = machine.region(
                entered(machine, work, initial, body),
                inside_loop(machine, work, around, results, body),
                body,
                0,
            );
            Work { code: inside.code.bind(work.code.label().next()), ..inside }
        } else {
            work.fail()
        },
        op => machine.simple(work, op, machine.program.values(results)),
    }
}

/// What the arms of a choice stand in.
pub open spec fn inside_if(work: Work, around: Around, results: Range) -> Around {
    Around { branch: Some((results, work.code.label().next())), ..around }
}

/// With two labels more.
pub open spec fn labelled(work: Work) -> Work {
    Work { code: work.code.label().label(), ..work }
}

/// A choice, up to where its first arm begins.
pub open spec fn asked(machine: Machine, work: Work, condition: ValueId) -> Work {
    let held = machine.read(labelled(work), T0, condition);
    Work {
        code: held.code.lda_zp(T0).ora_zp(T0_HIGH).branch(Cc::Equal, work.code.next()),
        ..held
    }
}

/// And where its other arm does.
pub open spec fn turned(work: Work, then: Work) -> Work {
    Work { code: then.code.bind(work.code.next()), ..then }
}

/// What the body of a loop stands in.
pub open spec fn inside_loop(
    machine: Machine,
    work: Work,
    around: Around,
    results: Range,
    body: RegionId,
) -> Around {
    Around {
        repeat: Some(
            (
                machine.program.region(body).params,
                work.code.next(),
                results,
                work.code.label().next(),
            ),
        ),
        ..around
    }
}

/// A loop, up to where its body begins.
pub open spec fn entered(machine: Machine, work: Work, initial: Range, body: RegionId) -> Work {
    let moved = machine.transfer(
        labelled(work),
        machine.program.values(initial),
        machine.program.values(machine.program.region(body).params),
    );
    Work { code: moved.code.bind(work.code.next()), ..moved }
}

/// A label that was made lately lands here.
pub(super) proof fn binding_goes_further(start: Work, work: Work, label: Label, index: nat)
    requires
        goes_further(start, work),
        start.code.labels.len() <= index < work.code.labels.len(),
        label.0 == index as usize,
    ensures
        ({
            let after = Work { code: work.code.bind(label), ..work };
            &&& goes_further(start, after)
            &&& grows(work.code, after.code)
            &&& after.code.labels.len() == work.code.labels.len()
            &&& work.code.labels.len() <= usize::MAX ==> label.0 == index
                && after.code.labels[index as int] == Some(work.code.bytes.len())
        }),
{
    assert(label.0 < work.code.labels.len()) by {
        if index <= usize::MAX {
            assert(index as usize == index);
        }
    }
    let after = Work { code: work.code.bind(label), ..work };
    binding_grows(work.code, label);
    growth_chains(start.code, work.code, after.code);
    if after.code.labels.len() <= usize::MAX {
        assert(label.0 == index);
        assert forall|l: int| 0 <= l < start.code.labels.len() implies
            #[trigger] after.code.labels[l] == start.code.labels[l] by {
            assert(work.code.labels[l] == start.code.labels[l]);
        }
    }
}

pub(super) proof fn labels_go_further(work: Work)
    ensures
        goes_further(work, labelled(work)),
        grows(work.code, labelled(work).code),
        labelled(work).code.labels.len() == work.code.labels.len() + 2,
{
    reveal(Listing::are_spaced);
}

pub(super) proof fn asking_grows(machine: Machine, work: Work, condition: ValueId)
    ensures
        goes_further(work, asked(machine, work, condition)),
        grows(labelled(work).code, asked(machine, work, condition).code),
        asked(machine, work, condition).code.labels.len() == work.code.labels.len() + 2,
{
    let start = labelled(work);
    let held = machine.read(start, T0, condition);
    let tested = held.code.lda_zp(T0).ora_zp(T0_HIGH);
    let end = asked(machine, work, condition);
    labels_go_further(work);
    reading_extends(machine, start, T0, condition);
    plain_grows(held.code, tested);
    a_branch_grows(tested, Cc::Equal, work.code.next());
    growth_chains(held.code, tested, end.code);
    growth_chains(start.code, held.code, end.code);
    going_further_chains(work, start, end);
}

pub(super) proof fn entering_grows(
    machine: Machine,
    work: Work,
    initial: Range,
    body: RegionId,
)
    ensures
        goes_further(work, entered(machine, work, initial, body)),
        entered(machine, work, initial, body).code.labels.len() == work.code.labels.len() + 2,
        work.code.labels.len() + 2 <= usize::MAX ==> entered(
            machine,
            work,
            initial,
            body,
        ).code.labels[work.code.labels.len() as int] == Some(
            entered(machine, work, initial, body).code.bytes.len(),
        ),
{
    let start = labelled(work);
    let sources = machine.program.values(initial);
    let params = machine.program.values(machine.program.region(body).params);
    let moved = machine.transfer(start, sources, params);
    labels_go_further(work);
    a_transfer_extends(machine, start, sources, params);
    going_further_chains(work, start, moved);
    binding_goes_further(work, moved, work.code.next(), work.code.labels.len());
}

/// An instruction is written after what is there.
pub(super) proof fn an_op_grows(
    machine: Machine,
    work: Work,
    around: Around,
    region: RegionId,
    at: int,
)
    ensures
        goes_further(work, op_work(machine, work, around, region, at)),
    decreases machine.program.rank(region), 0nat, 0int,
{
    let run = machine.program.region_results(region)[at];
    let n = work.code.labels.len();
    match machine.program.region_ops(region)[at] {
        Op::If { condition, then_region, else_region } => {
            if machine.program.nests(region, then_region) && machine.program.nests(
                region,
                else_region,
            ) {
                let within = inside_if(work, around, run);
                let tested = asked(machine, work, condition);
                let then = machine.region(tested, within, then_region, 0);
                let turn = turned(work, then);
                let other = machine.region(turn, within, else_region, 0);
                asking_grows(machine, work, condition);
                a_region_grows(machine, tested, within, then_region, 0);
                going_further_chains(work, tested, then);
                binding_goes_further(work, then, work.code.next(), n);
                a_region_grows(machine, turn, within, else_region, 0);
                going_further_chains(work, turn, other);
                binding_goes_further(work, other, work.code.label().next(), n + 1);
            } else {
                plain_grows(work.code, work.fail().code);
            }
        },
        Op::Loop { initial, body } => {
            if machine.program.nests(region, body) {
                let within = inside_loop(machine, work, around, run, body);
                let start = entered(machine, work, initial, body);
                let inside = machine.region(start, within, body, 0);
                entering_grows(machine, work, initial, body);
                a_region_grows(machine, start, within, body, 0);
                going_further_chains(work, start, inside);
                binding_goes_further(work, inside, work.code.label().next(), n + 1);
            } else {
                plain_grows(work.code, work.fail().code);
            }
        },
        op => {
            a_simple_one_goes_further(machine, work, op, machine.program.values(run));
        },
    }
}

/// A region is written after what is there.
pub(super) proof fn a_region_grows(
    machine: Machine,
    work: Work,
    around: Around,
    region: RegionId,
    from: int,
)
    ensures
        goes_further(work, machine.region(work, around, region, from)),
    decreases machine.program.rank(region), 1nat, machine.program.region_ops(region).len() - from,
{
    let end = machine.region(work, around, region, from);
    if from < 0 || from >= machine.program.region_ops(region).len() {
        an_end_extends(machine, work, around, machine.program.region(region).terminator);
    } else {
        let next = op_work(machine, work, around, region, from);
        an_op_grows(machine, work, around, region, from);
        assert(end == machine.region(next, around, region, from + 1));
        a_region_grows(machine, next, around, region, from + 1);
        going_further_chains(work, next, end);
    }
}

/// Straight code that comes to something leads on, in the end.
pub(super) proof fn running_code_reaches(
    before: Listing,
    after: Listing,
    done: Listing,
    whole: Seq<u8>,
    from: State,
    to: State,
)
    requires
        is_loaded(done, whole),
        is_within(before),
        grows(before, after),
        grows(after, done),
        is_straight(before, after),
        machine::runs(machine::added(before, after), from) == Some(to),
    ensures
        reaches(whole, done.origin as int, end_of(before), from, end_of(after), to),
        to.limit == from.limit,
        to.top == from.top,
{
    let at = before.bytes.len() as int;
    let code = machine::added(before, after);
    assert(whole.subrange(at, at + code.len() as int) =~= code) by {
        assert forall|i: int| 0 <= i < code.len() implies whole[at + i] == code[i] by {
            between_there_are_no_holes(before, after, done, at + i);
        }
    }
    machine::running_stays(code, from);
    what_runs_reaches(whole, done.origin as int, at, code, from, to);
}

/// Bytes that are a call are one.
proof fn a_call_steps(code: Seq<u8>, origin: int, at: int, state: State)
    requires
        0 <= at,
        at + 2 < code.len(),
        code[at] == 0x20,
        address_at(code, at + 1) < HOOK_WRITE,
        state.top >= 2,
    ensures
        step(code, origin, at, state) == Some(
            (address_at(code, at + 1) - origin, state.push(origin + at + 2)),
        ),
{
    assert(state.acts(code[at]) is None);
    assert(condition(code[at]) is None);
}

/// A call leads to its label, with where to come back to on the stack.
#[verifier::rlimit(40)]
#[verifier::spinoff_prover]
pub(super) proof fn a_call_reaches(
    before: Listing,
    label: Label,
    done: Listing,
    whole: Seq<u8>,
    state: State,
)
    requires
        is_loaded(done, whole),
        is_within(before),
        grows(before.jsr(label), done),
        state.top >= 2,
    ensures
        reaches(
            whole,
            done.origin as int,
            end_of(before),
            state,
            place_of(done, label),
            state.push(done.origin + end_of(before) + 2),
        ),
        step(whole, done.origin as int, end_of(before), state) == Some(
            (place_of(done, label), state.push(done.origin + end_of(before) + 2)),
        ),
        whole[end_of(before)] == 0x20,
        0 <= end_of(before) < whole.len(),
        done.origin + end_of(before) + 3 <= 0xFFFF,
        end_of(before.jsr(label)) == end_of(before) + 3,
{
    let after = before.jsr(label);
    let at = before.bytes.len() as int;
    let which = before.holes.len() as int;
    a_call_grows(before, label);
    assert(after.holes[which] == ((at + 1) as nat, label));
    assert(done.holes[which] == ((at + 1) as nat, label));
    assert(done.lands(done.holes[which].1));
    between_there_are_no_holes(before, after, done, at);
    assert(whole[at] == 0x20);
    assert(done.labels[label.0 as int] is Some);
    an_address_reads_back(done.target(label)->0);
    assert(address_at(whole, at + 1) == done.target(label)->0);
    a_call_steps(whole, done.origin as int, at, state);
    a_step_reaches(
        whole,
        done.origin as int,
        at,
        state,
        place_of(done, label),
        state.push(done.origin + at + 2),
    );
}

/// What is pushed comes back.
pub(super) proof fn what_is_pushed_comes_back(state: State, address: int)
    requires
        state.memory.len() == machine::size(),
        state.top >= 2,
        0 <= address <= 0xFFFF,
    ensures
        state.push(address).popped() == address,
        state.push(address).memory.len() == machine::size(),
        state.push(address).top == state.top - 2,
        forall|i: int|
            0 <= i < machine::size() && !(0xFF + state.top <= i <= 0x100 + state.top)
                ==> #[trigger] state.push(address).memory[i] == state.memory[i],
{
    assert((address / 256 % 256) * 256 + address % 256 == address);
}

/// Leaving leads back to where the top of the stack says.
pub(super) proof fn leaving_reaches(
    before: Listing,
    done: Listing,
    whole: Seq<u8>,
    state: State,
)
    requires
        is_loaded(done, whole),
        is_within(before),
        grows(before.rts(), done),
        state.top <= 0xFD,
    ensures
        reaches(
            whole,
            done.origin as int,
            end_of(before),
            state,
            state.popped() + 1 - done.origin,
            (State { top: (state.top + 2) as u8, ..state }),
        ),
{
    let at = before.bytes.len() as int;
    plain_grows(before, before.rts());
    between_there_are_no_holes(before, before.rts(), done, at);
    assert(whole[at] == 0x60);
    assert(state.acts(whole[at]) is None);
    a_step_reaches(
        whole,
        done.origin as int,
        at,
        state,
        state.popped() + 1 - done.origin,
        State { top: (state.top + 2) as u8, ..state },
    );
}

/// Going to the host to stop is stopping.
pub(super) proof fn a_stop_stands(before: Listing, done: Listing, whole: Seq<u8>, state: State)
    requires
        is_loaded(done, whole),
        is_within(before),
        grows(before.jmp_abs(HOOK_EXIT), done),
    ensures
        is_stop(whole, end_of(before), state, state.a),
{
    let after = before.jmp_abs(HOOK_EXIT);
    let at = before.bytes.len() as int;
    plain_grows(before, after);
    between_there_are_no_holes(before, after, done, at);
    between_there_are_no_holes(before, after, done, at + 1);
    between_there_are_no_holes(before, after, done, at + 2);
    an_address_reads_back(HOOK_EXIT as nat);
}

/// A frame opens by so many bytes.
pub(super) proof fn a_frame_opens(listing: Listing, frame: u8, state: State) -> (after: State)
    requires
        state.memory.len() == machine::size(),
        frame <= machine::frame(state.memory),
    ensures
        machine::leads(listing, listing.open_frame(frame), state, after),
        machine::frame(after.memory) == machine::frame(state.memory) - frame,
        after.memory.len() == machine::size(),
        forall|i: int|
            0 <= i < machine::size() && i != FP && i != FP + 1 ==> #[trigger] after.memory[i]
                == state.memory[i],
{
    let upper = (FP + 1) as u8;
    let (low, high) = (state.memory[FP as int], state.memory[FP + 1]);
    machine::a_borrow_joins_bytes(low as int, high as int, frame as int, 0);
    machine::nothing_leads_nowhere(listing, state);
    let a = listing.lda_zp(FP);
    machine::two_bytes_more(listing, listing, state, state, 0xA5, FP);
    let one = state.read(low);
    let b = a.sec();
    machine::one_byte_more(listing, a, state, one, 0x38);
    let two = State { carry: true, ..one };
    let c = b.sbc_imm(frame);
    machine::two_bytes_more(listing, b, state, two, 0xE9, frame);
    let three = two.difference(frame);
    let d = c.sta_zp(FP);
    machine::two_bytes_more(listing, c, state, three, 0x85, FP);
    let four = three.write(FP as int, three.a);
    assert(four.memory[upper as int] == high);
    let e = d.lda_zp(upper);
    machine::two_bytes_more(listing, d, state, four, 0xA5, upper);
    let five = four.read(high);
    let f = e.sbc_imm(0);
    machine::two_bytes_more(listing, e, state, five, 0xE9, 0);
    let six = five.difference(0);
    machine::two_bytes_more(listing, f, state, six, 0x85, upper);
    let after = six.write(upper as int, six.a);
    let whole = (low + 256 * high) - frame;
    assert(whole % 0x1_0000 == whole);
    after
}

/// And closes again.
pub(super) proof fn a_frame_closes(listing: Listing, frame: u8, state: State) -> (after: State)
    requires
        state.memory.len() == machine::size(),
        machine::frame(state.memory) + frame < machine::size(),
    ensures
        machine::leads(listing, listing.close_frame(frame), state, after),
        machine::frame(after.memory) == machine::frame(state.memory) + frame,
        after.memory.len() == machine::size(),
        forall|i: int|
            0 <= i < machine::size() && i != FP && i != FP + 1 ==> #[trigger] after.memory[i]
                == state.memory[i],
{
    let upper = (FP + 1) as u8;
    let (low, high) = (state.memory[FP as int], state.memory[FP + 1]);
    machine::a_carry_joins_bytes(low as int, high as int, frame as int, 0);
    machine::nothing_leads_nowhere(listing, state);
    let a = listing.lda_zp(FP);
    machine::two_bytes_more(listing, listing, state, state, 0xA5, FP);
    let one = state.read(low);
    let b = a.clc();
    machine::one_byte_more(listing, a, state, one, 0x18);
    let two = State { carry: false, ..one };
    let c = b.adc_imm(frame);
    machine::two_bytes_more(listing, b, state, two, 0x69, frame);
    let three = two.sum(frame);
    let d = c.sta_zp(FP);
    machine::two_bytes_more(listing, c, state, three, 0x85, FP);
    let four = three.write(FP as int, three.a);
    assert(four.memory[upper as int] == high);
    let e = d.lda_zp(upper);
    machine::two_bytes_more(listing, d, state, four, 0xA5, upper);
    let five = four.read(high);
    let f = e.adc_imm(0);
    machine::two_bytes_more(listing, e, state, five, 0x69, 0);
    let six = five.sum(0);
    machine::two_bytes_more(listing, f, state, six, 0x85, upper);
    let after = six.write(upper as int, six.a);
    let whole = (low + 256 * high) + frame;
    assert(whole % 0x1_0000 == whole);
    after
}

/// A word is tested for nothing.
pub(super) proof fn a_test_tells(listing: Listing, state: State) -> (after: State)
    requires
        state.memory.len() == machine::size(),
    ensures
        machine::leads(listing, listing.lda_zp(T0).ora_zp(T0_HIGH), state, after),
        after.memory == state.memory,
        after.zero == (pair_of(state, T0) == 0),
{
    let (low, high) = (state.memory[T0 as int], state.memory[T0_HIGH as int]);
    machine::nothing_leads_nowhere(listing, state);
    machine::two_bytes_more(listing, listing, state, state, 0xA5, T0);
    let one = state.read(low);
    machine::two_bytes_more(listing, listing.lda_zp(T0), state, one, 0x05, T0_HIGH);
    assert((low | high) == 0 <==> low == 0 && high == 0) by (bit_vector);
    one.read(low | high)
}

/// Whether a piece of writing is, in the end, there.
pub open spec fn is_settled(work: Work, end: Work, done: Listing) -> bool {
    &&& is_within(work.code)
    &&& grows(work.code, end.code)
    &&& grows(end.code, done)
    &&& done.labels.len() <= usize::MAX
    &&& labels_settle(work.code, end.code, done)
}

/// What comes first of what is settled is settled, and so is the rest.
pub(super) proof fn settling_splits(work: Work, next: Work, end: Work, done: Listing)
    requires
        is_settled(work, end, done),
        goes_further(work, next),
        goes_further(next, end),
    ensures
        is_settled(work, next, done),
        is_settled(next, end, done),
        end.code.failed || !next.code.failed,
{
    what_grows_stays_within(work.code, next.code);
    growth_chains(next.code, end.code, done);
    assert forall|l: int| work.code.labels.len() <= l < next.code.labels.len() implies
        #[trigger] done.labels[l] == next.code.labels[l] by {
        assert(done.labels[l] == end.code.labels[l]);
        assert(end.code.labels[l] == next.code.labels[l]);
    }
}

/// The arms of a choice are there, and so are its labels.
pub(super) proof fn a_choice_is_laid(
    machine: Machine,
    work: Work,
    around: Around,
    region: RegionId,
    at: int,
    done: Listing,
)
    requires
        machine.program.region_ops(region)[at] is If,
        machine.program.nests(region, machine.program.region_ops(region)[at]->then_region),
        machine.program.nests(region, machine.program.region_ops(region)[at]->else_region),
        is_settled(work, op_work(machine, work, around, region, at), done),
        !op_work(machine, work, around, region, at).code.failed,
    ensures
        ({
            let run = machine.program.region_results(region)[at];
            let condition = machine.program.region_ops(region)[at]->condition;
            let then_region = machine.program.region_ops(region)[at]->then_region;
            let else_region = machine.program.region_ops(region)[at]->else_region;
            let within = inside_if(work, around, run);
            let tested = asked(machine, work, condition);
            let then = machine.region(tested, within, then_region, 0);
            let turn = turned(work, then);
            let other = machine.region(turn, within, else_region, 0);
            &&& goes_further(work, tested)
            &&& goes_further(work, turn)
            &&& grows(tested.code, done)
            &&& is_settled(tested, then, done)
            &&& !then.code.failed
            &&& is_settled(turn, other, done)
            &&& !other.code.failed
            &&& place_of(done, work.code.next()) == end_of(turn.code)
            &&& place_of(done, work.code.label().next()) == end_of(
                op_work(machine, work, around, region, at).code,
            )
        }),
{
    let run = machine.program.region_results(region)[at];
    let condition = machine.program.region_ops(region)[at]->condition;
    let then_region = machine.program.region_ops(region)[at]->then_region;
    let else_region = machine.program.region_ops(region)[at]->else_region;
    let n = work.code.labels.len();
    let within = inside_if(work, around, run);
    let tested = asked(machine, work, condition);
    let then = machine.region(tested, within, then_region, 0);
    let turn = turned(work, then);
    let other = machine.region(turn, within, else_region, 0);
    let next = op_work(machine, work, around, region, at);
    asking_grows(machine, work, condition);
    a_region_grows(machine, tested, within, then_region, 0);
    going_further_chains(work, tested, then);
    binding_goes_further(work, then, work.code.next(), n);
    a_region_grows(machine, turn, within, else_region, 0);
    going_further_chains(work, turn, other);
    binding_goes_further(work, other, work.code.label().next(), n + 1);
    growth_chains(other.code, next.code, done);
    growth_chains(turn.code, other.code, done);
    growth_chains(then.code, turn.code, done);
    growth_chains(tested.code, then.code, done);
    what_grows_stays_within(work.code, tested.code);
    what_grows_stays_within(work.code, turn.code);
    assert forall|l: int|
        n <= l < other.code.labels.len() && l != n + 1 implies #[trigger] done.labels[l]
        == other.code.labels[l] by {
        assert(done.labels[l] == next.code.labels[l]);
    }
    assert forall|l: int|
        n <= l < then.code.labels.len() && l != n + 1 && l != n implies #[trigger] done.labels[l]
        == then.code.labels[l] by {
        assert(done.labels[l] == other.code.labels[l]);
        assert(other.code.labels[l] == turn.code.labels[l]);
    }
    assert(done.labels[n as int] == other.code.labels[n as int]);
    assert(other.code.labels[n as int] == turn.code.labels[n as int]);
    assert(done.labels[n as int + 1] == next.code.labels[n as int + 1]);
}

/// The body of a loop is there, and so are its labels.
pub(super) proof fn a_loop_is_laid(
    machine: Machine,
    work: Work,
    around: Around,
    region: RegionId,
    at: int,
    done: Listing,
)
    requires
        machine.program.region_ops(region)[at] is Loop,
        machine.program.nests(region, machine.program.region_ops(region)[at]->body),
        is_settled(work, op_work(machine, work, around, region, at), done),
        !op_work(machine, work, around, region, at).code.failed,
    ensures
        ({
            let run = machine.program.region_results(region)[at];
            let initial = machine.program.region_ops(region)[at]->initial;
            let body = machine.program.region_ops(region)[at]->body;
            let within = inside_loop(machine, work, around, run, body);
            let start = entered(machine, work, initial, body);
            let inside = machine.region(start, within, body, 0);
            &&& goes_further(work, start)
            &&& grows(start.code, done)
            &&& !start.code.failed
            &&& is_settled(start, inside, done)
            &&& !inside.code.failed
            &&& place_of(done, work.code.next()) == end_of(start.code)
            &&& place_of(done, work.code.label().next()) == end_of(
                op_work(machine, work, around, region, at).code,
            )
        }),
{
    let run = machine.program.region_results(region)[at];
    let initial = machine.program.region_ops(region)[at]->initial;
    let body = machine.program.region_ops(region)[at]->body;
    let n = work.code.labels.len();
    let within = inside_loop(machine, work, around, run, body);
    let start = entered(machine, work, initial, body);
    let inside = machine.region(start, within, body, 0);
    let next = op_work(machine, work, around, region, at);
    entering_grows(machine, work, initial, body);
    a_region_grows(machine, start, within, body, 0);
    going_further_chains(work, start, inside);
    binding_goes_further(work, inside, work.code.label().next(), n + 1);
    growth_chains(inside.code, next.code, done);
    growth_chains(start.code, inside.code, done);
    what_grows_stays_within(work.code, start.code);
    assert forall|l: int|
        n <= l < inside.code.labels.len() && l != n + 1 implies #[trigger] done.labels[l]
        == inside.code.labels[l] by {
        assert(done.labels[l] == next.code.labels[l]);
    }
    assert(done.labels[n as int] == inside.code.labels[n as int]);
    assert(inside.code.labels[n as int] == start.code.labels[n as int]);
    assert(done.labels[n as int + 1] == next.code.labels[n as int + 1]);
}

/// Arithmetic and conversions are written straight.
pub(super) proof fn an_operation_is_straight(
    machine: Machine,
    work: Work,
    op: Op,
    results: Seq<ValueId>,
)
    requires
        op is Binary || op is Convert,
    ensures
        is_straight(work.code, machine.simple(work, op, results).code),
{
    match op {
        Op::Binary { op: how, left, right } => {
            let one = machine.read(work, T0, left);
            let held = machine.read(one, T1, right);
            let bits = lower::width(machine.program.class(results[0]));
            let worked = held.code.arithmetic(how, bits <= 8);
            reading_grows(machine, work, T0, left);
            reading_grows(machine, one, T1, right);
            arithmetic_grows(held.code, how, bits <= 8);
            a_mask_grows(worked, bits);
            keeping_grows(Work { code: worked.mask(bits), ..held }, results[0], T0);
        },
        Op::Convert { class, value } => {
            let held = machine.read(work, T0, value);
            let own = lower::width(machine.program.class(value));
            let bits = if lower::width(class) < own {
                lower::width(class)
            } else {
                own
            };
            let cleared = if bits <= 8 {
                held.code.lda_imm(0).sta_zp(T0_HIGH)
            } else {
                held.code
            };
            reading_grows(machine, work, T0, value);
            a_mask_grows(cleared, bits);
            keeping_grows(Work { code: cleared.mask(bits), ..held }, results[0], T0);
        },
        _ => {},
    }
}

/// Where what an operation reads cannot be read, the operation is not written.
pub(super) proof fn an_operation_fails_where_it_read(
    machine: Machine,
    work: Work,
    op: Op,
    results: Seq<ValueId>,
)
    ensures
        op matches Op::Binary { left, right, .. } ==> machine.read(
            machine.read(work, T0, left),
            T1,
            right,
        ).code.failed ==> machine.simple(work, op, results).code.failed,
        op matches Op::Convert { value, .. } ==> machine.read(work, T0, value).code.failed
            ==> machine.simple(work, op, results).code.failed,
{
    match op {
        Op::Binary { op: how, left, right } => {
            let held = machine.read(machine.read(work, T0, left), T1, right);
            let bits = lower::width(machine.program.class(results[0]));
            let worked = held.code.arithmetic(how, bits <= 8);
            arithmetic_grows(held.code, how, bits <= 8);
            a_mask_grows(worked, bits);
            keeping_grows(Work { code: worked.mask(bits), ..held }, results[0], T0);
        },
        Op::Convert { class, value } => {
            let held = machine.read(work, T0, value);
            let own = lower::width(machine.program.class(value));
            let bits = if lower::width(class) < own {
                lower::width(class)
            } else {
                own
            };
            let cleared = if bits <= 8 {
                held.code.lda_imm(0).sta_zp(T0_HIGH)
            } else {
                held.code
            };
            a_mask_grows(cleared, bits);
            keeping_grows(Work { code: cleared.mask(bits), ..held }, results[0], T0);
        },
        _ => {},
    }
}

} // verus!
