//! What is written does what the program does.
//!
//! Values live in a frame, one slot each, so what the program holds and what
//! the frame holds stay side by side: wherever the program goes on, so does
//! the code, with the same in hand; and however the program leaves a region,
//! the code leaves it that way. Frames and return addresses take room, and a
//! call may find that there is none left.

use super::assembler::{Cc, Label, Listing};
use super::flow;
use super::loader;
use super::lower::{self, Around, Machine, Source, Work};
use super::machine::{self, State};
use super::{
    ARGS, ARG_COUNT, CSP, CSTACK_TOP, FP, FRAMES_TOP, HEAP, HOOK_EXIT, HOOK_WRITE, LOAD, R0, T0,
    T0_HIGH, T1,
};
use crate::barb;
use crate::ir;
use crate::ir::machine::{Held, Host, Left, Step};
use crate::ir::{
    Class, DataId, Exit, FunctionId, Op, Parts, PlatformId, Range, RegionId, Relation, ValueId,
};
use vstd::prelude::*;

verus! {

/// Whether two values that have slots have none of them in common.
pub open spec fn lie_apart(source: Seq<Source>, v: ValueId, w: ValueId) -> bool {
    match (source[v.0 as int], source[w.0 as int]) {
        (Source::Slot(one), Source::Slot(other)) => one + 2 <= other || other + 2 <= one,
        _ => true,
    }
}

/// Whether values have a slot each, within a frame, and share none.
pub open spec fn are_apart(source: Seq<Source>, frame: u8, mine: Set<ValueId>) -> bool {
    &&& forall|v: ValueId|
        #[trigger] mine.contains(v) ==> v.0 < source.len() && (
        source[v.0 as int] matches Source::Slot(offset) ==> offset + 2 <= frame)
    &&& forall|v: ValueId, w: ValueId|
        #[trigger] mine.contains(v) && #[trigger] mine.contains(w) && v != w ==> lie_apart(
            source,
            v,
            w,
        )
}

/// Whether an instruction has what it defines where it belongs.
pub open spec fn op_is_laid(program: Parts, source: Seq<Source>, region: RegionId, at: int) -> bool
    decreases program.rank(region), 0nat, 0int,
{
    let results = program.values(program.region_results(region)[at]);
    match program.region_ops(region)[at] {
        Op::Constant { value, .. } => source[results[0].0 as int] == Source::Const(value),
        Op::AddressOf(data) => source[results[0].0 as int] == Source::Addr(data),
        Op::If { then_region, else_region, .. } => {
            &&& program.nests(region, then_region)
            &&& program.nests(region, else_region)
            &&& is_laid(program, source, then_region, 0)
            &&& is_laid(program, source, else_region, 0)
        },
        Op::Loop { body, .. } => program.nests(region, body) && is_laid(program, source, body, 0),
        _ => true,
    }
}

/// Whether a region's instructions do from `from` on.
pub open spec fn is_laid(program: Parts, source: Seq<Source>, region: RegionId, from: int) -> bool
    decreases program.rank(region), 1nat, program.region_ops(region).len() - from,
{
    if from < 0 || from >= program.region_ops(region).len() {
        true
    } else {
        op_is_laid(program, source, region, from) && is_laid(program, source, region, from + 1)
    }
}

/// A function as it is written: the machine it is for, where its values live,
/// how big its frame is, and how many words it answers.
pub struct Stage {
    pub machine: Machine,
    pub source: Seq<Source>,
    pub frame: u8,
    pub answers: nat,
}

impl Stage {
    /// Whether writing is of this function.
    pub open spec fn works(self, work: Work) -> bool {
        work.source == self.source && work.frame == self.frame
    }

    /// Where a value's slot is, if it has one.
    pub open spec fn slot(self, value: ValueId, state: State) -> int {
        machine::frame(state.memory) + self.source[value.0 as int]->Slot_0
    }
}

/// Where code went: on, at a place; nowhere, the host having been asked to
/// stop; or at a call there was no room left for.
pub enum Came {
    At(int, State),
    Stops(u8),
    Spent,
}

/// Whether there is room for another frame and another return address.
pub open spec fn has_room(state: State) -> bool {
    &&& 2 <= state.top <= 0xFD
    &&& state.limit + 0x100 <= machine::frame(state.memory)
}

/// Whether a call is about to be made that there is no room left for.
pub open spec fn is_spent(code: Seq<u8>, origin: int, at: int, state: State) -> bool {
    &&& 0 <= at < code.len()
    &&& code[at] == 0x20
    &&& flow::step(code, origin, at, state) matches Some((_, after)) && !has_room(after)
}

/// Code that is loaded: what was listed, the bytes of it, and what was written
/// before the first function.
pub struct Loaded {
    pub listing: Listing,
    pub code: Seq<u8>,
    pub start: Work,
}

impl Loaded {
    pub open spec fn is_sound(self) -> bool {
        &&& flow::is_loaded(self.listing, self.code)
        &&& self.listing.origin >= 0x200
    }

    pub open spec fn place_of(self, label: Label) -> int {
        flow::place_of(self.listing, label)
    }

    pub open spec fn is_spent(self, at: int, state: State) -> bool {
        is_spent(self.code, self.listing.origin as int, at, state)
    }

    pub open spec fn reaches(self, at: int, from: State, next: int, to: State) -> bool {
        flow::reaches(self.code, self.listing.origin as int, at, from, next, to)
    }

    /// Whether that is where the code goes.
    pub open spec fn comes(self, at: int, from: State, came: Came) -> bool {
        match came {
            Came::At(next, to) => self.reaches(at, from, next, to),
            Came::Stops(status) => exists|next: int, to: State| #[trigger]
                self.reaches(at, from, next, to) && flow::is_stop(self.code, next, to, status),
            Came::Spent => exists|next: int, to: State| #[trigger]
                self.reaches(at, from, next, to) && self.is_spent(next, to),
        }
    }
}

proof fn coming_chains(loaded: Loaded, at: int, from: State, mid: int, by: State, came: Came)
    requires
        loaded.comes(at, from, Came::At(mid, by)),
        loaded.comes(mid, by, came),
    ensures
        loaded.comes(at, from, came),
{
    let origin = loaded.listing.origin as int;
    match came {
        Came::At(next, to) => {
            flow::reaching_chains(loaded.code, origin, at, from, mid, by, next, to);
        },
        Came::Stops(status) => {
            let (next, to) = choose|next: int, to: State| #[trigger]
                loaded.reaches(mid, by, next, to) && flow::is_stop(loaded.code, next, to, status);
            flow::reaching_chains(loaded.code, origin, at, from, mid, by, next, to);
            assert(loaded.reaches(at, from, next, to));
        },
        Came::Spent => {
            let (next, to) = choose|next: int, to: State| #[trigger]
                loaded.reaches(mid, by, next, to) && loaded.is_spent(next, to);
            flow::reaching_chains(loaded.code, origin, at, from, mid, by, next, to);
            assert(loaded.reaches(at, from, next, to));
        },
    }
}

/// Whether the frame at hand is where frames are.
pub open spec fn is_up(state: State) -> bool {
    &&& machine::stands(state)
    &&& state.limit >= 0x200
    &&& 2 <= state.top <= 0xFD
}

/// Whether a number is what a value comes to, where memory holds what it
/// does. A constant or an address too wide for a word is never read.
pub open spec fn is_right(stage: Stage, value: ValueId, number: nat, state: State) -> bool {
    match stage.source[value.0 as int] {
        Source::Const(word) => word <= 0xFFFF ==> number == word,
        Source::Slot(_) => machine::word(state.memory, stage.slot(value, state)) == number,
        Source::Addr(data) => stage.machine.address(data) <= 0xFFFF ==> number
            == stage.machine.address(data),
    }
}

/// What a program runs on here: its data are in the image, and a run is
/// followed up to whatever it asks for first.
pub open spec fn host(program: Parts) -> Host {
    Host {
        size: machine::size(),
        places: Map::new(
            |data: DataId| data.0 < program.spans.len(),
            |data: DataId| (Machine { program, data: LOAD }).address(data),
        ),
        watch: |platform: PlatformId, numbers: Seq<nat>| true,
    }
}

/// Whether everything a program holds is what it comes to.
pub open spec fn agrees(stage: Stage, held: Held, state: State) -> bool {
    forall|v: ValueId| held.dom().contains(v) ==> #[trigger] is_right(stage, v, held[v], state)
}

/// Whether values come to numbers, one for one.
pub open spec fn all_right(
    stage: Stage,
    values: Seq<ValueId>,
    numbers: Seq<nat>,
    state: State,
) -> bool {
    forall|i: int|
        0 <= i < values.len() ==> #[trigger] is_right(stage, values[i], numbers[i], state)
}

/// Whether the frame, what lies past it, and the return addresses are what
/// they were, but for the slots of some values.
pub open spec fn is_steady(
    stage: Stage,
    mine: Set<ValueId>,
    before: State,
    after: State,
    touched: Set<ValueId>,
) -> bool {
    let frame = machine::frame(before.memory);
    &&& after.top == before.top
    &&& after.limit == before.limit
    &&& after.memory.len() == before.memory.len()
    &&& machine::frame(after.memory) == frame
    &&& forall|v: ValueId|
        #[trigger] mine.contains(v) && !touched.contains(v) && stage.source[v.0 as int] is Slot
            ==> machine::word(after.memory, stage.slot(v, after)) == machine::word(
            before.memory,
            stage.slot(v, before),
        )
    &&& forall|i: int|
        frame + stage.frame <= i < machine::size() ==> #[trigger] after.memory[i]
            == before.memory[i]
    &&& forall|i: int|
        0x101 + before.top <= i < 0x200 ==> #[trigger] after.memory[i] == before.memory[i]
}

proof fn steadiness_chains(
    stage: Stage,
    mine: Set<ValueId>,
    first: State,
    second: State,
    third: State,
    one: Set<ValueId>,
    other: Set<ValueId>,
    both: Set<ValueId>,
)
    requires
        is_steady(stage, mine, first, second, one),
        is_steady(stage, mine, second, third, other),
        one.subset_of(both),
        other.subset_of(both),
    ensures
        is_steady(stage, mine, first, third, both),
{
    let frame = machine::frame(first.memory);
    assert forall|i: int| frame + stage.frame <= i < machine::size() implies
        #[trigger] third.memory[i] == first.memory[i] by {
        assert(second.memory[i] == first.memory[i]);
    }
    assert forall|i: int| 0x101 + first.top <= i < 0x200 implies #[trigger] third.memory[i]
        == first.memory[i] by {
        assert(second.memory[i] == first.memory[i]);
    }
}

/// Only what is in the first page has changed, and not the frame pointer.
pub open spec fn keeps_frames(before: State, after: State) -> bool {
    &&& after.top == before.top
    &&& after.limit == before.limit
    &&& after.memory.len() == before.memory.len()
    &&& after.memory[FP as int] == before.memory[FP as int]
    &&& after.memory[FP + 1] == before.memory[FP + 1]
    &&& forall|i: int|
        0x100 <= i < machine::size() ==> #[trigger] after.memory[i] == before.memory[i]
}

proof fn keeping_is_steady(stage: Stage, mine: Set<ValueId>, before: State, after: State)
    requires
        keeps_frames(before, after),
        is_up(before),
        are_apart(stage.source, stage.frame, mine),
    ensures
        is_steady(stage, mine, before, after, Set::empty()),
        is_up(after),
{
    assert(machine::frame(after.memory) == machine::frame(before.memory));
    assert forall|v: ValueId|
        #[trigger] mine.contains(v) && stage.source[v.0 as int] is Slot implies machine::word(
        after.memory,
        stage.slot(v, after),
    ) == machine::word(before.memory, stage.slot(v, before)) by {
        let at = stage.slot(v, before);
        assert(after.memory[at] == before.memory[at]);
        assert(after.memory[at + 1] == before.memory[at + 1]);
    }
}

proof fn steadiness_is_up(
    stage: Stage,
    mine: Set<ValueId>,
    before: State,
    after: State,
    touched: Set<ValueId>,
)
    requires
        is_up(before),
        is_steady(stage, mine, before, after, touched),
    ensures
        is_up(after),
{
}

/// What is not touched stays right.
proof fn agreement_stays(
    stage: Stage,
    mine: Set<ValueId>,
    held: Held,
    before: State,
    after: State,
    touched: Set<ValueId>,
)
    requires
        agrees(stage, held, before),
        is_steady(stage, mine, before, after, touched),
        held.dom().subset_of(mine),
        held.dom().disjoint(touched),
    ensures
        agrees(stage, held, after),
{
    assert forall|v: ValueId| held.dom().contains(v) implies #[trigger] is_right(
        stage,
        v,
        held[v],
        after,
    ) by {
        assert(is_right(stage, v, held[v], before));
        assert(mine.contains(v) && !touched.contains(v));
    }
}

/// What is defined is right, with what was held already.
proof fn what_is_defined_agrees(
    stage: Stage,
    held: Held,
    values: Seq<ValueId>,
    numbers: Seq<nat>,
    state: State,
)
    requires
        agrees(stage, held, state),
        values.no_duplicates(),
        values.len() == numbers.len(),
        all_right(stage, values, numbers, state),
    ensures
        agrees(stage, ir::machine::defined(held, values, numbers), state),
        forall|v: ValueId|
            #[trigger] ir::machine::defined(held, values, numbers).dom().contains(v)
                ==> held.dom().contains(v) || values.contains(v),
{
    ir::order::what_is_defined(held, values, numbers);
    let after = ir::machine::defined(held, values, numbers);
    assert forall|v: ValueId| after.dom().contains(v) implies #[trigger] is_right(
        stage,
        v,
        after[v],
        state,
    ) by {
        if values.contains(v) {
            let i = values.index_of(v);
            assert(is_right(stage, values[i], numbers[i], state));
        } else {
            assert(is_right(stage, v, held[v], state));
        }
    }
}

/// What is read is what is held.
proof fn what_is_read_is_held(
    stage: Stage,
    work: Work,
    pair: u8,
    value: ValueId,
    held: Held,
    state: State,
)
    requires
        stage.works(work),
        agrees(stage, held, state),
        held.dom().contains(value),
        !stage.machine.read(work, pair, value).code.failed,
    ensures
        stage.machine.word(work, value, state.memory) == held[value],
{
    assert(is_right(stage, value, held[value], state));
}

/// What a list holds is what each of it does.
proof fn a_list_is_held(values: Seq<ValueId>, held: Held, numbers: Seq<nat>)
    requires
        ir::machine::read(held, values) == Some(numbers),
    ensures
        numbers.len() == values.len(),
        forall|i: int|
            0 <= i < values.len() ==> held.dom().contains(#[trigger] values[i])
                && held[values[i]] == numbers[i],
{
}

/// A value of a function has a whole slot.
proof fn slots_are_whole(stage: Stage, work: Work, mine: Set<ValueId>, value: ValueId)
    requires
        stage.works(work),
        are_apart(stage.source, stage.frame, mine),
        mine.contains(value),
    ensures
        machine::is_placed(work, value),
{
}

/// Setting the slots of values touches nothing else of a frame.
proof fn setting_is_steady(
    stage: Stage,
    mine: Set<ValueId>,
    values: Seq<ValueId>,
    before: State,
    after: State,
)
    requires
        is_up(before),
        are_apart(stage.source, stage.frame, mine),
        ir::order::among(values).subset_of(mine),
        forall|i: int|
            0 <= i < values.len() ==> stage.source[(#[trigger] values[i]).0 as int] is Slot,
        after.top == before.top,
        after.limit == before.limit,
        after.memory.len() == before.memory.len(),
        after.memory[FP as int] == before.memory[FP as int],
        after.memory[FP + 1] == before.memory[FP + 1],
        forall|at: int|
            0x100 <= at < machine::size() && (forall|i: int|
                0 <= i < values.len() ==> at != stage.slot(#[trigger] values[i], before) && at
                    != stage.slot(values[i], before) + 1) ==> #[trigger] after.memory[at]
                == before.memory[at],
    ensures
        is_steady(stage, mine, before, after, ir::order::among(values)),
        is_up(after),
{
    let frame = machine::frame(before.memory);
    let given = ir::order::among(values);
    assert(machine::frame(after.memory) == frame);
    assert forall|i: int| 0 <= i < values.len() implies mine.contains(#[trigger] values[i]) by {
        assert(given.contains(values[i]));
    }
    assert forall|v: ValueId|
        #[trigger] mine.contains(v) && !given.contains(v) && stage.source[v.0 as int] is Slot implies
        machine::word(after.memory, stage.slot(v, after)) == machine::word(
        before.memory,
        stage.slot(v, before),
    ) by {
        let at = stage.slot(v, before);
        assert forall|i: int| 0 <= i < values.len() implies at != stage.slot(
            #[trigger] values[i],
            before,
        ) && at != stage.slot(values[i], before) + 1 && at + 1 != stage.slot(values[i], before)
            by {
            assert(mine.contains(values[i]));
            assert(v != values[i]) by {
                assert(values.contains(values[i]));
            }
            assert(lie_apart(stage.source, v, values[i]));
        }
        assert(after.memory[at] == before.memory[at]);
        assert(after.memory[at + 1] == before.memory[at + 1]);
    }
    assert forall|i: int| frame + stage.frame <= i < machine::size() implies
        #[trigger] after.memory[i] == before.memory[i] by {
        assert forall|j: int| 0 <= j < values.len() implies i != stage.slot(
            #[trigger] values[j],
            before,
        ) && i != stage.slot(values[j], before) + 1 by {
            assert(mine.contains(values[j]));
        }
    }
    assert forall|i: int| 0x101 + before.top <= i < 0x200 implies #[trigger] after.memory[i]
        == before.memory[i] by {
        assert forall|j: int| 0 <= j < values.len() implies i != stage.slot(
            #[trigger] values[j],
            before,
        ) && i != stage.slot(values[j], before) + 1 by {
            assert(mine.contains(values[j]));
        }
    }
}

proof fn what_is_written_has_slots(machine: Machine, work: Work, values: Seq<ValueId>, from: int)
    requires
        0 <= from <= values.len(),
        !machine.write_moved(work, values, from).code.failed,
    ensures
        forall|i: int|
            from <= i < values.len() ==> work.source[(#[trigger] values[i]).0 as int] is Slot,
    decreases values.len() - from,
{
    if from < values.len() {
        let pair = if from == 0 {
            T0
        } else {
            T1
        };
        let next = work.write_slot(values[from], pair);
        flow::moving_writes(machine, next, values, from + 1);
        flow::keeping_extends(work, values[from], pair);
        what_is_written_has_slots(machine, next, values, from + 1);
    }
}

proof fn what_is_moved_is_held(
    stage: Stage,
    work: Work,
    sources: Seq<ValueId>,
    from: int,
    held: Held,
    numbers: Seq<nat>,
    state: State,
)
    requires
        0 <= from <= sources.len(),
        stage.works(work),
        agrees(stage, held, state),
        ir::machine::read(held, sources) == Some(numbers),
        !stage.machine.read_moved(work, sources, from).code.failed,
    ensures
        forall|i: int|
            from <= i < sources.len() ==> stage.machine.word(
                work,
                #[trigger] sources[i],
                state.memory,
            ) == numbers[i],
    decreases sources.len() - from,
{
    if from < sources.len() {
        let pair = if from == 0 {
            T0
        } else {
            T1
        };
        let next = stage.machine.read(work, pair, sources[from]);
        flow::reading_extends(stage.machine, work, pair, sources[from]);
        flow::moving_reads(stage.machine, next, sources, from + 1);
        a_list_is_held(sources, held, numbers);
        what_is_read_is_held(stage, work, pair, sources[from], held, state);
        what_is_moved_is_held(stage, next, sources, from + 1, held, numbers, state);
        assert forall|i: int| from <= i < sources.len() implies stage.machine.word(
            work,
            #[trigger] sources[i],
            state.memory,
        ) == numbers[i] by {
            if i > from {
                assert(stage.machine.word(next, sources[i], state.memory) == numbers[i]);
            }
        }
    }
}

/// Values handed over come to what they were handed, and nothing but them is
/// touched.
proof fn a_transfer_hands_over(
    loaded: Loaded,
    stage: Stage,
    mine: Set<ValueId>,
    work: Work,
    sources: Seq<ValueId>,
    destinations: Seq<ValueId>,
    held: Held,
    numbers: Seq<nat>,
    state: State,
) -> (after: State)
    requires
        loaded.is_sound(),
        stage.works(work),
        is_up(state),
        are_apart(stage.source, stage.frame, mine),
        agrees(stage, held, state),
        held.dom().subset_of(mine),
        flow::is_within(work.code),
        ir::machine::read(held, sources) == Some(numbers),
        numbers.len() == destinations.len(),
        destinations.no_duplicates(),
        ir::order::among(destinations).subset_of(mine),
        !stage.machine.transfer(work, sources, destinations).code.failed,
        flow::grows(
            stage.machine.transfer(work, sources, destinations).code,
            loaded.listing,
        ),
    ensures
        loaded.comes(
            flow::end_of(work.code),
            state,
            Came::At(
                flow::end_of(stage.machine.transfer(work, sources, destinations).code),
                after,
            ),
        ),
        is_steady(stage, mine, state, after, ir::order::among(destinations)),
        is_up(after),
        all_right(stage, destinations, numbers, after),
{
    let machine = stage.machine;
    let mid = machine.read_moved(work, sources, 0);
    let end = machine.transfer(work, sources, destinations);
    a_list_is_held(sources, held, numbers);
    flow::moving_reads(machine, work, sources, 0);
    flow::moving_writes(machine, mid, destinations, 0);
    what_is_written_has_slots(machine, mid, destinations, 0);
    what_is_moved_is_held(stage, work, sources, 0, held, numbers, state);
    assert forall|i: int| 0 <= i < destinations.len() implies mine.contains(
        #[trigger] destinations[i],
    ) && machine::is_placed(work, destinations[i]) by {
        assert(ir::order::among(destinations).contains(destinations[i]));
        slots_are_whole(stage, work, mine, destinations[i]);
    }
    assert forall|i: int| 0 <= i < sources.len() implies machine::is_placed(
        work,
        #[trigger] sources[i],
    ) by {
        assert(held.dom().contains(sources[i]));
        assert(mine.contains(sources[i]));
        slots_are_whole(stage, work, mine, sources[i]);
    }
    assert forall|i: int, j: int| 0 <= i < j < destinations.len() implies machine::are_apart(
        work,
        #[trigger] destinations[i],
        #[trigger] destinations[j],
    ) by {
        assert(destinations[i] != destinations[j]);
        assert(mine.contains(destinations[i]) && mine.contains(destinations[j]));
        assert(lie_apart(stage.source, destinations[i], destinations[j]));
    }
    let after = machine::a_transfer_moves_at_once(machine, work, sources, destinations, state);
    flow::a_transfer_extends(machine, work, sources, destinations);
    flow::running_code_reaches(
        work.code,
        end.code,
        loaded.listing,
        loaded.code,
        state,
        after,
    );
    assert forall|i: int| 0 <= i < destinations.len() implies stage.slot(
        #[trigger] destinations[i],
        state,
    ) == machine::slot(work, destinations[i], state.memory) by {}
    assert(after.memory[FP as int] == state.memory[FP as int]);
    assert(after.memory[FP + 1] == state.memory[FP + 1]);
    setting_is_steady(stage, mine, destinations, state, after);
    assert forall|i: int| 0 <= i < destinations.len() implies #[trigger] is_right(
        stage,
        destinations[i],
        numbers[i],
        after,
    ) by {
        assert(machine.word(work, sources[i], state.memory) == numbers[i]);
        assert(stage.slot(destinations[i], after) == machine::slot(
            work,
            destinations[i],
            state.memory,
        ));
    }
    after
}

/// Whether code arrives with values that come to numbers, having touched
/// nothing but those and what it was free to.
pub open spec fn arrives(
    stage: Stage,
    mine: Set<ValueId>,
    touched: Set<ValueId>,
    before: State,
    after: State,
    values: Seq<ValueId>,
    numbers: Seq<nat>,
) -> bool {
    &&& is_steady(stage, mine, before, after, touched.union(ir::order::among(values)))
    &&& all_right(stage, values, numbers, after)
}

/// Whether a function has been left for its caller, with what it answers where
/// the caller looks for it and nothing of the caller's touched.
pub open spec fn goes_back(
    frame: u8,
    origin: int,
    before: State,
    numbers: Seq<nat>,
    next: int,
    after: State,
) -> bool {
    let frame = machine::frame(before.memory) + frame;
    &&& next == before.popped() + 1 - origin
    &&& after.top == before.top + 2
    &&& after.limit == before.limit
    &&& after.memory.len() == before.memory.len()
    &&& machine::frame(after.memory) == frame
    &&& numbers.len() > 0 ==> flow::pair_of(after, R0) == numbers[0]
    &&& forall|i: int| frame <= i < machine::size() ==> #[trigger] after.memory[i]
        == before.memory[i]
    &&& forall|i: int|
        0x101 + before.top <= i < 0x200 ==> #[trigger] after.memory[i] == before.memory[i]
}

/// Whether code gets to a label, with values that come to numbers.
pub open spec fn lands(
    loaded: Loaded,
    stage: Stage,
    mine: Set<ValueId>,
    touched: Set<ValueId>,
    label: Label,
    values: Seq<ValueId>,
    numbers: Seq<nat>,
    at: int,
    state: State,
    came: Came,
) -> bool {
    &&& loaded.comes(at, state, came)
    &&& came matches Came::At(next, after) && next == loaded.place_of(label) && arrives(
        stage,
        mine,
        touched,
        state,
        after,
        values,
        numbers,
    )
}

/// Whether a routine is the one that stops a program.
pub open spec fn is_exit(program: Parts, platform: PlatformId) -> bool {
    program.name(program.routine(platform).name) == "exit"@
}

/// Whether code stops with what a number comes to in a byte.
pub open spec fn stops_with(
    loaded: Loaded,
    number: nat,
    at: int,
    state: State,
    came: Came,
) -> bool {
    &&& loaded.comes(at, state, came)
    &&& came matches Came::Stops(status) && status == number % 256
}

/// Whether code leaves a region as the program does, or there was no room left
/// for a call.
pub open spec fn meets(
    loaded: Loaded,
    stage: Stage,
    mine: Set<ValueId>,
    around: Around,
    touched: Set<ValueId>,
    left: Left,
    at: int,
    state: State,
    came: Came,
) -> bool {
    if came is Spent {
        loaded.comes(at, state, came)
    } else {
        match left {
            Left::Yields(numbers) => around.branch matches Some((run, label)) && {
                let values = stage.machine.program.values(run);
                numbers.len() == values.len() ==> lands(
                    loaded,
                    stage,
                    mine,
                    touched,
                    label,
                    values,
                    numbers,
                    at,
                    state,
                    came,
                )
            },
            Left::Continues(numbers) => around.repeat matches Some((run, label, _, _)) && {
                let values = stage.machine.program.values(run);
                numbers.len() == values.len() ==> lands(
                    loaded,
                    stage,
                    mine,
                    touched,
                    label,
                    values,
                    numbers,
                    at,
                    state,
                    came,
                )
            },
            Left::Breaks(numbers) => around.repeat matches Some((_, _, run, label)) && {
                let values = stage.machine.program.values(run);
                numbers.len() == values.len() ==> lands(
                    loaded,
                    stage,
                    mine,
                    touched,
                    label,
                    values,
                    numbers,
                    at,
                    state,
                    came,
                )
            },
            Left::Answers(numbers) => {
                &&& numbers.len() == stage.answers
                &&& loaded.comes(at, state, came)
                &&& came matches Came::At(next, after) && goes_back(
                    stage.frame,
                    loaded.listing.origin as int,
                    state,
                    numbers,
                    next,
                    after,
                )
            },
            Left::Asks(platform, numbers) => is_exit(stage.machine.program, platform) ==> {
                &&& numbers.len() > 0
                &&& stops_with(loaded, numbers[0], at, state, came)
            },
        }
    }
}

/// What a region touches on its way to an end is touched of what came before.
proof fn ending_chains(
    loaded: Loaded,
    stage: Stage,
    mine: Set<ValueId>,
    around: Around,
    one: Set<ValueId>,
    other: Set<ValueId>,
    both: Set<ValueId>,
    left: Left,
    at: int,
    state: State,
    mid_at: int,
    mid: State,
    came: Came,
)
    requires
        loaded.comes(at, state, Came::At(mid_at, mid)),
        is_steady(stage, mine, state, mid, one),
        is_up(state),
        meets(loaded, stage, mine, around, other, left, mid_at, mid, came),
        one.subset_of(both),
        other.subset_of(both),
    ensures
        meets(loaded, stage, mine, around, both, left, at, state, came),
{
    if came is Spent {
        coming_chains(loaded, at, state, mid_at, mid, came);
    } else {
        match left {
            Left::Yields(numbers) => {
                let values = stage.machine.program.values(around.branch->Some_0.0);
                if numbers.len() == values.len() {
                    landing_chains(
                        loaded,
                        stage,
                        mine,
                        one,
                        other,
                        both,
                        around.branch->Some_0.1,
                        values,
                        numbers,
                        at,
                        state,
                        mid_at,
                        mid,
                        came,
                    );
                }
            },
            Left::Continues(numbers) => {
                let values = stage.machine.program.values(around.repeat->Some_0.0);
                if numbers.len() == values.len() {
                    landing_chains(
                        loaded,
                        stage,
                        mine,
                        one,
                        other,
                        both,
                        around.repeat->Some_0.1,
                        values,
                        numbers,
                        at,
                        state,
                        mid_at,
                        mid,
                        came,
                    );
                }
            },
            Left::Breaks(numbers) => {
                let values = stage.machine.program.values(around.repeat->Some_0.2);
                if numbers.len() == values.len() {
                    landing_chains(
                        loaded,
                        stage,
                        mine,
                        one,
                        other,
                        both,
                        around.repeat->Some_0.3,
                        values,
                        numbers,
                        at,
                        state,
                        mid_at,
                        mid,
                        came,
                    );
                }
            },
            Left::Answers(numbers) => {
                coming_chains(loaded, at, state, mid_at, mid, came);
                let after = came->At_1;
                let low = 0x101 + state.top;
                assert(mid.memory[low] == state.memory[low]);
                assert(mid.memory[low + 1] == state.memory[low + 1]);
                assert(mid.popped() == state.popped());
                let frame = machine::frame(state.memory) + stage.frame;
                assert forall|i: int| frame <= i < machine::size() implies
                    #[trigger] after.memory[i] == state.memory[i] by {
                    assert(mid.memory[i] == state.memory[i]);
                }
                assert forall|i: int| 0x101 + state.top <= i < 0x200 implies
                    #[trigger] after.memory[i] == state.memory[i] by {
                    assert(mid.memory[i] == state.memory[i]);
                }
            },
            Left::Asks(platform, numbers) => {
                if is_exit(stage.machine.program, platform) {
                    coming_chains(loaded, at, state, mid_at, mid, came);
                }
            },
        }
    }
}

proof fn landing_chains(
    loaded: Loaded,
    stage: Stage,
    mine: Set<ValueId>,
    one: Set<ValueId>,
    other: Set<ValueId>,
    both: Set<ValueId>,
    label: Label,
    values: Seq<ValueId>,
    numbers: Seq<nat>,
    at: int,
    state: State,
    mid_at: int,
    mid: State,
    came: Came,
)
    requires
        loaded.comes(at, state, Came::At(mid_at, mid)),
        is_steady(stage, mine, state, mid, one),
        lands(loaded, stage, mine, other, label, values, numbers, mid_at, mid, came),
        one.subset_of(both),
        other.subset_of(both),
    ensures
        lands(loaded, stage, mine, both, label, values, numbers, at, state, came),
{
    coming_chains(loaded, at, state, mid_at, mid, came);
    steadiness_chains(
        stage,
        mine,
        state,
        mid,
        came->At_1,
        one,
        other.union(ir::order::among(values)),
        both.union(ir::order::among(values)),
    );
}

/// What a region stands in is this function's.
pub open spec fn around_fits(stage: Stage, mine: Set<ValueId>, around: Around) -> bool {
    &&& around.branch matches Some((run, _)) ==> {
        &&& stage.machine.program.values(run).no_duplicates()
        &&& ir::order::among(stage.machine.program.values(run)).subset_of(mine)
    }
    &&& around.repeat matches Some((params, _, results, _)) ==> {
        &&& stage.machine.program.values(params).no_duplicates()
        &&& stage.machine.program.values(results).no_duplicates()
        &&& ir::order::among(stage.machine.program.values(params)).subset_of(mine)
        &&& ir::order::among(stage.machine.program.values(results)).subset_of(mine)
    }
}

/// Handing values over and going to a label.
proof fn a_jump_is_met(
    loaded: Loaded,
    stage: Stage,
    mine: Set<ValueId>,
    work: Work,
    values: Seq<ValueId>,
    destinations: Seq<ValueId>,
    label: Label,
    held: Held,
    numbers: Seq<nat>,
    state: State,
) -> (came: Came)
    requires
        loaded.is_sound(),
        stage.works(work),
        is_up(state),
        are_apart(stage.source, stage.frame, mine),
        agrees(stage, held, state),
        held.dom().subset_of(mine),
        flow::is_within(work.code),
        ir::machine::read(held, values) == Some(numbers),
        destinations.no_duplicates(),
        ir::order::among(destinations).subset_of(mine),
        !stage.machine.transfer(work, values, destinations).code.failed,
        flow::grows(
            stage.machine.transfer(work, values, destinations).code.jmp(label),
            loaded.listing,
        ),
    ensures
        !(came is Spent),
        numbers.len() == destinations.len() ==> lands(
            loaded,
            stage,
            mine,
            Set::empty(),
            label,
            destinations,
            numbers,
            flow::end_of(work.code),
            state,
            came,
        ),
{
    let moved = stage.machine.transfer(work, values, destinations);
    if numbers.len() == destinations.len() {
        flow::a_transfer_extends(stage.machine, work, values, destinations);
        flow::a_jump_grows(moved.code, label);
        flow::growth_chains(moved.code, moved.code.jmp(label), loaded.listing);
        flow::what_grows_stays_within(work.code, moved.code);
        let after = a_transfer_hands_over(
            loaded,
            stage,
            mine,
            work,
            values,
            destinations,
            held,
            numbers,
            state,
        );
        flow::a_jump_reaches(moved.code, label, loaded.listing, loaded.code, after);
        let came = Came::At(loaded.place_of(label), after);
        coming_chains(
            loaded,
            flow::end_of(work.code),
            state,
            flow::end_of(moved.code),
            after,
            came,
        );
        assert(Set::<ValueId>::empty().union(ir::order::among(destinations))
            =~= ir::order::among(destinations));
        came
    } else {
        Came::Stops(0)
    }
}

/// The low byte of a word.
proof fn a_word_ends_in_its_low_byte(memory: Seq<u8>, at: int)
    ensures
        machine::word(memory, at) % 256 == memory[at],
{
}

/// Asking to stop stops, with what a value comes to.
#[verifier::rlimit(40)]
#[verifier::spinoff_prover]
proof fn a_stop_is_met(
    loaded: Loaded,
    stage: Stage,
    work: Work,
    args: Seq<ValueId>,
    number: nat,
    state: State,
) -> (came: Came)
    requires
        loaded.is_sound(),
        stage.works(work),
        is_up(state),
        flow::is_within(work.code),
        args.len() > 0,
        machine::is_placed(work, args[0]),
        stage.machine.word(work, args[0], state.memory) == number,
        !stage.machine.exit(work, args).code.failed,
        flow::grows(stage.machine.exit(work, args).code, loaded.listing),
    ensures
        stops_with(loaded, number, flow::end_of(work.code), state, came),
{
    let machine = stage.machine;
    let held = machine.read(work, T0, args[0]);
    let end = held.code.lda_zp(T0).jmp_abs(HOOK_EXIT);
    assert(machine.exit(work, args).code == end);
    flow::reading_grows(machine, work, T0, args[0]);
    flow::plain_grows(held.code, end);
    flow::growth_chains(held.code, end, loaded.listing);
    flow::what_grows_stays_within(work.code, held.code);
    let by = machine::a_value_is_read(machine, work, T0, args[0], state);
    flow::straight_code_reaches(
        work.code,
        held.code,
        loaded.listing,
        loaded.code,
        state,
        by,
    );
    let came = a_byte_stops(loaded, held.code, T0, by);
    coming_chains(
        loaded,
        flow::end_of(work.code),
        state,
        flow::end_of(held.code),
        by,
        came,
    );
    a_word_ends_in_its_low_byte(by.memory, T0 as int);
    came
}

/// The host is asked to stop with a byte.
proof fn a_byte_stops(loaded: Loaded, listing: Listing, at: u8, state: State) -> (came: Came)
    requires
        loaded.is_sound(),
        flow::is_within(listing),
        flow::grows(listing.lda_zp(at).jmp_abs(HOOK_EXIT), loaded.listing),
    ensures
        loaded.comes(flow::end_of(listing), state, came),
        came == Came::Stops(state.memory[at as int]),
{
    let told = listing.lda_zp(at);
    let end = told.jmp_abs(HOOK_EXIT);
    flow::plain_grows(listing, told);
    flow::plain_grows(told, end);
    flow::growth_chains(told, end, loaded.listing);
    flow::what_grows_stays_within(listing, told);
    machine::two_bytes_lead(listing, 0xA5, at, state);
    let after = state.read(state.memory[at as int]);
    flow::straight_code_reaches(listing, told, loaded.listing, loaded.code, state, after);
    flow::a_stop_stands(told, loaded.listing, loaded.code, after);
    assert(loaded.reaches(flow::end_of(listing), state, flow::end_of(told), after));
    Came::Stops(after.a)
}

/// A function leaves for its caller, with what it answers.
proof fn a_return_is_met(
    loaded: Loaded,
    stage: Stage,
    mine: Set<ValueId>,
    work: Work,
    around: Around,
    end: ir::Terminator,
    held: Held,
    numbers: Seq<nat>,
    state: State,
) -> (came: Came)
    requires
        loaded.is_sound(),
        stage.works(work),
        is_up(state),
        are_apart(stage.source, stage.frame, mine),
        agrees(stage, held, state),
        held.dom().subset_of(mine),
        flow::is_within(work.code),
        end.exit == Exit::Return,
        ir::machine::read(held, stage.machine.program.values(end.values)) == Some(numbers),
        !stage.machine.terminator(work, around, end).code.failed,
        flow::grows(stage.machine.terminator(work, around, end).code, loaded.listing),
    ensures
        loaded.comes(flow::end_of(work.code), state, came),
        came matches Came::At(next, after) && goes_back(
            stage.frame,
            loaded.listing.origin as int,
            state,
            numbers,
            next,
            after,
        ),
{
    let machine = stage.machine;
    let values = machine.program.values(end.values);
    let read = if values.len() > 0 {
        machine.read(work, R0, values[0])
    } else {
        work
    };
    let closed = if read.frame > 0 {
        read.code.close_frame(read.frame)
    } else {
        read.code
    };
    let last = machine.terminator(work, around, end);
    let origin = loaded.listing.origin as int;
    assert(last.code == closed.rts());
    a_list_is_held(values, held, numbers);
    flow::plain_grows(work.code, work.code);
    if values.len() > 0 {
        flow::reading_grows(machine, work, R0, values[0]);
    }
    flow::plain_grows(read.code, read.code);
    flow::a_frame_grows(read.code, read.frame);
    flow::plain_grows(closed, closed.rts());
    flow::growth_chains(closed, last.code, loaded.listing);
    flow::growth_chains(read.code, closed, loaded.listing);
    flow::what_grows_stays_within(work.code, read.code);
    flow::what_grows_stays_within(read.code, closed);
    let one = if values.len() > 0 {
        assert(held.dom().contains(values[0]));
        assert(mine.contains(values[0]));
        slots_are_whole(stage, work, mine, values[0]);
        what_is_read_is_held(stage, work, R0, values[0], held, state);
        machine::a_value_is_read(machine, work, R0, values[0], state)
    } else {
        machine::nothing_leads_nowhere(work.code, state);
        state
    };
    machine::leading_stays(work.code, read.code, state, one);
    assert(one.memory[FP as int] == state.memory[FP as int]);
    assert(one.memory[FP + 1] == state.memory[FP + 1]);
    assert(machine::frame(one.memory) == machine::frame(state.memory));
    let two = if read.frame > 0 {
        flow::a_frame_closes(read.code, read.frame, one)
    } else {
        machine::nothing_leads_nowhere(read.code, one);
        one
    };
    machine::leading_stays(read.code, closed, one, two);
    flow::straight_code_reaches(
        work.code,
        read.code,
        loaded.listing,
        loaded.code,
        state,
        one,
    );
    flow::straight_code_reaches(read.code, closed, loaded.listing, loaded.code, one, two);
    flow::leaving_reaches(closed, loaded.listing, loaded.code, two);
    let after = State { top: (two.top + 2) as u8, ..two };
    let came = Came::At(two.popped() + 1 - origin, after);
    coming_chains(
        loaded,
        flow::end_of(work.code),
        state,
        flow::end_of(read.code),
        one,
        Came::At(flow::end_of(closed), two),
    );
    coming_chains(
        loaded,
        flow::end_of(work.code),
        state,
        flow::end_of(closed),
        two,
        came,
    );
    assert forall|i: int| 0x100 <= i < machine::size() implies #[trigger] after.memory[i]
        == state.memory[i] by {
        assert(two.memory[i] == one.memory[i]);
        assert(one.memory[i] == state.memory[i]);
    }
    let low = 0x101 + state.top;
    assert(two.memory[low] == state.memory[low]);
    assert(two.memory[low + 1] == state.memory[low + 1]);
    if numbers.len() > 0 {
        assert(two.memory[R0 as int] == one.memory[R0 as int]);
        assert(two.memory[R0 + 1] == one.memory[R0 + 1]);
    }
    came
}

/// A region ends as the program does.
proof fn an_end_is_met(
    loaded: Loaded,
    stage: Stage,
    mine: Set<ValueId>,
    work: Work,
    around: Around,
    region: RegionId,
    held: Held,
    left: Left,
    state: State,
) -> (came: Came)
    requires
        loaded.is_sound(),
        stage.works(work),
        is_up(state),
        are_apart(stage.source, stage.frame, mine),
        around_fits(stage, mine, around),
        agrees(stage, held, state),
        held.dom().subset_of(mine),
        flow::is_within(work.code),
        stage.machine.program.region(region).terminator.exit == Exit::Return
            ==> stage.machine.program.values(
            stage.machine.program.region(region).terminator.values,
        ).len() == stage.answers,
        stage.machine.program.leaves(
            stage.machine.program.region(region).terminator,
            held,
        ) == Some(left),
        !stage.machine.terminator(
            work,
            around,
            stage.machine.program.region(region).terminator,
        ).code.failed,
        flow::grows(
            stage.machine.terminator(
                work,
                around,
                stage.machine.program.region(region).terminator,
            ).code,
            loaded.listing,
        ),
    ensures
        left is Yields ==> stage.machine.program.region(region).terminator.exit == Exit::Yield,
        meets(
            loaded,
            stage,
            mine,
            around,
            Set::empty(),
            left,
            flow::end_of(work.code),
            state,
            came,
        ),
{
    let program = stage.machine.program;
    let end = program.region(region).terminator;
    let values = program.values(end.values);
    let numbers = ir::machine::read(held, values)->Some_0;
    match end.exit {
        Exit::Yield => a_jump_is_met(
            loaded,
            stage,
            mine,
            work,
            values,
            program.values(around.branch->Some_0.0),
            around.branch->Some_0.1,
            held,
            numbers,
            state,
        ),
        Exit::Continue => a_jump_is_met(
            loaded,
            stage,
            mine,
            work,
            values,
            program.values(around.repeat->Some_0.0),
            around.repeat->Some_0.1,
            held,
            numbers,
            state,
        ),
        Exit::Break => a_jump_is_met(
            loaded,
            stage,
            mine,
            work,
            values,
            program.values(around.repeat->Some_0.2),
            around.repeat->Some_0.3,
            held,
            numbers,
            state,
        ),
        Exit::Return => a_return_is_met(
            loaded,
            stage,
            mine,
            work,
            around,
            end,
            held,
            numbers,
            state,
        ),
        Exit::Unreachable => Came::Stops(0),
    }
}

/// Whether code does what an instruction does, and goes on to where the next
/// is written, or there was no room left for a call.
pub open spec fn does(
    loaded: Loaded,
    stage: Stage,
    mine: Set<ValueId>,
    around: Around,
    touched: Set<ValueId>,
    held: Held,
    step: Step,
    at: int,
    state: State,
    next: Work,
    came: Came,
) -> bool {
    if came is Spent {
        loaded.comes(at, state, came)
    } else {
        match step {
            Step::Goes(then) => {
                &&& loaded.comes(at, state, came)
                &&& came matches Came::At(place, after) && {
                    &&& place == flow::end_of(next.code)
                    &&& is_steady(stage, mine, state, after, touched)
                    &&& agrees(stage, then, after)
                    &&& then.dom().subset_of(held.dom().union(touched))
                }
            },
            Step::Leaves(left) => {
                &&& !(left is Yields)
                &&& meets(loaded, stage, mine, around, touched, left, at, state, came)
            },
        }
    }
}

/// Code that sets the slots of what an instruction defines does what it does.
proof fn what_is_set_is_done(
    loaded: Loaded,
    stage: Stage,
    mine: Set<ValueId>,
    around: Around,
    work: Work,
    next: Work,
    results: Seq<ValueId>,
    held: Held,
    numbers: Seq<nat>,
    state: State,
    came: Came,
)
    requires
        agrees(stage, held, state),
        held.dom().subset_of(mine),
        results.no_duplicates(),
        results.len() == numbers.len(),
        ir::order::among(results).disjoint(held.dom()),
        loaded.comes(flow::end_of(work.code), state, came),
        came is At,
        came->At_0 == flow::end_of(next.code),
        is_steady(stage, mine, state, came->At_1, ir::order::among(results)),
        all_right(stage, results, numbers, came->At_1),
    ensures
        does(
            loaded,
            stage,
            mine,
            around,
            ir::order::among(results),
            held,
            Step::Goes(ir::machine::defined(held, results, numbers)),
            flow::end_of(work.code),
            state,
            next,
            came,
        ),
{
    let after = came->At_1;
    agreement_stays(stage, mine, held, state, after, ir::order::among(results));
    what_is_defined_agrees(stage, held, results, numbers, after);
    let then = ir::machine::defined(held, results, numbers);
    assert(then.dom().subset_of(held.dom().union(ir::order::among(results))));
}

/// Code that sets one slot does what an instruction does that defines one
/// value.
proof fn a_setting_is_done(
    loaded: Loaded,
    stage: Stage,
    mine: Set<ValueId>,
    around: Around,
    work: Work,
    next: Work,
    results: Seq<ValueId>,
    held: Held,
    number: nat,
    state: State,
    after: State,
)
    requires
        stage.works(work),
        is_up(state),
        are_apart(stage.source, stage.frame, mine),
        agrees(stage, held, state),
        held.dom().subset_of(mine),
        results.len() == 1,
        ir::order::among(results).subset_of(mine),
        ir::order::among(results).disjoint(held.dom()),
        stage.source[results[0].0 as int] is Slot,
        after.top == state.top,
        after.limit == state.limit,
        machine::only_sets(
            state.memory,
            after.memory,
            machine::slot(work, results[0], state.memory),
        ),
        machine::word(after.memory, machine::slot(work, results[0], state.memory)) == number,
        loaded.comes(
            flow::end_of(work.code),
            state,
            Came::At(flow::end_of(next.code), after),
        ),
    ensures
        does(
            loaded,
            stage,
            mine,
            around,
            ir::order::among(results),
            held,
            Step::Goes(ir::machine::defined(held, results, seq![number])),
            flow::end_of(work.code),
            state,
            next,
            Came::At(flow::end_of(next.code), after),
        ),
{
    let slot = machine::slot(work, results[0], state.memory);
    assert(after.memory[FP as int] == state.memory[FP as int]);
    assert(after.memory[FP + 1] == state.memory[FP + 1]);
    assert forall|at: int|
        0x100 <= at < machine::size() && (forall|i: int|
            0 <= i < results.len() ==> at != stage.slot(#[trigger] results[i], state) && at
                != stage.slot(results[i], state) + 1) implies #[trigger] after.memory[at]
        == state.memory[at] by {
        assert(at != stage.slot(results[0], state));
    }
    setting_is_steady(stage, mine, results, state, after);
    assert(stage.slot(results[0], after) == slot);
    assert(all_right(stage, results, seq![number], after));
    what_is_set_is_done(
        loaded,
        stage,
        mine,
        around,
        work,
        next,
        results,
        held,
        seq![number],
        state,
        Came::At(flow::end_of(next.code), after),
    );
}

/// Arithmetic and conversions are what the program says they are.
proof fn an_operation_is_done(
    loaded: Loaded,
    stage: Stage,
    mine: Set<ValueId>,
    around: Around,
    work: Work,
    op: Op,
    results: Seq<ValueId>,
    held: Held,
    number: nat,
    state: State,
) -> (came: Came)
    requires
        loaded.is_sound(),
        stage.works(work),
        is_up(state),
        are_apart(stage.source, stage.frame, mine),
        agrees(stage, held, state),
        held.dom().subset_of(mine),
        flow::is_within(work.code),
        op is Binary || op is Convert,
        results.len() == 1,
        ir::order::among(results).subset_of(mine),
        ir::order::among(results).disjoint(held.dom()),
        machine::is_classed(stage.machine, op, results[0]),
        op matches Op::Convert { class, value } ==> machine::is_narrowing(
            stage.machine,
            class,
            value,
        ),
        forall|i: int|
            0 <= i < machine::operands(op).len() ==> mine.contains(
                #[trigger] machine::operands(op)[i],
            ),
        machine::operation(stage.machine, work, op, state.memory) == number,
        !stage.machine.simple(work, op, results).code.failed,
        flow::grows(stage.machine.simple(work, op, results).code, loaded.listing),
    ensures
        does(
            loaded,
            stage,
            mine,
            around,
            ir::order::among(results),
            held,
            Step::Goes(ir::machine::defined(held, results, seq![number])),
            flow::end_of(work.code),
            state,
            stage.machine.simple(work, op, results),
            came,
        ),
{
    let machine = stage.machine;
    let end = machine.simple(work, op, results);
    assert(ir::order::among(results).contains(results[0]));
    slots_are_whole(stage, work, mine, results[0]);
    assert forall|i: int| 0 <= i < machine::operands(op).len() implies machine::is_placed(
        work,
        #[trigger] machine::operands(op)[i],
    ) by {
        slots_are_whole(stage, work, mine, machine::operands(op)[i]);
    }
    let after = machine::an_operation_computes(machine, work, op, results, state);
    flow::a_simple_one_goes_further(machine, work, op, results);
    flow::an_operation_is_straight(machine, work, op, results);
    flow::running_code_reaches(
        work.code,
        end.code,
        loaded.listing,
        loaded.code,
        state,
        after,
    );
    let came = Came::At(flow::end_of(end.code), after);
    assert(loaded.comes(flow::end_of(work.code), state, came));
    a_setting_is_done(
        loaded,
        stage,
        mine,
        around,
        work,
        end,
        results,
        held,
        number,
        state,
        after,
    );
    came
}

/// So are comparisons.
proof fn a_comparison_is_done(
    loaded: Loaded,
    stage: Stage,
    mine: Set<ValueId>,
    around: Around,
    work: Work,
    relation: Relation,
    left: ValueId,
    right: ValueId,
    results: Seq<ValueId>,
    held: Held,
    state: State,
) -> (came: Came)
    requires
        loaded.is_sound(),
        stage.works(work),
        is_up(state),
        are_apart(stage.source, stage.frame, mine),
        agrees(stage, held, state),
        held.dom().subset_of(mine),
        held.dom().contains(left),
        held.dom().contains(right),
        results.len() == 1,
        ir::order::among(results).subset_of(mine),
        ir::order::among(results).disjoint(held.dom()),
        !stage.machine.simple(work, Op::Compare { relation, left, right }, results).code.failed,
        flow::is_settled(
            work,
            stage.machine.simple(work, Op::Compare { relation, left, right }, results),
            loaded.listing,
        ),
    ensures
        does(
            loaded,
            stage,
            mine,
            around,
            ir::order::among(results),
            held,
            Step::Goes(
                ir::machine::defined(
                    held,
                    results,
                    seq![
                        if flow::relates(relation, held[left], held[right]) {
                            1nat
                        } else {
                            0nat
                        },
                    ],
                ),
            ),
            flow::end_of(work.code),
            state,
            stage.machine.simple(work, Op::Compare { relation, left, right }, results),
            came,
        ),
{
    let machine = stage.machine;
    let op = Op::Compare { relation, left, right };
    let end = machine.simple(work, op, results);
    let number = if flow::relates(relation, held[left], held[right]) {
        1nat
    } else {
        0nat
    };
    assert(ir::order::among(results).contains(results[0]));
    assert(mine.contains(left) && mine.contains(right));
    slots_are_whole(stage, work, mine, results[0]);
    slots_are_whole(stage, work, mine, left);
    slots_are_whole(stage, work, mine, right);
    assert(results =~= seq![results[0]]);
    let one = machine.read(work, T0, left);
    let other = machine.read(one, T1, right);
    let told = Work { code: other.code.comparison(relation), ..other };
    flow::comparing_fails_where_it_did(other.code, relation);
    flow::reading_grows(machine, work, T0, left);
    flow::reading_grows(machine, one, T1, right);
    flow::keeping_grows(told, results[0], T0);
    what_is_read_is_held(stage, work, T0, left, held, state);
    what_is_read_is_held(stage, one, T1, right, held, state);
    let after = flow::a_comparison_computes(
        machine,
        work,
        relation,
        left,
        right,
        results[0],
        loaded.listing,
        loaded.code,
        state,
    );
    let came = Came::At(flow::end_of(end.code), after);
    assert(loaded.comes(flow::end_of(work.code), state, came));
    a_setting_is_done(
        loaded,
        stage,
        mine,
        around,
        work,
        end,
        results,
        held,
        number,
        state,
        after,
    );
    came
}

/// A constant is where it is read, so nothing is done where it is written.
proof fn a_constant_is_done(
    loaded: Loaded,
    stage: Stage,
    mine: Set<ValueId>,
    around: Around,
    work: Work,
    class: Class,
    value: u64,
    results: Seq<ValueId>,
    held: Held,
    state: State,
) -> (came: Came)
    requires
        agrees(stage, held, state),
        held.dom().subset_of(mine),
        results.len() == 1,
        ir::order::among(results).disjoint(held.dom()),
        stage.source[results[0].0 as int] == Source::Const(value),
        class matches Class::Fixed { bits } ==> (value as nat)
            < vstd::arithmetic::power2::pow2(bits as nat),
    ensures
        does(
            loaded,
            stage,
            mine,
            around,
            ir::order::among(results),
            held,
            Step::Goes(
                ir::machine::defined(
                    held,
                    results,
                    seq![value as nat % ir::machine::span(class, machine::size())],
                ),
            ),
            flow::end_of(work.code),
            state,
            work,
            came,
        ),
{
    let number = value as nat % ir::machine::span(class, machine::size());
    match class {
        Class::Fixed { bits } => {
            vstd::arithmetic::div_mod::lemma_small_mod(
                value as nat,
                vstd::arithmetic::power2::pow2(bits as nat),
            );
        },
        _ => {
            if value <= 0xFFFF {
                vstd::arithmetic::div_mod::lemma_small_mod(value as nat, machine::size());
            }
        },
    }
    let came = Came::At(flow::end_of(work.code), state);
    flow::staying_reaches(
        loaded.code,
        loaded.listing.origin as int,
        flow::end_of(work.code),
        state,
    );
    assert(is_right(stage, results[0], number, state));
    assert(all_right(stage, results, seq![number], state));
    what_is_set_is_done(
        loaded,
        stage,
        mine,
        around,
        work,
        work,
        results,
        held,
        seq![number],
        state,
        came,
    );
    came
}

/// An address is where it is read too.
proof fn an_address_is_done(
    loaded: Loaded,
    stage: Stage,
    mine: Set<ValueId>,
    around: Around,
    work: Work,
    data: DataId,
    results: Seq<ValueId>,
    held: Held,
    state: State,
) -> (came: Came)
    requires
        agrees(stage, held, state),
        held.dom().subset_of(mine),
        results.len() == 1,
        ir::order::among(results).disjoint(held.dom()),
        stage.source[results[0].0 as int] == Source::Addr(data),
    ensures
        does(
            loaded,
            stage,
            mine,
            around,
            ir::order::among(results),
            held,
            Step::Goes(
                ir::machine::defined(held, results, seq![stage.machine.address(data)]),
            ),
            flow::end_of(work.code),
            state,
            work,
            came,
        ),
{
    let number = stage.machine.address(data);
    let came = Came::At(flow::end_of(work.code), state);
    flow::staying_reaches(
        loaded.code,
        loaded.listing.origin as int,
        flow::end_of(work.code),
        state,
    );
    assert(is_right(stage, results[0], number, state));
    assert(all_right(stage, results, seq![number], state));
    what_is_set_is_done(
        loaded,
        stage,
        mine,
        around,
        work,
        work,
        results,
        held,
        seq![number],
        state,
        came,
    );
    came
}

/// The operations that neither branch, call nor ask.
#[verifier::rlimit(100)]
#[verifier::spinoff_prover]
proof fn a_simple_one_is_met(
    loaded: Loaded,
    host: Host,
    stage: Stage,
    mine: Set<ValueId>,
    around: Around,
    work: Work,
    op: Op,
    results: Seq<ValueId>,
    held: Held,
    step: Step,
    state: State,
    fuel: nat,
) -> (came: Came)
    requires
        loaded.is_sound(),
        host.size == machine::size(),
        stage.works(work),
        is_up(state),
        are_apart(stage.source, stage.frame, mine),
        agrees(stage, held, state),
        held.dom().subset_of(mine),
        op is Constant || op is Binary || op is Compare || op is Convert,
        ir::order::among(results).subset_of(mine),
        ir::order::among(results).disjoint(held.dom()),
        machine::is_classed(stage.machine, op, results[0]),
        op matches Op::Convert { class, value } ==> machine::is_narrowing(
            stage.machine,
            class,
            value,
        ),
        op matches Op::Constant { class, value } ==> {
            &&& stage.source[results[0].0 as int] == Source::Const(value)
            &&& class matches Class::Fixed { bits } ==> (value as nat)
                < vstd::arithmetic::power2::pow2(bits as nat)
        },
        !stage.machine.simple(work, op, results).code.failed,
        flow::is_settled(work, stage.machine.simple(work, op, results), loaded.listing),
        stage.machine.program.op_runs(host, op, results, held, fuel) == Some(step),
    ensures
        does(
            loaded,
            stage,
            mine,
            around,
            ir::order::among(results),
            held,
            step,
            flow::end_of(work.code),
            state,
            stage.machine.simple(work, op, results),
            came,
        ),
{
    let machine = stage.machine;
    match op {
        Op::Constant { class, value } => a_constant_is_done(
            loaded,
            stage,
            mine,
            around,
            work,
            class,
            value,
            results,
            held,
            state,
        ),
        Op::Binary { op: how, left, right } => {
            let both = ir::machine::read(held, seq![left, right])->Some_0;
            a_list_is_held(seq![left, right], held, both);
            assert(held.dom().contains(seq![left, right][0]));
            assert(held.dom().contains(seq![left, right][1]));
            assert(mine.contains(left) && mine.contains(right));
            two_are_held(stage, work, op, left, right, results, held, state);
            an_operation_is_done(
                loaded,
                stage,
                mine,
                around,
                work,
                op,
                results,
                held,
                machine.program.computed(
                    how,
                    machine.program.class(left),
                    both[0],
                    both[1],
                    machine::size(),
                ),
                state,
            )
        },
        Op::Compare { relation, left, right } => {
            let both = ir::machine::read(held, seq![left, right])->Some_0;
            a_list_is_held(seq![left, right], held, both);
            assert(held.dom().contains(seq![left, right][0]));
            assert(held.dom().contains(seq![left, right][1]));
            a_comparison_is_done(
                loaded,
                stage,
                mine,
                around,
                work,
                relation,
                left,
                right,
                results,
                held,
                state,
            )
        },
        Op::Convert { class, value } => {
            let one = ir::machine::read(held, seq![value])->Some_0;
            a_list_is_held(seq![value], held, one);
            assert(held.dom().contains(seq![value][0]));
            assert(mine.contains(value));
            one_is_held(stage, work, class, value, results, held, state);
            an_operation_is_done(
                loaded,
                stage,
                mine,
                around,
                work,
                op,
                results,
                held,
                one[0] % ir::machine::span(class, machine::size()),
                state,
            )
        },
        _ => Came::Stops(0),
    }
}

/// What arithmetic reads is what is held.
proof fn two_are_held(
    stage: Stage,
    work: Work,
    op: Op,
    left: ValueId,
    right: ValueId,
    results: Seq<ValueId>,
    held: Held,
    state: State,
)
    requires
        op matches Op::Binary { left: l, right: r, .. } && l == left && r == right,
        stage.works(work),
        agrees(stage, held, state),
        held.dom().contains(left),
        held.dom().contains(right),
        !stage.machine.simple(work, op, results).code.failed,
    ensures
        stage.machine.word(work, left, state.memory) == held[left],
        stage.machine.word(work, right, state.memory) == held[right],
{
    let machine = stage.machine;
    let one = machine.read(work, T0, left);
    let other = machine.read(one, T1, right);
    flow::reading_grows(machine, work, T0, left);
    flow::reading_grows(machine, one, T1, right);
    flow::an_operation_fails_where_it_read(machine, work, op, results);
    what_is_read_is_held(stage, work, T0, left, held, state);
    what_is_read_is_held(stage, one, T1, right, held, state);
}

/// So is what a conversion reads.
proof fn one_is_held(
    stage: Stage,
    work: Work,
    class: Class,
    value: ValueId,
    results: Seq<ValueId>,
    held: Held,
    state: State,
)
    requires
        stage.works(work),
        agrees(stage, held, state),
        held.dom().contains(value),
        !stage.machine.simple(work, Op::Convert { class, value }, results).code.failed,
    ensures
        stage.machine.word(work, value, state.memory) == held[value],
{
    flow::an_operation_fails_where_it_read(
        stage.machine,
        work,
        Op::Convert { class, value },
        results,
    );
    what_is_read_is_held(stage, work, T0, value, held, state);
}

/// Asking the platform.
proof fn a_platform_call_is_met(
    loaded: Loaded,
    stage: Stage,
    mine: Set<ValueId>,
    around: Around,
    touched: Set<ValueId>,
    work: Work,
    platform: PlatformId,
    args: Range,
    results: Seq<ValueId>,
    held: Held,
    step: Step,
    state: State,
    fuel: nat,
) -> (came: Came)
    requires
        loaded.is_sound(),
        stage.works(work),
        is_up(state),
        are_apart(stage.source, stage.frame, mine),
        agrees(stage, held, state),
        held.dom().subset_of(mine),
        flow::is_within(work.code),
        !stage.machine.simple(work, Op::PlatformCall { platform, args }, results).code.failed,
        flow::grows(
            stage.machine.simple(work, Op::PlatformCall { platform, args }, results).code,
            loaded.listing,
        ),
        stage.machine.program.op_runs(
            host(stage.machine.program),
            Op::PlatformCall { platform, args },
            results,
            held,
            fuel,
        ) == Some(step),
    ensures
        does(
            loaded,
            stage,
            mine,
            around,
            touched,
            held,
            step,
            flow::end_of(work.code),
            state,
            stage.machine.simple(work, Op::PlatformCall { platform, args }, results),
            came,
        ),
{
    let machine = stage.machine;
    let values = machine.program.values(args);
    let numbers = ir::machine::read(held, values)->Some_0;
    a_list_is_held(values, held, numbers);
    if is_exit(machine.program, platform) {
        assert("write"@ != "exit"@) by {
            reveal_strlit("write");
            reveal_strlit("exit");
            assert("write"@.len() == 5 && "exit"@.len() == 4);
        }
        assert(values.len() > 0);
        assert(held.dom().contains(values[0]));
        assert(mine.contains(values[0]));
        slots_are_whole(stage, work, mine, values[0]);
        let read = machine.read(work, T0, values[0]);
        assert(!read.code.failed);
        what_is_read_is_held(stage, work, T0, values[0], held, state);
        a_stop_is_met(loaded, stage, work, values, numbers[0], state)
    } else {
        Came::Stops(0)
    }
}

impl Stage {
    /// What a value comes to, where memory holds what it does.
    pub open spec fn word(self, value: ValueId, state: State) -> nat {
        match self.source[value.0 as int] {
            Source::Const(word) => word as nat,
            Source::Addr(data) => self.machine.address(data),
            Source::Slot(_) => machine::word(state.memory, self.slot(value, state)),
        }
    }
}

/// The first `count` arguments are where a function looks for them, and the
/// frame is as it was.
spec fn is_passed(
    stage: Stage,
    args: Seq<ValueId>,
    count: int,
    before: State,
    after: State,
) -> bool {
    &&& keeps_frames(before, after)
    &&& forall|i: int|
        0 <= i < count ==> flow::pair_of(after, (ARGS + 2 * i) as u8) == stage.word(
            #[trigger] args[i],
            before,
        )
}

proof fn a_value_is_passed(
    loaded: Loaded,
    stage: Stage,
    mine: Set<ValueId>,
    work: Work,
    args: Seq<ValueId>,
    from: int,
    first: State,
    state: State,
) -> (after: State)
    requires
        loaded.is_sound(),
        stage.works(work),
        is_up(first),
        0 <= from < args.len(),
        from < ARG_COUNT,
        is_passed(stage, args, from, first, state),
        are_apart(stage.source, stage.frame, mine),
        mine.contains(args[from]),
        flow::is_within(work.code),
        !stage.machine.read(work, (ARGS + 2 * from) as u8, args[from]).code.failed,
        flow::grows(
            stage.machine.read(work, (ARGS + 2 * from) as u8, args[from]).code,
            loaded.listing,
        ),
    ensures
        loaded.comes(
            flow::end_of(work.code),
            state,
            Came::At(
                flow::end_of(
                    stage.machine.read(work, (ARGS + 2 * from) as u8, args[from]).code,
                ),
                after,
            ),
        ),
        is_passed(stage, args, from + 1, first, after),
{
    let machine = stage.machine;
    let pair = (ARGS + 2 * from) as u8;
    let next = machine.read(work, pair, args[from]);
    keeping_is_steady(stage, mine, first, state);
    slots_are_whole(stage, work, mine, args[from]);
    let after = machine::a_value_is_read(machine, work, pair, args[from], state);
    flow::reading_grows(machine, work, pair, args[from]);
    flow::straight_code_reaches(
        work.code,
        next.code,
        loaded.listing,
        loaded.code,
        state,
        after,
    );
    machine::leading_stays(work.code, next.code, state, after);
    let at = stage.slot(args[from], first);
    if stage.source[args[from].0 as int] is Slot {
        assert(state.memory[at] == first.memory[at]);
        assert(state.memory[at + 1] == first.memory[at + 1]);
    }
    assert(machine.word(work, args[from], state.memory) == stage.word(args[from], first));
    assert(after.memory[FP as int] == state.memory[FP as int]);
    assert(after.memory[FP + 1] == state.memory[FP + 1]);
    assert forall|i: int| 0x100 <= i < machine::size() implies #[trigger] after.memory[i]
        == first.memory[i] by {
        assert(after.memory[i] == state.memory[i]);
    }
    assert forall|i: int| 0 <= i < from + 1 implies flow::pair_of(after, (ARGS + 2 * i) as u8)
        == stage.word(#[trigger] args[i], first) by {
        if i < from {
            let other = ARGS + 2 * i;
            assert(after.memory[other] == state.memory[other]);
            assert(after.memory[other + 1] == state.memory[other + 1]);
        }
    }
    after
}

/// Arguments are passed one after the other.
proof fn values_are_passed(
    loaded: Loaded,
    stage: Stage,
    mine: Set<ValueId>,
    work: Work,
    args: Seq<ValueId>,
    from: int,
    first: State,
    state: State,
) -> (after: State)
    requires
        loaded.is_sound(),
        stage.works(work),
        is_up(first),
        0 <= from <= args.len(),
        from <= ARG_COUNT,
        is_passed(stage, args, from, first, state),
        are_apart(stage.source, stage.frame, mine),
        forall|i: int| 0 <= i < args.len() ==> mine.contains(#[trigger] args[i]),
        flow::is_within(work.code),
        !stage.machine.pass_args(work, args, from).code.failed,
        flow::grows(stage.machine.pass_args(work, args, from).code, loaded.listing),
    ensures
        args.len() <= ARG_COUNT,
        loaded.comes(
            flow::end_of(work.code),
            state,
            Came::At(flow::end_of(stage.machine.pass_args(work, args, from).code), after),
        ),
        is_passed(stage, args, args.len() as int, first, after),
    decreases args.len() - from,
{
    let machine = stage.machine;
    if from < args.len() {
        let pair = (ARGS + 2 * from) as u8;
        let next = machine.read(work, pair, args[from]);
        let end = machine.pass_args(work, args, from);
        assert(from < ARG_COUNT);
        assert(end == machine.pass_args(next, args, from + 1));
        flow::reading_grows(machine, work, pair, args[from]);
        flow::passing_extends(machine, next, args, from + 1);
        flow::growth_chains(next.code, end.code, loaded.listing);
        flow::what_grows_stays_within(work.code, next.code);
        let mid = a_value_is_passed(loaded, stage, mine, work, args, from, first, state);
        let after = values_are_passed(
            loaded,
            stage,
            mine,
            next,
            args,
            from + 1,
            first,
            mid,
        );
        coming_chains(
            loaded,
            flow::end_of(work.code),
            state,
            flow::end_of(next.code),
            mid,
            Came::At(flow::end_of(end.code), after),
        );
        after
    } else {
        flow::staying_reaches(
            loaded.code,
            loaded.listing.origin as int,
            flow::end_of(work.code),
            state,
        );
        state
    }
}

/// Whether a call, made with where to come back to on the stack and what is
/// passed where it belongs, comes to what the program says it does.
pub open spec fn call_meets(
    program: Parts,
    loaded: Loaded,
    f: FunctionId,
    left: Left,
    state: State,
    came: Came,
) -> bool {
    let at = loaded.place_of(Label(f.0 as usize));
    if came is Spent {
        loaded.comes(at, state, came)
    } else {
        match left {
            Left::Answers(numbers) => {
                &&& numbers.len() == program.function(f).answers.len
                &&& loaded.comes(at, state, came)
                &&& came matches Came::At(next, after) && goes_back(
                    0,
                    loaded.listing.origin as int,
                    state,
                    numbers,
                    next,
                    after,
                )
            },
            Left::Asks(platform, numbers) => is_exit(program, platform) ==> {
                &&& numbers.len() > 0
                &&& stops_with(loaded, numbers[0], at, state, came)
            },
            _ => true,
        }
    }
}

/// Whether a function may be entered.
pub open spec fn is_entered(numbers: Seq<nat>, state: State) -> bool {
    &&& state.memory.len() == machine::size()
    &&& state.limit >= 0x200
    &&& machine::frame(state.memory) + 0x100 <= machine::size()
    &&& numbers.len() <= ARG_COUNT
    &&& forall|i: int|
        0 <= i < numbers.len() ==> flow::pair_of(state, (ARGS + 2 * i) as u8)
            == #[trigger] numbers[i]
}

/// A call hands over its arguments.
proof fn a_call_is_made(
    loaded: Loaded,
    stage: Stage,
    mine: Set<ValueId>,
    work: Work,
    function: FunctionId,
    args: Seq<ValueId>,
    held: Held,
    numbers: Seq<nat>,
    state: State,
) -> (by: State)
    requires
        loaded.is_sound(),
        stage.works(work),
        is_up(state),
        are_apart(stage.source, stage.frame, mine),
        agrees(stage, held, state),
        held.dom().subset_of(mine),
        flow::is_within(work.code),
        ir::machine::read(held, args) == Some(numbers),
        !stage.machine.pass_args(work, args, 0).code.failed,
        flow::grows(
            stage.machine.pass_args(work, args, 0).code.jsr(Label(function.0 as usize)),
            loaded.listing,
        ),
    ensures
        keeps_frames(state, by),
        ({
            let passed = stage.machine.pass_args(work, args, 0).code;
            let entry = by.push(loaded.listing.origin + flow::end_of(passed) + 2);
            &&& loaded.comes(
                flow::end_of(work.code),
                state,
                Came::At(loaded.place_of(Label(function.0 as usize)), entry),
            )
            &&& loaded.reaches(flow::end_of(work.code), state, flow::end_of(passed), by)
            &&& !has_room(entry) ==> loaded.is_spent(flow::end_of(passed), by)
            &&& is_entered(numbers, entry)
            &&& entry.limit == by.limit
            &&& entry.top == by.top - 2
            &&& machine::frame(entry.memory) == machine::frame(by.memory)
            &&& entry.popped() == loaded.listing.origin + flow::end_of(passed) + 2
            &&& forall|i: int|
                0x101 + by.top <= i < machine::size() ==> #[trigger] entry.memory[i]
                    == by.memory[i]
        }),
{
    let machine = stage.machine;
    let label = Label(function.0 as usize);
    let passed = machine.pass_args(work, args, 0);
    let back = loaded.listing.origin + flow::end_of(passed.code) + 2;
    a_list_is_held(args, held, numbers);
    assert forall|i: int| 0 <= i < args.len() implies mine.contains(#[trigger] args[i]) by {
        assert(held.dom().contains(args[i]));
    }
    flow::passing_extends(machine, work, args, 0);
    flow::a_call_grows(passed.code, label);
    flow::growth_chains(passed.code, passed.code.jsr(label), loaded.listing);
    flow::what_grows_stays_within(work.code, passed.code);
    assert(is_passed(stage, args, 0, state, state));
    let by = values_are_passed(loaded, stage, mine, work, args, 0, state, state);
    what_is_passed_is_held(stage, work, args, 0, held, numbers, state);
    flow::a_call_reaches(passed.code, label, loaded.listing, loaded.code, by);
    flow::what_is_pushed_comes_back(by, back);
    let entry = by.push(back);
    coming_chains(
        loaded,
        flow::end_of(work.code),
        state,
        flow::end_of(passed.code),
        by,
        Came::At(loaded.place_of(label), entry),
    );
    assert(entry.memory[FP as int] == by.memory[FP as int]);
    assert(entry.memory[FP + 1] == by.memory[FP + 1]);
    assert forall|i: int| 0 <= i < numbers.len() implies flow::pair_of(
        entry,
        (ARGS + 2 * i) as u8,
    ) == #[trigger] numbers[i] by {
        let at = ARGS + 2 * i;
        assert(entry.memory[at] == by.memory[at]);
        assert(entry.memory[at + 1] == by.memory[at + 1]);
        assert(flow::pair_of(by, (ARGS + 2 * i) as u8) == stage.word(args[i], state));
        assert(stage.word(args[i], state) == numbers[i]);
    }
    by
}

/// What is passed is what is held.
proof fn what_is_passed_is_held(
    stage: Stage,
    work: Work,
    args: Seq<ValueId>,
    from: int,
    held: Held,
    numbers: Seq<nat>,
    state: State,
)
    requires
        0 <= from <= args.len(),
        stage.works(work),
        agrees(stage, held, state),
        ir::machine::read(held, args) == Some(numbers),
        !stage.machine.pass_args(work, args, from).code.failed,
    ensures
        forall|i: int|
            from <= i < args.len() ==> stage.word(#[trigger] args[i], state) == numbers[i],
    decreases args.len() - from,
{
    let machine = stage.machine;
    if from < args.len() && from < ARG_COUNT {
        let pair = (ARGS + 2 * from) as u8;
        let next = machine.read(work, pair, args[from]);
        flow::reading_extends(machine, work, pair, args[from]);
        flow::passing_extends(machine, next, args, from + 1);
        a_list_is_held(args, held, numbers);
        what_is_read_is_held(stage, work, pair, args[from], held, state);
        what_is_passed_is_held(stage, next, args, from + 1, held, numbers, state);
        assert forall|i: int| from <= i < args.len() implies stage.word(
            #[trigger] args[i],
            state,
        ) == numbers[i] by {
            if i == from {
                assert(stage.word(args[i], state) == machine.word(work, args[i], state.memory));
            }
        }
    }
}

/// A caller finds its frame as it left it.
proof fn coming_back_is_steady(
    stage: Stage,
    mine: Set<ValueId>,
    state: State,
    by: State,
    back: State,
)
    requires
        is_up(state),
        are_apart(stage.source, stage.frame, mine),
        keeps_frames(state, by),
        back.top == by.top,
        back.limit == by.limit,
        back.memory.len() == by.memory.len(),
        machine::frame(back.memory) == machine::frame(by.memory),
        forall|i: int|
            machine::frame(by.memory) <= i < machine::size() ==> #[trigger] back.memory[i]
                == by.memory[i],
        forall|i: int|
            0x101 + by.top <= i < 0x200 ==> #[trigger] back.memory[i] == by.memory[i],
    ensures
        is_steady(stage, mine, state, back, Set::empty()),
        is_up(back),
{
    let frame = machine::frame(state.memory);
    assert(machine::frame(by.memory) == frame);
    assert forall|v: ValueId|
        #[trigger] mine.contains(v) && stage.source[v.0 as int] is Slot implies machine::word(
        back.memory,
        stage.slot(v, back),
    ) == machine::word(state.memory, stage.slot(v, state)) by {
        let at = stage.slot(v, state);
        assert(by.memory[at] == state.memory[at]);
        assert(by.memory[at + 1] == state.memory[at + 1]);
        assert(back.memory[at] == by.memory[at]);
        assert(back.memory[at + 1] == by.memory[at + 1]);
    }
    assert forall|i: int| frame + stage.frame <= i < machine::size() implies
        #[trigger] back.memory[i] == state.memory[i] by {
        assert(back.memory[i] == by.memory[i]);
        assert(by.memory[i] == state.memory[i]);
    }
    assert forall|i: int| 0x101 + state.top <= i < 0x200 implies #[trigger] back.memory[i]
        == state.memory[i] by {
        assert(back.memory[i] == by.memory[i]);
        assert(by.memory[i] == state.memory[i]);
    }
}

/// What is answered is taken.
proof fn an_answer_is_taken(
    loaded: Loaded,
    stage: Stage,
    mine: Set<ValueId>,
    called: Work,
    result: ValueId,
    number: nat,
    back: State,
) -> (after: State)
    requires
        loaded.is_sound(),
        stage.works(called),
        is_up(back),
        are_apart(stage.source, stage.frame, mine),
        mine.contains(result),
        flow::is_within(called.code),
        flow::pair_of(back, R0) == number,
        !called.write_slot(result, R0).code.failed,
        flow::grows(called.write_slot(result, R0).code, loaded.listing),
    ensures
        loaded.comes(
            flow::end_of(called.code),
            back,
            Came::At(flow::end_of(called.write_slot(result, R0).code), after),
        ),
        is_steady(stage, mine, back, after, ir::order::among(seq![result])),
        is_right(stage, result, number, after),
{
    let end = called.write_slot(result, R0);
    slots_are_whole(stage, called, mine, result);
    assert(stage.source[result.0 as int] is Slot);
    let offset = stage.source[result.0 as int]->Slot_0;
    let after = machine::a_slot_is_written(called.code, R0, offset, back);
    flow::keeping_grows(called, result, R0);
    flow::straight_code_reaches(
        called.code,
        end.code,
        loaded.listing,
        loaded.code,
        back,
        after,
    );
    machine::leading_stays(called.code, end.code, back, after);
    let results = seq![result];
    assert(after.memory[FP as int] == back.memory[FP as int]);
    assert(after.memory[FP + 1] == back.memory[FP + 1]);
    assert(results[0] == result);
    assert forall|v: ValueId| ir::order::among(results).contains(v) implies mine.contains(v) by {}
    assert forall|at: int|
        0x100 <= at < machine::size() && (forall|i: int|
            0 <= i < results.len() ==> at != stage.slot(#[trigger] results[i], back) && at
                != stage.slot(results[i], back) + 1) implies #[trigger] after.memory[at]
        == back.memory[at] by {
        assert(at != stage.slot(results[0], back));
    }
    setting_is_steady(stage, mine, results, back, after);
    after
}

/// With nothing around it.
pub open spec fn nowhere() -> Around {
    Around { branch: None, repeat: None }
}

/// What is written where a function's label is.
pub open spec fn bound(program: Parts, loaded: Loaded, f: FunctionId) -> Work {
    let work = Machine { program, data: LOAD }.functions(loaded.start, f.0 as int);
    Work { code: work.code.bind(Label(f.0 as usize)), frame: 0, ..work }
}

/// With its values' places settled.
pub open spec fn planned(program: Parts, loaded: Loaded, f: FunctionId) -> Work {
    Machine { program, data: LOAD }.plan(bound(program, loaded, f), program.function(f).body)
}

/// With its frame open.
pub open spec fn opened(program: Parts, loaded: Loaded, f: FunctionId) -> Work {
    let work = planned(program, loaded, f);
    if work.frame > 0 {
        Work { code: work.code.open_frame(work.frame), ..work }
    } else {
        work
    }
}

/// And where its body begins, with its arguments in it.
pub open spec fn begun(program: Parts, loaded: Loaded, f: FunctionId) -> Work {
    Machine { program, data: LOAD }.take_args(
        opened(program, loaded, f),
        program.values(program.function(f).params),
        0,
    )
}

/// A function of a program, as it is written.
#[verifier::opaque]
pub open spec fn stage_of(program: Parts, loaded: Loaded, f: FunctionId) -> Stage {
    Stage {
        machine: Machine { program, data: LOAD },
        source: planned(program, loaded, f).source,
        frame: planned(program, loaded, f).frame,
        answers: program.function(f).answers.len as nat,
    }
}

proof fn a_stage_is_its_programs(program: Parts, loaded: Loaded, f: FunctionId)
    ensures
        stage_of(program, loaded, f).machine == (Machine { program, data: LOAD }),
        stage_of(program, loaded, f).source == planned(program, loaded, f).source,
        stage_of(program, loaded, f).frame == planned(program, loaded, f).frame,
        stage_of(program, loaded, f).answers == program.function(f).answers.len,
{
    reveal(stage_of);
}

/// Whether a function's values have places of their own, and it is written as
/// it was to be.
pub open spec fn function_stands(program: Parts, loaded: Loaded, f: FunctionId) -> bool {
    let stage = stage_of(program, loaded, f);
    let body = program.function(f).body;
    let start = begun(program, loaded, f);
    let end = stage.machine.region(start, nowhere(), body, 0);
    &&& are_apart(stage.source, stage.frame, program.function_given(f))
    &&& is_laid(program, stage.source, body, 0)
    &&& flow::is_within(bound(program, loaded, f).code)
    &&& planned(program, loaded, f).code == bound(program, loaded, f).code
    &&& flow::is_settled(start, end, loaded.listing)
    &&& !end.code.failed
    &&& loaded.place_of(Label(f.0 as usize)) == flow::end_of(bound(program, loaded, f).code)
}

/// Whether a program is one this target does justice to: functions answer a
/// word at most, and conversions are to no more bits than there are.
pub open spec fn is_modest(program: Parts) -> bool {
    &&& program.answers_plainly()
    &&& forall|i: int|
        0 <= i < program.ops.len() ==> ((#[trigger] program.ops[i]) matches Op::Convert {
            class,
            value,
        } ==> lower::width(class) <= lower::width(program.class(value)))
}

proof fn an_op_is_modest(program: Parts, region: RegionId, at: int)
    requires
        program.wf(),
        is_modest(program),
        region.0 < program.regions.len(),
        0 <= at < program.region_ops(region).len(),
    ensures
        program.region_ops(region)[at] is Call ==> program.values(
            program.region_results(region)[at],
        ).len() <= 1,
        program.region_ops(region)[at] matches Op::Convert { class, value } ==> lower::width(class)
            <= lower::width(program.class(value)),
{
    let whole = program.region(region).ops.start + at;
    assert(program.region_fits(program.regions[region.0 as int]));
    assert(program.op_fits(program.ops[whole], program.results[whole]));
    assert(program.region_ops(region)[at] == program.ops[whole]);
    assert(program.region_results(region)[at] == program.results[whole]);
    if let Op::Call { function, .. } = program.ops[whole] {
        assert(program.function(function).answers.len <= 1);
    }
}

/// Whether a whole program is.
pub open spec fn program_stands(program: Parts, loaded: Loaded) -> bool {
    &&& program.wf()
    &&& program.agrees()
    &&& program.orderly()
    &&& is_modest(program)
    &&& loaded.is_sound()
    &&& forall|f: FunctionId|
        f.0 < program.functions.len() ==> #[trigger] function_stands(program, loaded, f)
}

/// Whether a region of a function can be followed from one of its
/// instructions on.
pub open spec fn region_stands(
    program: Parts,
    loaded: Loaded,
    f: FunctionId,
    work: Work,
    around: Around,
    region: RegionId,
    from: int,
) -> bool {
    let stage = stage_of(program, loaded, f);
    &&& region.0 < program.regions.len()
    &&& 0 <= from <= program.region_ops(region).len()
    &&& stage.works(work)
    &&& !stage.machine.region(work, around, region, from).code.failed
    &&& flow::is_settled(
        work,
        stage.machine.region(work, around, region, from),
        loaded.listing,
    )
    &&& is_laid(program, stage.source, region, from)
    &&& program.is_single(region, from)
    &&& program.region_agrees(
        region,
        program.function(f).answers.read(program.signature),
        from,
    )
    &&& program.given(region, from).subset_of(program.function_given(f))
    &&& around_fits(stage, program.function_given(f), around)
}

/// What a program holds and what its frame holds, side by side.
pub open spec fn stays(
    program: Parts,
    loaded: Loaded,
    f: FunctionId,
    held: Held,
    state: State,
) -> bool {
    &&& is_up(state)
    &&& agrees(stage_of(program, loaded, f), held, state)
    &&& held.dom().subset_of(program.function_given(f))
}

/// A function answers as many words as it says.
proof fn an_answer_is_as_long(program: Parts, f: FunctionId)
    requires
        program.wf(),
        f.0 < program.functions.len(),
    ensures
        program.function(f).answers.read(program.signature).len() == program.function(f).answers.len,
        program.values(program.function(f).params).len() == program.function(f).params.len,
        program.function(f).body.0 < program.regions.len(),
{
    assert(program.function_fits(program.functions[f.0 as int]));
}

/// There are as many results as there are instructions.
proof fn every_op_has_results(program: Parts, region: RegionId)
    requires
        program.wf(),
        region.0 < program.regions.len(),
    ensures
        program.region_ops(region).len() == program.region_results(region).len(),
{
    assert(program.region_fits(program.regions[region.0 as int]));
}

/// A choice asks what its condition comes to, and goes to the arm for it.
proof fn asking_tells(
    loaded: Loaded,
    stage: Stage,
    mine: Set<ValueId>,
    work: Work,
    condition: ValueId,
    held: Held,
    state: State,
) -> (after: State)
    requires
        loaded.is_sound(),
        stage.works(work),
        is_up(state),
        are_apart(stage.source, stage.frame, mine),
        agrees(stage, held, state),
        held.dom().contains(condition),
        mine.contains(condition),
        flow::is_within(work.code),
        !flow::asked(stage.machine, work, condition).code.failed,
        flow::grows(flow::asked(stage.machine, work, condition).code, loaded.listing),
    ensures
        loaded.comes(
            flow::end_of(work.code),
            state,
            Came::At(
                if held[condition] == 0 {
                    loaded.place_of(work.code.next())
                } else {
                    flow::end_of(flow::asked(stage.machine, work, condition).code)
                },
                after,
            ),
        ),
        keeps_frames(state, after),
{
    let machine = stage.machine;
    let start = flow::labelled(work);
    let read = machine.read(start, T0, condition);
    let tested = read.code.lda_zp(T0).ora_zp(T0_HIGH);
    let end = flow::asked(machine, work, condition);
    slots_are_whole(stage, start, mine, condition);
    flow::labels_go_further(work);
    flow::what_grows_stays_within(work.code, start.code);
    flow::reading_grows(machine, start, T0, condition);
    flow::plain_grows(read.code, tested);
    flow::a_branch_grows(tested, Cc::Equal, work.code.next());
    flow::growth_chains(tested, end.code, loaded.listing);
    flow::growth_chains(read.code, tested, loaded.listing);
    flow::what_grows_stays_within(start.code, read.code);
    flow::what_grows_stays_within(read.code, tested);
    let by = machine::a_value_is_read(machine, start, T0, condition, state);
    what_is_read_is_held(stage, start, T0, condition, held, state);
    let after = flow::a_test_tells(read.code, by);
    flow::straight_code_reaches(
        start.code,
        read.code,
        loaded.listing,
        loaded.code,
        state,
        by,
    );
    flow::straight_code_reaches(
        read.code,
        tested,
        loaded.listing,
        loaded.code,
        by,
        after,
    );
    flow::a_branch_reaches(
        tested,
        Cc::Equal,
        work.code.next(),
        loaded.listing,
        loaded.code,
        after,
    );
    machine::leading_stays(start.code, read.code, state, by);
    machine::leading_stays(read.code, tested, by, after);
    let came = Came::At(
        if held[condition] == 0 {
            loaded.place_of(work.code.next())
        } else {
            flow::end_of(end.code)
        },
        after,
    );
    let at = flow::end_of(work.code);
    coming_chains(
        loaded,
        at,
        state,
        flow::end_of(read.code),
        by,
        Came::At(flow::end_of(tested), after),
    );
    coming_chains(loaded, at, state, flow::end_of(tested), after, came);
    assert forall|i: int| 0x100 <= i < machine::size() implies #[trigger] after.memory[i]
        == state.memory[i] by {
        assert(by.memory[i] == state.memory[i]);
    }
    assert(by.memory[FP as int] == state.memory[FP as int]);
    assert(by.memory[FP + 1] == state.memory[FP + 1]);
    after
}

/// What leaves more than one region leaves the inner and the outer.
proof fn meeting_widens(
    loaded: Loaded,
    stage: Stage,
    mine: Set<ValueId>,
    within: Around,
    around: Around,
    inner: Set<ValueId>,
    touched: Set<ValueId>,
    left: Left,
    at: int,
    state: State,
    came: Came,
)
    requires
        meets(loaded, stage, mine, within, inner, left, at, state, came),
        !(left is Yields),
        left is Continues || left is Breaks ==> within.repeat == around.repeat,
        inner.subset_of(touched),
    ensures
        meets(loaded, stage, mine, around, touched, left, at, state, came),
{
    if !(came is Spent) {
        match left {
            Left::Continues(numbers) => {
                let values = stage.machine.program.values(around.repeat->Some_0.0);
                if numbers.len() == values.len() {
                    assert(is_steady(
                        stage,
                        mine,
                        state,
                        came->At_1,
                        touched.union(ir::order::among(values)),
                    ));
                }
            },
            Left::Breaks(numbers) => {
                let values = stage.machine.program.values(around.repeat->Some_0.2);
                if numbers.len() == values.len() {
                    assert(is_steady(
                        stage,
                        mine,
                        state,
                        came->At_1,
                        touched.union(ir::order::among(values)),
                    ));
                }
            },
            _ => {},
        }
    }
}

/// A choice is left as its arm is.
proof fn a_choice_is_met(
    loaded: Loaded,
    stage: Stage,
    mine: Set<ValueId>,
    around: Around,
    inner: Set<ValueId>,
    touched: Set<ValueId>,
    work: Work,
    next: Work,
    results: Range,
    held: Held,
    left: Left,
    step: Step,
    state: State,
    came: Came,
)
    requires
        agrees(stage, held, state),
        held.dom().subset_of(mine),
        held.dom().disjoint(touched),
        stage.machine.program.values(results).no_duplicates(),
        inner.union(ir::order::among(stage.machine.program.values(results))).subset_of(touched),
        loaded.place_of(work.code.label().next()) == flow::end_of(next.code),
        meets(
            loaded,
            stage,
            mine,
            flow::inside_if(work, around, results),
            inner,
            left,
            flow::end_of(work.code),
            state,
            came,
        ),
        match left {
            Left::Yields(numbers) => {
                &&& numbers.len() == stage.machine.program.values(results).len()
                &&& step == Step::Goes(
                    ir::machine::defined(held, stage.machine.program.values(results), numbers),
                )
            },
            _ => step == Step::Leaves(left),
        },
    ensures
        does(
            loaded,
            stage,
            mine,
            around,
            touched,
            held,
            step,
            flow::end_of(work.code),
            state,
            next,
            came,
        ),
{
    let places = stage.machine.program.values(results);
    if !(came is Spent) {
        match left {
            Left::Yields(numbers) => {
                let after = came->At_1;
                let free = inner.union(ir::order::among(places));
                assert(is_steady(stage, mine, state, after, touched));
                agreement_stays(stage, mine, held, state, after, touched);
                what_is_defined_agrees(stage, held, places, numbers, after);
                let then = ir::machine::defined(held, places, numbers);
                assert(then.dom().subset_of(held.dom().union(touched))) by {
                    assert forall|v: ValueId| then.dom().contains(v) implies held.dom().union(
                        touched,
                    ).contains(v) by {
                        if places.contains(v) {
                            assert(ir::order::among(places).contains(v));
                            assert(free.contains(v));
                        }
                    }
                }
            },
            _ => {
                meeting_widens(
                    loaded,
                    stage,
                    mine,
                    flow::inside_if(work, around, results),
                    around,
                    inner,
                    touched,
                    left,
                    flow::end_of(work.code),
                    state,
                    came,
                );
            },
        }
    }
}

/// Whether going round comes to what the program's does: it is broken out of,
/// the function is left,
/// or there was no room left for a call.
pub open spec fn round_meets(
    loaded: Loaded,
    stage: Stage,
    mine: Set<ValueId>,
    around: Around,
    touched: Set<ValueId>,
    results: Range,
    label: Label,
    left: Left,
    at: int,
    state: State,
    came: Came,
) -> bool {
    if came is Spent {
        loaded.comes(at, state, came)
    } else {
        match left {
            Left::Breaks(numbers) => numbers.len() == stage.machine.program.values(results).len()
                ==> lands(
                loaded,
                stage,
                mine,
                touched,
                label,
                stage.machine.program.values(results),
                numbers,
                at,
                state,
                came,
            ),
            Left::Answers(_) => meets(
                loaded,
                stage,
                mine,
                around,
                touched,
                left,
                at,
                state,
                came,
            ),
            Left::Asks(_, _) => meets(
                loaded,
                stage,
                mine,
                around,
                touched,
                left,
                at,
                state,
                came,
            ),
            _ => false,
        }
    }
}

/// Once round a loop.
proof fn once_round(
    loaded: Loaded,
    stage: Stage,
    mine: Set<ValueId>,
    around: Around,
    within: Around,
    inner: Set<ValueId>,
    touched: Set<ValueId>,
    results: Range,
    label: Label,
    left: Left,
    at: int,
    state: State,
    came: Came,
)
    requires
        !(came is Spent) ==> !(left is Continues) && !(left is Yields),
        inner.subset_of(touched),
        within.repeat is Some,
        within.repeat->Some_0.2 == results,
        within.repeat->Some_0.3 == label,
        meets(loaded, stage, mine, within, inner, left, at, state, came),
    ensures
        round_meets(
            loaded,
            stage,
            mine,
            around,
            touched,
            results,
            label,
            left,
            at,
            state,
            came,
        ),
{
    if !(came is Spent) {
        match left {
            Left::Breaks(numbers) => {
                let places = stage.machine.program.values(results);
                if numbers.len() == places.len() {
                    assert(is_steady(
                        stage,
                        mine,
                        state,
                        came->At_1,
                        touched.union(ir::order::among(places)),
                    ));
                }
            },
            _ => {
                meeting_widens(
                    loaded,
                    stage,
                    mine,
                    within,
                    around,
                    inner,
                    touched,
                    left,
                    at,
                    state,
                    came,
                );
            },
        }
    }
}

/// Round a loop again.
proof fn round_again(
    loaded: Loaded,
    stage: Stage,
    mine: Set<ValueId>,
    around: Around,
    one: Set<ValueId>,
    touched: Set<ValueId>,
    results: Range,
    label: Label,
    left: Left,
    at: int,
    state: State,
    mid_at: int,
    mid: State,
    came: Came,
)
    requires
        one.subset_of(touched),
        loaded.comes(at, state, Came::At(mid_at, mid)),
        is_steady(stage, mine, state, mid, one),
        is_up(state),
        round_meets(
            loaded,
            stage,
            mine,
            around,
            touched,
            results,
            label,
            left,
            mid_at,
            mid,
            came,
        ),
    ensures
        round_meets(
            loaded,
            stage,
            mine,
            around,
            touched,
            results,
            label,
            left,
            at,
            state,
            came,
        ),
{
    if came is Spent {
        coming_chains(loaded, at, state, mid_at, mid, came);
    } else {
        match left {
            Left::Breaks(numbers) => {
                let places = stage.machine.program.values(results);
                if numbers.len() == places.len() {
                    landing_chains(
                        loaded,
                        stage,
                        mine,
                        one,
                        touched,
                        touched,
                        label,
                        places,
                        numbers,
                        at,
                        state,
                        mid_at,
                        mid,
                        came,
                    );
                }
            },
            _ => {
                ending_chains(
                    loaded,
                    stage,
                    mine,
                    around,
                    one,
                    touched,
                    touched,
                    left,
                    at,
                    state,
                    mid_at,
                    mid,
                    came,
                );
            },
        }
    }
}

/// A loop is left as the program leaves it.
proof fn a_whole_loop_is_met(
    loaded: Loaded,
    stage: Stage,
    mine: Set<ValueId>,
    around: Around,
    inner: Set<ValueId>,
    touched: Set<ValueId>,
    work: Work,
    next: Work,
    results: Range,
    held: Held,
    left: Left,
    step: Step,
    state: State,
    came: Came,
)
    requires
        agrees(stage, held, state),
        held.dom().subset_of(mine),
        held.dom().disjoint(touched),
        stage.machine.program.values(results).no_duplicates(),
        inner.union(ir::order::among(stage.machine.program.values(results))).subset_of(touched),
        loaded.place_of(work.code.label().next()) == flow::end_of(next.code),
        round_meets(
            loaded,
            stage,
            mine,
            around,
            inner,
            results,
            work.code.label().next(),
            left,
            flow::end_of(work.code),
            state,
            came,
        ),
        match left {
            Left::Breaks(numbers) => {
                &&& numbers.len() == stage.machine.program.values(results).len()
                &&& step == Step::Goes(
                    ir::machine::defined(held, stage.machine.program.values(results), numbers),
                )
            },
            _ => step == Step::Leaves(left),
        },
    ensures
        does(
            loaded,
            stage,
            mine,
            around,
            touched,
            held,
            step,
            flow::end_of(work.code),
            state,
            next,
            came,
        ),
{
    let places = stage.machine.program.values(results);
    if !(came is Spent) {
        match left {
            Left::Breaks(numbers) => {
                let after = came->At_1;
                let free = inner.union(ir::order::among(places));
                assert(is_steady(stage, mine, state, after, touched));
                agreement_stays(stage, mine, held, state, after, touched);
                what_is_defined_agrees(stage, held, places, numbers, after);
                let then = ir::machine::defined(held, places, numbers);
                assert(then.dom().subset_of(held.dom().union(touched))) by {
                    assert forall|v: ValueId| then.dom().contains(v) implies held.dom().union(
                        touched,
                    ).contains(v) by {
                        if places.contains(v) {
                            assert(ir::order::among(places).contains(v));
                            assert(free.contains(v));
                        }
                    }
                }
            },
            _ => {
                meeting_widens(
                    loaded,
                    stage,
                    mine,
                    around,
                    around,
                    inner,
                    touched,
                    left,
                    flow::end_of(work.code),
                    state,
                    came,
                );
            },
        }
    }
}

/// An instruction does what the program says it does.
#[verifier::spinoff_prover]
proof fn an_op_is_met(
    program: Parts,
    loaded: Loaded,
    f: FunctionId,
    work: Work,
    around: Around,
    region: RegionId,
    at: int,
    held: Held,
    step: Step,
    state: State,
    fuel: nat,
) -> (came: Came)
    requires
        program_stands(program, loaded),
        f.0 < program.functions.len(),
        region_stands(program, loaded, f, work, around, region, at),
        at < program.region_ops(region).len(),
        stays(program, loaded, f, held, state),
        held.dom().disjoint(program.given(region, at)),
        program.op_runs(
            host(program),
            program.region_ops(region)[at],
            program.values(program.region_results(region)[at]),
            held,
            fuel,
        ) == Some(step),
    ensures
        does(
            loaded,
            stage_of(program, loaded, f),
            program.function_given(f),
            around,
            program.op_given(region, at),
            held,
            step,
            flow::end_of(work.code),
            state,
            flow::op_work(stage_of(program, loaded, f).machine, work, around, region, at),
            came,
        ),
    decreases fuel, 1nat, 0int,
{
    let stage = stage_of(program, loaded, f);
    let mine = program.function_given(f);
    let op = program.region_ops(region)[at];
    let run = program.region_results(region)[at];
    let results = program.values(run);
    let next = flow::op_work(stage.machine, work, around, region, at);
    let end = stage.machine.region(work, around, region, at);
    a_stage_is_its_programs(program, loaded, f);
    assert(function_stands(program, loaded, f));
    assert(program.op_is_single(region, at));
    ir::order::an_op_is_in_order(program, region, at);
    an_op_is_modest(program, region, at);
    assert(op_is_laid(program, stage.source, region, at));
    ir::model::inside(program, region, at);
    assert(end == stage.machine.region(next, around, region, at + 1));
    flow::an_op_grows(stage.machine, work, around, region, at);
    flow::a_region_grows(stage.machine, next, around, region, at + 1);
    flow::settling_splits(work, next, end, loaded.listing);
    assert(program.op_given(region, at).subset_of(program.given(region, at)));
    assert(program.op_given(region, at).subset_of(mine));
    assert(held.dom().disjoint(program.op_given(region, at)));
    assert(ir::order::among(results).subset_of(program.op_given(region, at)));
    assert(ir::order::among(results).subset_of(mine));
    assert(ir::order::among(results).disjoint(held.dom()));
    match op {
        Op::If { .. } => a_choice_follows(
            program,
            loaded,
            f,
            work,
            around,
            region,
            at,
            held,
            step,
            state,
            fuel,
        ),
        Op::Loop { .. } => a_loop_follows(
            program,
            loaded,
            f,
            work,
            around,
            region,
            at,
            held,
            step,
            state,
            fuel,
        ),
        Op::Call { function, args } => {
            a_call_follows(
                program,
                loaded,
                f,
                work,
                around,
                function,
                args,
                results,
                held,
                step,
                state,
                fuel,
            )
        },
        Op::PlatformCall { platform, args } => a_platform_call_is_met(
            loaded,
            stage,
            mine,
            around,
            program.op_given(region, at),
            work,
            platform,
            args,
            results,
            held,
            step,
            state,
            fuel,
        ),
        Op::AddressOf(data) => {
            assert(data.0 < program.spans.len());
            assert(host(program).places[data] == stage.machine.address(data));
            assert(step == Step::Goes(
                ir::machine::defined(held, results, seq![stage.machine.address(data)]),
            ));
            an_address_is_done(loaded, stage, mine, around, work, data, results, held, state)
        },
        Op::Load { .. } => Came::Stops(0),
        Op::Store { .. } => Came::Stops(0),
        _ => a_simple_one_is_met(
            loaded,
            host(program),
            stage,
            mine,
            around,
            work,
            op,
            results,
            held,
            step,
            state,
            fuel,
        ),
    }
}

/// A caller goes on, with what is answered.
proof fn a_caller_goes_on(
    loaded: Loaded,
    stage: Stage,
    mine: Set<ValueId>,
    called: Work,
    results: Seq<ValueId>,
    numbers: Seq<nat>,
    state: State,
    by: State,
    entry: State,
    next: int,
    back: State,
) -> (after: State)
    requires
        loaded.is_sound(),
        stage.works(called),
        is_up(state),
        are_apart(stage.source, stage.frame, mine),
        flow::is_within(called.code),
        keeps_frames(state, by),
        entry.limit == by.limit,
        entry.top == by.top - 2,
        entry.memory.len() == by.memory.len(),
        machine::frame(entry.memory) == machine::frame(by.memory),
        forall|i: int|
            0x101 + by.top <= i < machine::size() ==> #[trigger] entry.memory[i] == by.memory[i],
        goes_back(0, loaded.listing.origin as int, entry, numbers, next, back),
        results.len() <= 1,
        results.len() == numbers.len(),
        ir::order::among(results).subset_of(mine),
        results.len() > 0 ==> !called.write_slot(results[0], R0).code.failed && flow::grows(
            called.write_slot(results[0], R0).code,
            loaded.listing,
        ),
    ensures
        loaded.comes(
            flow::end_of(called.code),
            back,
            Came::At(
                flow::end_of(
                    if results.len() > 0 {
                        called.write_slot(results[0], R0).code
                    } else {
                        called.code
                    },
                ),
                after,
            ),
        ),
        is_steady(stage, mine, state, after, ir::order::among(results)),
        all_right(stage, results, numbers, after),
{
    assert forall|i: int| machine::frame(by.memory) <= i < machine::size() implies
        #[trigger] back.memory[i] == by.memory[i] by {
        assert(back.memory[i] == entry.memory[i]);
        assert(entry.memory[i] == by.memory[i]);
    }
    assert forall|i: int| 0x101 + by.top <= i < 0x200 implies #[trigger] back.memory[i]
        == by.memory[i] by {
        assert(back.memory[i] == entry.memory[i]);
        assert(entry.memory[i] == by.memory[i]);
    }
    coming_back_is_steady(stage, mine, state, by, back);
    let after = if results.len() > 0 {
        assert(ir::order::among(results).contains(results[0]));
        let after = an_answer_is_taken(
            loaded,
            stage,
            mine,
            called,
            results[0],
            numbers[0],
            back,
        );
        assert(seq![results[0]] =~= results);
        after
    } else {
        flow::staying_reaches(
            loaded.code,
            loaded.listing.origin as int,
            flow::end_of(called.code),
            back,
        );
        back
    };
    steadiness_chains(
        stage,
        mine,
        state,
        back,
        after,
        Set::empty(),
        ir::order::among(results),
        ir::order::among(results),
    );
    after
}

/// A call comes to what the program says it does.
#[verifier::rlimit(80)]
#[verifier::spinoff_prover]
proof fn a_call_follows(
    program: Parts,
    loaded: Loaded,
    f: FunctionId,
    work: Work,
    around: Around,
    function: FunctionId,
    args: Range,
    results: Seq<ValueId>,
    held: Held,
    step: Step,
    state: State,
    fuel: nat,
) -> (came: Came)
    requires
        program_stands(program, loaded),
        f.0 < program.functions.len(),
        function.0 < program.functions.len(),
        stage_of(program, loaded, f).works(work),
        stays(program, loaded, f, held, state),
        flow::is_within(work.code),
        results.no_duplicates(),
        results.len() <= 1,
        ir::order::among(results).subset_of(program.function_given(f)),
        ir::order::among(results).disjoint(held.dom()),
        !stage_of(program, loaded, f).machine.simple(
            work,
            Op::Call { function, args },
            results,
        ).code.failed,
        flow::grows(
            stage_of(program, loaded, f).machine.simple(
                work,
                Op::Call { function, args },
                results,
            ).code,
            loaded.listing,
        ),
        program.op_runs(
            host(program),
            Op::Call { function, args },
            results,
            held,
            fuel,
        ) == Some(step),
    ensures
        does(
            loaded,
            stage_of(program, loaded, f),
            program.function_given(f),
            around,
            ir::order::among(results),
            held,
            step,
            flow::end_of(work.code),
            state,
            stage_of(program, loaded, f).machine.simple(
                work,
                Op::Call { function, args },
                results,
            ),
            came,
        ),
    decreases fuel, 0nat, 0int,
{
    let stage = stage_of(program, loaded, f);
    let mine = program.function_given(f);
    let values = program.values(args);
    let label = Label(function.0 as usize);
    let next = stage.machine.simple(work, Op::Call { function, args }, results);
    a_stage_is_its_programs(program, loaded, f);
    assert(function_stands(program, loaded, f));
    let numbers = ir::machine::read(held, values)->Some_0;
    let less = (fuel - 1) as nat;
    let left = program.function_runs(host(program), function, numbers, less)->Some_0;
    let passed = stage.machine.pass_args(work, values, 0);
    let called = Work { code: passed.code.jsr(label), ..passed };
    flow::passing_extends(stage.machine, work, values, 0);
    flow::a_call_grows(passed.code, label);
    flow::what_grows_stays_within(work.code, passed.code);
    flow::what_grows_stays_within(passed.code, called.code);
    if results.len() > 0 {
        flow::keeping_grows(called, results[0], R0);
        flow::growth_chains(called.code, next.code, loaded.listing);
    }
    let by = a_call_is_made(loaded, stage, mine, work, function, values, held, numbers, state);
    let entry = by.push(loaded.listing.origin + flow::end_of(passed.code) + 2);
    let at = flow::end_of(work.code);
    let place = loaded.place_of(label);
    let reply = if has_room(entry) {
        a_function_is_met(program, loaded, function, numbers, left, entry, less)
    } else {
        Came::Spent
    };
    if !has_room(entry) {
        assert(loaded.reaches(at, state, flow::end_of(passed.code), by));
        assert(loaded.is_spent(flow::end_of(passed.code), by));
        reply
    } else if reply is Spent {
        coming_chains(loaded, at, state, place, entry, reply);
        reply
    } else {
        match left {
            Left::Answers(answered) => {
                let back = reply->At_1;
                coming_chains(loaded, at, state, place, entry, reply);
                assert(reply->At_0 == flow::end_of(called.code));
                assert(ir::order::among(results).subset_of(mine));
                let after = a_caller_goes_on(
                    loaded,
                    stage,
                    mine,
                    called,
                    results,
                    answered,
                    state,
                    by,
                    entry,
                    reply->At_0,
                    back,
                );
                let came = Came::At(flow::end_of(next.code), after);
                coming_chains(loaded, at, state, flow::end_of(called.code), back, came);
                what_is_set_is_done(
                    loaded,
                    stage,
                    mine,
                    around,
                    work,
                    next,
                    results,
                    held,
                    answered,
                    state,
                    came,
                );
                came
            },
            Left::Asks(platform, asked) => {
                if is_exit(program, platform) {
                    coming_chains(loaded, at, state, place, entry, reply);
                }
                reply
            },
            _ => reply,
        }
    }
}

#[verifier::spinoff_prover]
proof fn a_choice_follows(
    program: Parts,
    loaded: Loaded,
    f: FunctionId,
    work: Work,
    around: Around,
    region: RegionId,
    at: int,
    held: Held,
    step: Step,
    state: State,
    fuel: nat,
) -> (came: Came)
    requires
        program_stands(program, loaded),
        f.0 < program.functions.len(),
        region_stands(program, loaded, f, work, around, region, at),
        at < program.region_ops(region).len(),
        program.region_ops(region)[at] is If,
        stays(program, loaded, f, held, state),
        held.dom().disjoint(program.given(region, at)),
        program.op_runs(
            host(program),
            program.region_ops(region)[at],
            program.values(program.region_results(region)[at]),
            held,
            fuel,
        ) == Some(step),
        !flow::op_work(stage_of(program, loaded, f).machine, work, around, region, at).code.failed,
        flow::is_settled(
            work,
            flow::op_work(stage_of(program, loaded, f).machine, work, around, region, at),
            loaded.listing,
        ),
    ensures
        does(
            loaded,
            stage_of(program, loaded, f),
            program.function_given(f),
            around,
            program.op_given(region, at),
            held,
            step,
            flow::end_of(work.code),
            state,
            flow::op_work(stage_of(program, loaded, f).machine, work, around, region, at),
            came,
        ),
    decreases fuel, 0nat, 0int,
{
    let stage = stage_of(program, loaded, f);
    let mine = program.function_given(f);
    let run = program.region_results(region)[at];
    let results = program.values(run);
    let given = program.op_given(region, at);
    let next = flow::op_work(stage.machine, work, around, region, at);
    a_stage_is_its_programs(program, loaded, f);
    assert(function_stands(program, loaded, f));
    assert(given.subset_of(program.given(region, at)));
    let condition = program.region_ops(region)[at]->condition;
    let then_region = program.region_ops(region)[at]->then_region;
    let else_region = program.region_ops(region)[at]->else_region;
    assert(op_is_laid(program, stage.source, region, at));
    assert(program.op_is_single(region, at));
    flow::a_choice_is_laid(stage.machine, work, around, region, at, loaded.listing);
    let within = flow::inside_if(work, around, run);
    let tested = flow::asked(stage.machine, work, condition);
    let then = stage.machine.region(tested, within, then_region, 0);
    let turned = flow::turned(work, then);
    let other = stage.machine.region(turned, within, else_region, 0);
    let number = ir::machine::read(held, seq![condition])->Some_0[0];
    assert(held.dom().contains(seq![condition][0]));
    assert(number == held[condition]);
    assert(mine.contains(condition));
    assert(!tested.code.failed);
    let less = (fuel - 1) as nat;
    let taken = if number != 0 {
        then_region
    } else {
        else_region
    };
    let start = if number != 0 {
        tested
    } else {
        turned
    };
    let here = asking_tells(loaded, stage, mine, work, condition, held, state);
    keeping_is_steady(stage, mine, state, here);
    agreement_stays(stage, mine, held, state, here, Set::empty());
    let left = program.region_runs(host(program), taken, held, less)->Some_0;
    every_op_has_results(program, taken);
    ir::order::a_region_runs_from_its_start(program, host(program), taken, held, less);
    assert(program.entered(taken).subset_of(given));
    assert(program.given(taken, 0).subset_of(program.entered(taken)));
    assert(program.given(taken, 0).subset_of(mine));
    assert(ir::order::among(results).subset_of(given));
    assert(around_fits(stage, mine, within));
    assert(region_stands(program, loaded, f, start, within, taken, 0));
    let came = a_region_is_met(
        program,
        loaded,
        f,
        start,
        within,
        taken,
        0,
        held,
        left,
        here,
        less,
    );
    let inner = program.given(taken, 0);
    ending_chains(
        loaded,
        stage,
        mine,
        within,
        Set::empty(),
        inner,
        inner,
        left,
        flow::end_of(work.code),
        state,
        flow::end_of(start.code),
        here,
        came,
    );
    assert(inner.union(ir::order::among(results)).subset_of(given));
    a_choice_is_met(
        loaded,
        stage,
        mine,
        around,
        inner,
        given,
        work,
        next,
        run,
        held,
        left,
        step,
        state,
        came,
    );
    came
}

#[verifier::spinoff_prover]
proof fn a_loop_follows(
    program: Parts,
    loaded: Loaded,
    f: FunctionId,
    work: Work,
    around: Around,
    region: RegionId,
    at: int,
    held: Held,
    step: Step,
    state: State,
    fuel: nat,
) -> (came: Came)
    requires
        program_stands(program, loaded),
        f.0 < program.functions.len(),
        region_stands(program, loaded, f, work, around, region, at),
        at < program.region_ops(region).len(),
        program.region_ops(region)[at] is Loop,
        stays(program, loaded, f, held, state),
        held.dom().disjoint(program.given(region, at)),
        program.op_runs(
            host(program),
            program.region_ops(region)[at],
            program.values(program.region_results(region)[at]),
            held,
            fuel,
        ) == Some(step),
        !flow::op_work(stage_of(program, loaded, f).machine, work, around, region, at).code.failed,
        flow::is_settled(
            work,
            flow::op_work(stage_of(program, loaded, f).machine, work, around, region, at),
            loaded.listing,
        ),
    ensures
        does(
            loaded,
            stage_of(program, loaded, f),
            program.function_given(f),
            around,
            program.op_given(region, at),
            held,
            step,
            flow::end_of(work.code),
            state,
            flow::op_work(stage_of(program, loaded, f).machine, work, around, region, at),
            came,
        ),
    decreases fuel, 0nat, 0int,
{
    let stage = stage_of(program, loaded, f);
    let mine = program.function_given(f);
    let run = program.region_results(region)[at];
    let results = program.values(run);
    let given = program.op_given(region, at);
    let next = flow::op_work(stage.machine, work, around, region, at);
    a_stage_is_its_programs(program, loaded, f);
    assert(function_stands(program, loaded, f));
    assert(given.subset_of(program.given(region, at)));
    let initial = program.region_ops(region)[at]->initial;
    let body = program.region_ops(region)[at]->body;
    let places = program.values(program.region(body).params);
    assert(op_is_laid(program, stage.source, region, at));
    assert(program.op_is_single(region, at));
    ir::order::an_op_is_in_order(program, region, at);
    assert(program.inside_is_single(body));
    ir::model::inside(program, region, at);
    assert(ir::model::children(program.region_ops(region)[at])[0] == body);
    flow::a_loop_is_laid(stage.machine, work, around, region, at, loaded.listing);
    let within = flow::inside_loop(stage.machine, work, around, run, body);
    let open = flow::labelled(work);
    let moved = stage.machine.transfer(open, program.values(initial), places);
    let start = flow::entered(stage.machine, work, initial, body);
    let numbers = ir::machine::read(held, program.values(initial))->Some_0;
    let less = (fuel - 1) as nat;
    let left = program.loop_runs(host(program), body, held, numbers, less)->Some_0;
    let inner = program.entered(body);
    assert(inner.subset_of(given));
    assert(ir::order::among(places).subset_of(inner));
    assert(ir::order::among(places).subset_of(mine));
    assert(ir::order::among(results).subset_of(given));
    assert(program.given(body, 0).subset_of(inner));
    assert(around_fits(stage, mine, within));
    assert(region_stands(program, loaded, f, start, within, body, 0));
    assert(flow::is_within(open.code)) by {
        flow::labels_go_further(work);
        flow::what_grows_stays_within(work.code, open.code);
    }
    flow::a_transfer_extends(stage.machine, open, program.values(initial), places);
    flow::labels_go_further(work);
    flow::binding_grows(moved.code, work.code.next());
    flow::growth_chains(moved.code, start.code, loaded.listing);
    let mid = a_transfer_hands_over(
        loaded,
        stage,
        mine,
        open,
        program.values(initial),
        places,
        held,
        numbers,
        state,
    );
    agreement_stays(stage, mine, held, state, mid, ir::order::among(places));
    let came = a_loop_is_met(
        program,
        loaded,
        f,
        start,
        around,
        within,
        body,
        run,
        work.code.label().next(),
        held,
        numbers,
        left,
        mid,
        less,
    );
    round_again(
        loaded,
        stage,
        mine,
        around,
        ir::order::among(places),
        inner,
        run,
        work.code.label().next(),
        left,
        flow::end_of(work.code),
        state,
        flow::end_of(start.code),
        mid,
        came,
    );
    assert(inner.union(ir::order::among(results)).subset_of(given));
    a_whole_loop_is_met(
        loaded,
        stage,
        mine,
        around,
        inner,
        given,
        work,
        next,
        run,
        held,
        left,
        step,
        state,
        came,
    );
    came
}

/// Going round does what the program says it does.
#[verifier::spinoff_prover]
proof fn a_loop_is_met(
    program: Parts,
    loaded: Loaded,
    f: FunctionId,
    start: Work,
    around: Around,
    within: Around,
    body: RegionId,
    run: Range,
    label: Label,
    held: Held,
    numbers: Seq<nat>,
    left: Left,
    state: State,
    fuel: nat,
) -> (came: Came)
    requires
        program_stands(program, loaded),
        f.0 < program.functions.len(),
        region_stands(program, loaded, f, start, within, body, 0),
        within.repeat is Some,
        within.repeat->Some_0.0 == program.region(body).params,
        loaded.place_of(within.repeat->Some_0.1) == flow::end_of(start.code),
        within.repeat->Some_0.2 == run,
        within.repeat->Some_0.3 == label,
        program.inside_is_single(body),
        program.region(body).terminator.exit != Exit::Yield,
        program.entered(body).subset_of(program.function_given(f)),
        stays(program, loaded, f, held, state),
        held.dom().disjoint(program.entered(body)),
        all_right(
            stage_of(program, loaded, f),
            program.values(program.region(body).params),
            numbers,
            state,
        ),
        program.loop_runs(host(program), body, held, numbers, fuel) == Some(left),
    ensures
        round_meets(
            loaded,
            stage_of(program, loaded, f),
            program.function_given(f),
            around,
            program.entered(body),
            run,
            label,
            left,
            flow::end_of(start.code),
            state,
            came,
        ),
    decreases fuel, 3nat, 0int,
{
    let stage = stage_of(program, loaded, f);
    let mine = program.function_given(f);
    let places = program.values(program.region(body).params);
    let inner = program.given(body, 0);
    let touched = program.entered(body);
    let at = flow::end_of(start.code);
    a_stage_is_its_programs(program, loaded, f);
    assert(inner.subset_of(touched));
    assert(ir::order::among(places).subset_of(touched));
    assert(inner.union(ir::order::among(places)).subset_of(touched));
    let here = ir::machine::defined(held, places, numbers);
    what_is_defined_agrees(stage, held, places, numbers, state);
    assert(here.dom().subset_of(mine) && here.dom().disjoint(inner)) by {
        assert forall|v: ValueId| here.dom().contains(v) implies mine.contains(v)
            && !inner.contains(v) by {
            if places.contains(v) {
                assert(ir::order::among(places).contains(v));
            }
        }
    }
    every_op_has_results(program, body);
    ir::order::a_region_runs_from_its_start(program, host(program), body, here, fuel);
    let one = program.region_runs(host(program), body, here, fuel)->Some_0;
    let first = a_region_is_met(
        program,
        loaded,
        f,
        start,
        within,
        body,
        0,
        here,
        one,
        state,
        fuel,
    );
    if first is Spent {
        first
    } else {
        match one {
            Left::Continues(more) => {
                let mid = first->At_1;
                let less = (fuel - 1) as nat;
                assert(program.loop_runs(host(program), body, held, more, less) == Some(left));
                assert(more.len() == places.len());
                steadiness_is_up(
                    stage,
                    mine,
                    state,
                    mid,
                    inner.union(ir::order::among(places)),
                );
                agreement_stays(
                    stage,
                    mine,
                    held,
                    state,
                    mid,
                    inner.union(ir::order::among(places)),
                );
                let came = a_loop_is_met(
                    program,
                    loaded,
                    f,
                    start,
                    around,
                    within,
                    body,
                    run,
                    label,
                    held,
                    more,
                    left,
                    mid,
                    less,
                );
                round_again(
                    loaded,
                    stage,
                    mine,
                    around,
                    inner.union(ir::order::among(places)),
                    touched,
                    run,
                    label,
                    left,
                    at,
                    state,
                    at,
                    mid,
                    came,
                );
                came
            },
            _ => {
                once_round(
                    loaded,
                    stage,
                    mine,
                    around,
                    within,
                    inner,
                    touched,
                    run,
                    label,
                    left,
                    at,
                    state,
                    first,
                );
                first
            },
        }
    }
}

/// A region ends as the program says it does.
#[verifier::spinoff_prover]
proof fn a_region_is_met(
    program: Parts,
    loaded: Loaded,
    f: FunctionId,
    work: Work,
    around: Around,
    region: RegionId,
    from: int,
    held: Held,
    left: Left,
    state: State,
    fuel: nat,
) -> (came: Came)
    requires
        program_stands(program, loaded),
        f.0 < program.functions.len(),
        region_stands(program, loaded, f, work, around, region, from),
        stays(program, loaded, f, held, state),
        held.dom().disjoint(program.given(region, from)),
        program.rest_runs(host(program), region, from, held, fuel) == Some(left),
    ensures
        !(came is Spent) && left is Yields ==> program.region(region).terminator.exit
            == Exit::Yield,
        meets(
            loaded,
            stage_of(program, loaded, f),
            program.function_given(f),
            around,
            program.given(region, from),
            left,
            flow::end_of(work.code),
            state,
            came,
        ),
    decreases fuel, 2nat, program.region_ops(region).len() - from,
{
    let stage = stage_of(program, loaded, f);
    let mine = program.function_given(f);
    let ops = program.region_ops(region);
    a_stage_is_its_programs(program, loaded, f);
    assert(function_stands(program, loaded, f));
    an_answer_is_as_long(program, f);
    if from >= ops.len() {
        let came = an_end_is_met(
            loaded,
            stage,
            mine,
            work,
            around,
            region,
            held,
            left,
            state,
        );
        assert(program.given(region, from) =~= Set::empty());
        came
    } else {
        let next = flow::op_work(stage.machine, work, around, region, from);
        let end = stage.machine.region(work, around, region, from);
        let one = program.op_given(region, from);
        let other = program.given(region, from + 1);
        let both = program.given(region, from);
        let step = program.op_runs(
            host(program),
            ops[from],
            program.values(program.region_results(region)[from]),
            held,
            fuel,
        )->Some_0;
        let first = an_op_is_met(
            program,
            loaded,
            f,
            work,
            around,
            region,
            from,
            held,
            step,
            state,
            fuel,
        );
        assert(end == stage.machine.region(next, around, region, from + 1));
        flow::an_op_grows(stage.machine, work, around, region, from);
        flow::a_region_grows(stage.machine, next, around, region, from + 1);
        flow::settling_splits(work, next, end, loaded.listing);
        assert(one.subset_of(both) && other.subset_of(both));
        if first is Spent {
            first
        } else {
            match step {
                Step::Goes(then) => {
                    let mid = first->At_1;
                    steadiness_is_up(stage, mine, state, mid, one);
                    assert(region_stands(program, loaded, f, next, around, region, from + 1));
                    assert(then.dom().subset_of(mine) && then.dom().disjoint(other)) by {
                        assert forall|v: ValueId| then.dom().contains(v) implies mine.contains(v)
                            && !other.contains(v) by {
                            assert(held.dom().union(one).contains(v));
                        }
                    }
                    let came = a_region_is_met(
                        program,
                        loaded,
                        f,
                        next,
                        around,
                        region,
                        from + 1,
                        then,
                        left,
                        mid,
                        fuel,
                    );
                    ending_chains(
                        loaded,
                        stage,
                        mine,
                        around,
                        one,
                        other,
                        both,
                        left,
                        flow::end_of(work.code),
                        state,
                        flow::end_of(next.code),
                        mid,
                        came,
                    );
                    came
                },
                Step::Leaves(_) => {
                    meeting_widens(
                        loaded,
                        stage,
                        mine,
                        around,
                        around,
                        one,
                        both,
                        left,
                        flow::end_of(work.code),
                        state,
                        first,
                    );
                    first
                },
            }
        }
    }
}

/// The first `count` parameters have what was passed for them, and nothing but
/// their slots is touched.
spec fn is_taken(
    stage: Stage,
    params: Seq<ValueId>,
    count: int,
    before: State,
    after: State,
) -> bool {
    &&& after.top == before.top
    &&& after.limit == before.limit
    &&& after.memory.len() == before.memory.len()
    &&& forall|i: int|
        0 <= i < count ==> machine::word(after.memory, stage.slot(#[trigger] params[i], before))
            == flow::pair_of(before, (ARGS + 2 * i) as u8)
    &&& forall|at: int|
        0 <= at < machine::size() && !(machine::frame(before.memory) <= at < machine::frame(
            before.memory,
        ) + stage.frame) ==> #[trigger] after.memory[at] == before.memory[at]
}

proof fn an_argument_is_taken(
    loaded: Loaded,
    stage: Stage,
    mine: Set<ValueId>,
    work: Work,
    params: Seq<ValueId>,
    from: int,
    first: State,
    state: State,
) -> (after: State)
    requires
        loaded.is_sound(),
        stage.works(work),
        is_up(first),
        are_apart(stage.source, stage.frame, mine),
        params.no_duplicates(),
        0 <= from < params.len() <= ARG_COUNT,
        is_taken(stage, params, from, first, state),
        forall|i: int| 0 <= i < params.len() ==> mine.contains(#[trigger] params[i]),
        forall|i: int|
            0 <= i < from ==> stage.source[(#[trigger] params[i]).0 as int] is Slot,
        flow::is_within(work.code),
        !work.write_slot(params[from], (ARGS + 2 * from) as u8).code.failed,
        flow::grows(
            work.write_slot(params[from], (ARGS + 2 * from) as u8).code,
            loaded.listing,
        ),
    ensures
        stage.source[params[from].0 as int] is Slot,
        loaded.comes(
            flow::end_of(work.code),
            state,
            Came::At(
                flow::end_of(work.write_slot(params[from], (ARGS + 2 * from) as u8).code),
                after,
            ),
        ),
        is_taken(stage, params, from + 1, first, after),
{
    let pair = (ARGS + 2 * from) as u8;
    let next = work.write_slot(params[from], pair);
    let frame = machine::frame(first.memory);
    slots_are_whole(stage, work, mine, params[from]);
    assert(stage.source[params[from].0 as int] is Slot);
    assert(state.memory[FP as int] == first.memory[FP as int]);
    assert(state.memory[FP + 1] == first.memory[FP + 1]);
    assert(state.memory[pair as int] == first.memory[pair as int]);
    assert(state.memory[pair + 1] == first.memory[pair + 1]);
    let offset = stage.source[params[from].0 as int]->Slot_0;
    let after = machine::a_slot_is_written(work.code, pair, offset, state);
    flow::keeping_grows(work, params[from], pair);
    flow::straight_code_reaches(
        work.code,
        next.code,
        loaded.listing,
        loaded.code,
        state,
        after,
    );
    machine::leading_stays(work.code, next.code, state, after);
    assert forall|i: int| 0 <= i < from + 1 implies machine::word(
        after.memory,
        stage.slot(#[trigger] params[i], first),
    ) == flow::pair_of(first, (ARGS + 2 * i) as u8) by {
        if i < from {
            assert(params[i] != params[from]);
            assert(mine.contains(params[i]) && mine.contains(params[from]));
            assert(lie_apart(stage.source, params[i], params[from]));
            let at = stage.slot(params[i], first);
            assert(after.memory[at] == state.memory[at]);
            assert(after.memory[at + 1] == state.memory[at + 1]);
        }
    }
    assert forall|at: int|
        0 <= at < machine::size() && !(frame <= at < frame + stage.frame) implies
        #[trigger] after.memory[at] == first.memory[at] by {
        assert(after.memory[at] == state.memory[at]);
    }
    after
}

/// A function takes its arguments one after the other.
proof fn arguments_are_taken(
    loaded: Loaded,
    stage: Stage,
    mine: Set<ValueId>,
    work: Work,
    params: Seq<ValueId>,
    from: int,
    first: State,
    state: State,
) -> (after: State)
    requires
        loaded.is_sound(),
        stage.works(work),
        is_up(first),
        are_apart(stage.source, stage.frame, mine),
        params.no_duplicates(),
        0 <= from <= params.len() <= ARG_COUNT,
        is_taken(stage, params, from, first, state),
        forall|i: int| 0 <= i < params.len() ==> mine.contains(#[trigger] params[i]),
        forall|i: int|
            0 <= i < from ==> stage.source[(#[trigger] params[i]).0 as int] is Slot,
        flow::is_within(work.code),
        !stage.machine.take_args(work, params, from).code.failed,
        flow::grows(stage.machine.take_args(work, params, from).code, loaded.listing),
    ensures
        forall|i: int|
            0 <= i < params.len() ==> stage.source[(#[trigger] params[i]).0 as int] is Slot,
        loaded.comes(
            flow::end_of(work.code),
            state,
            Came::At(flow::end_of(stage.machine.take_args(work, params, from).code), after),
        ),
        is_taken(stage, params, params.len() as int, first, after),
    decreases params.len() - from,
{
    let machine = stage.machine;
    if from < params.len() {
        let pair = (ARGS + 2 * from) as u8;
        let next = work.write_slot(params[from], pair);
        let end = machine.take_args(work, params, from);
        assert(end == machine.take_args(next, params, from + 1));
        flow::keeping_grows(work, params[from], pair);
        flow::taking_extends(machine, next, params, from + 1);
        flow::growth_chains(next.code, end.code, loaded.listing);
        flow::what_grows_stays_within(work.code, next.code);
        let mid = an_argument_is_taken(loaded, stage, mine, work, params, from, first, state);
        let after = arguments_are_taken(
            loaded,
            stage,
            mine,
            next,
            params,
            from + 1,
            first,
            mid,
        );
        coming_chains(
            loaded,
            flow::end_of(work.code),
            state,
            flow::end_of(next.code),
            mid,
            Came::At(flow::end_of(end.code), after),
        );
        after
    } else {
        flow::staying_reaches(
            loaded.code,
            loaded.listing.origin as int,
            flow::end_of(work.code),
            state,
        );
        state
    }
}

/// A function begins by opening its frame.
proof fn a_frame_is_opened(program: Parts, loaded: Loaded, f: FunctionId, state: State) -> (
    after: State)
    requires
        loaded.is_sound(),
        function_stands(program, loaded, f),
        state.memory.len() == machine::size(),
        state.limit >= 0x200,
        machine::frame(state.memory) + 0x100 <= machine::size(),
        has_room(state),
    ensures
        loaded.comes(
            loaded.place_of(Label(f.0 as usize)),
            state,
            Came::At(flow::end_of(opened(program, loaded, f).code), after),
        ),
        is_up(after),
        after.top == state.top,
        after.limit == state.limit,
        machine::frame(after.memory) == machine::frame(state.memory) - stage_of(
            program,
            loaded,
            f,
        ).frame,
        forall|i: int|
            0 <= i < machine::size() && i != FP && i != FP + 1 ==> #[trigger] after.memory[i]
                == state.memory[i],
{
    let machine = Machine { program, data: LOAD };
    let before = planned(program, loaded, f);
    let open = opened(program, loaded, f);
    let start = begun(program, loaded, f);
    let params = program.values(program.function(f).params);
    let end = machine.region(start, nowhere(), program.function(f).body, 0);
    a_stage_is_its_programs(program, loaded, f);
    flow::taking_extends(machine, open, params, 0);
    flow::growth_chains(open.code, start.code, end.code);
    flow::growth_chains(open.code, end.code, loaded.listing);
    if before.frame > 0 {
        let after = flow::a_frame_opens(before.code, before.frame, state);
        flow::a_frame_grows(before.code, before.frame);
        flow::straight_code_reaches(
            before.code,
            open.code,
            loaded.listing,
            loaded.code,
            state,
            after,
        );
        machine::leading_stays(before.code, open.code, state, after);
        after
    } else {
        flow::staying_reaches(
            loaded.code,
            loaded.listing.origin as int,
            flow::end_of(before.code),
            state,
        );
        state
    }
}

/// And goes on by taking its arguments.
proof fn a_function_begins(
    program: Parts,
    loaded: Loaded,
    f: FunctionId,
    numbers: Seq<nat>,
    state: State,
) -> (after: State)
    requires
        program_stands(program, loaded),
        f.0 < program.functions.len(),
        is_entered(numbers, state),
        has_room(state),
        program.values(program.function(f).params).len() == numbers.len(),
    ensures
        loaded.comes(
            loaded.place_of(Label(f.0 as usize)),
            state,
            Came::At(flow::end_of(begun(program, loaded, f).code), after),
        ),
        stage_of(program, loaded, f).works(begun(program, loaded, f)),
        all_right(
            stage_of(program, loaded, f),
            program.values(program.function(f).params),
            numbers,
            after,
        ),
        is_up(after),
        after.top == state.top,
        after.limit == state.limit,
        after.popped() == state.popped(),
        machine::frame(after.memory) == machine::frame(state.memory) - stage_of(
            program,
            loaded,
            f,
        ).frame,
        forall|i: int|
            machine::frame(state.memory) <= i < machine::size() ==> #[trigger] after.memory[i]
                == state.memory[i],
        forall|i: int|
            0x101 + state.top <= i < 0x200 ==> #[trigger] after.memory[i] == state.memory[i],
{
    let stage = stage_of(program, loaded, f);
    let mine = program.function_given(f);
    let params = program.values(program.function(f).params);
    let open = opened(program, loaded, f);
    let start = begun(program, loaded, f);
    let end = stage.machine.region(start, nowhere(), program.function(f).body, 0);
    a_stage_is_its_programs(program, loaded, f);
    assert(function_stands(program, loaded, f));
    assert(program.function_is_single(f));
    let first = a_frame_is_opened(program, loaded, f, state);
    assert forall|i: int| 0 <= i < params.len() implies mine.contains(#[trigger] params[i]) by {
        assert(ir::order::among(params).contains(params[i]));
    }
    flow::taking_extends(stage.machine, open, params, 0);
    flow::growth_chains(start.code, end.code, loaded.listing);
    flow::a_frame_grows(planned(program, loaded, f).code, stage.frame);
    flow::what_grows_stays_within(
        bound(program, loaded, f).code,
        planned(program, loaded, f).code.open_frame(stage.frame),
    );
    assert(is_taken(stage, params, 0, first, first));
    let after = arguments_are_taken(loaded, stage, mine, open, params, 0, first, first);
    coming_chains(
        loaded,
        loaded.place_of(Label(f.0 as usize)),
        state,
        flow::end_of(open.code),
        first,
        Came::At(flow::end_of(start.code), after),
    );
    assert(after.memory[FP as int] == first.memory[FP as int]);
    assert(after.memory[FP + 1] == first.memory[FP + 1]);
    assert forall|i: int| 0 <= i < params.len() implies #[trigger] is_right(
        stage,
        params[i],
        numbers[i],
        after,
    ) by {
        let at = ARGS + 2 * i;
        assert(first.memory[at] == state.memory[at]);
        assert(first.memory[at + 1] == state.memory[at + 1]);
        assert(flow::pair_of(state, (ARGS + 2 * i) as u8) == numbers[i]);
        assert(stage.slot(params[i], after) == stage.slot(params[i], first));
        assert(stage.source[params[i].0 as int] is Slot);
    }
    assert forall|i: int| machine::frame(state.memory) <= i < machine::size() implies
        #[trigger] after.memory[i] == state.memory[i] by {
        assert(after.memory[i] == first.memory[i]);
        assert(first.memory[i] == state.memory[i]);
    }
    assert forall|i: int| 0x101 + state.top <= i < 0x200 implies #[trigger] after.memory[i]
        == state.memory[i] by {
        assert(after.memory[i] == first.memory[i]);
        assert(first.memory[i] == state.memory[i]);
    }
    let low = 0x101 + state.top;
    assert(after.memory[low] == state.memory[low]);
    assert(after.memory[low + 1] == state.memory[low + 1]);
    after
}

/// A function comes to what the program says it does, or there was no room
/// left for a call.
#[verifier::spinoff_prover]
proof fn a_function_is_met(
    program: Parts,
    loaded: Loaded,
    f: FunctionId,
    numbers: Seq<nat>,
    left: Left,
    state: State,
    fuel: nat,
) -> (came: Came)
    requires
        program_stands(program, loaded),
        f.0 < program.functions.len(),
        is_entered(numbers, state),
        has_room(state),
        program.function_runs(host(program), f, numbers, fuel) == Some(left),
    ensures
        call_meets(program, loaded, f, left, state, came),
    decreases fuel, 3nat, 0int,
{
    let stage = stage_of(program, loaded, f);
    let mine = program.function_given(f);
    let params = program.values(program.function(f).params);
    let body = program.function(f).body;
    let start = begun(program, loaded, f);
    let at = loaded.place_of(Label(f.0 as usize));
    a_stage_is_its_programs(program, loaded, f);
    an_answer_is_as_long(program, f);
    assert(function_stands(program, loaded, f));
    assert(program.function_is_single(f));
    assert(program.region_agrees(
        program.functions[f.0 as int].body,
        program.functions[f.0 as int].answers.read(program.signature),
        0,
    ));
    let here = a_function_begins(program, loaded, f, numbers, state);
    let held = ir::machine::defined(Map::empty(), params, numbers);
    what_is_defined_agrees(stage, Map::empty(), params, numbers, here);
    assert(held.dom().subset_of(mine) && held.dom().disjoint(program.given(body, 0))) by {
        assert forall|v: ValueId| held.dom().contains(v) implies mine.contains(v)
            && !program.given(body, 0).contains(v) by {
            assert(ir::order::among(params).contains(v));
        }
    }
    every_op_has_results(program, body);
    ir::order::a_region_runs_from_its_start(program, host(program), body, held, fuel);
    assert(region_stands(program, loaded, f, start, nowhere(), body, 0));
    let came = a_region_is_met(
        program,
        loaded,
        f,
        start,
        nowhere(),
        body,
        0,
        held,
        left,
        here,
        fuel,
    );
    if came is Spent {
        coming_chains(loaded, at, state, flow::end_of(start.code), here, came);
    } else {
        match left {
            Left::Answers(answered) => {
                coming_chains(loaded, at, state, flow::end_of(start.code), here, came);
                let after = came->At_1;
                assert forall|i: int| machine::frame(state.memory) <= i < machine::size() implies
                    #[trigger] after.memory[i] == state.memory[i] by {
                    assert(after.memory[i] == here.memory[i]);
                    assert(here.memory[i] == state.memory[i]);
                }
                assert forall|i: int| 0x101 + state.top <= i < 0x200 implies
                    #[trigger] after.memory[i] == state.memory[i] by {
                    assert(after.memory[i] == here.memory[i]);
                    assert(here.memory[i] == state.memory[i]);
                }
            },
            Left::Asks(platform, _) => {
                if is_exit(program, platform) {
                    coming_chains(loaded, at, state, flow::end_of(start.code), here, came);
                }
            },
            _ => {},
        }
    }
    came
}

/// What is written before the first function.
pub open spec fn started(program: Parts, heap: u16, far: Seq<bool>) -> Work {
    Work {
        code: lower::with_starts(
            Listing::start(lower::origin(program) as u16, far),
            program.functions.len(),
        ).reset(heap),
        source: Seq::new(program.classes.len(), |i: int| Source::Slot(0)),
        frame: 0,
    }
}

/// The first functions of a program, written.
pub open spec fn written(program: Parts, loaded: Loaded, count: int) -> Work {
    Machine { program, data: LOAD }.functions(loaded.start, count)
}

/// Whether the first functions are written with nothing amiss.
spec fn is_written(program: Parts, loaded: Loaded, count: int) -> bool {
    let work = written(program, loaded, count);
    &&& flow::is_within(work.code)
    &&& program.functions.len() <= work.code.labels.len()
    &&& work.source.len() == program.classes.len()
}

/// A function that is written is written after those before it.
proof fn a_function_grows(program: Parts, loaded: Loaded, f: FunctionId)
    requires
        program.wf(),
        is_modest(program),
        program.is_whole(),
        f.0 < program.functions.len() <= u32::MAX,
        written(program, loaded, f.0 as int).code.failed || is_written(
            program,
            loaded,
            f.0 as int,
        ),
        !written(program, loaded, f.0 + 1).code.failed,
    ensures
        !written(program, loaded, f.0 as int).code.failed,
        is_written(program, loaded, f.0 + 1),
        flow::grows(
            written(program, loaded, f.0 as int).code,
            written(program, loaded, f.0 + 1).code,
        ),
        ({
            let stage = stage_of(program, loaded, f);
            let work = written(program, loaded, f.0 as int);
            let before = bound(program, loaded, f);
            let start = begun(program, loaded, f);
            let end = written(program, loaded, f.0 + 1);
            &&& end == stage.machine.region(start, nowhere(), program.function(f).body, 0)
            &&& flow::is_within(before.code)
            &&& planned(program, loaded, f).code == before.code
            &&& before.code.labels == work.code.labels.update(
                f.0 as int,
                Some(work.code.bytes.len()),
            )
            &&& flow::grows(before.code, start.code)
            &&& start.code.labels == before.code.labels
            &&& flow::goes_further(start, end)
            &&& are_apart(stage.source, stage.frame, program.function_given(f))
            &&& is_laid(program, stage.source, program.function(f).body, 0)
        }),
{
    reveal(Machine::function);
    let machine = Machine { program, data: LOAD };
    let body = program.function(f).body;
    let params = program.values(program.function(f).params);
    let work = written(program, loaded, f.0 as int);
    let before = bound(program, loaded, f);
    let plan = planned(program, loaded, f);
    let open = opened(program, loaded, f);
    let start = begun(program, loaded, f);
    let end = written(program, loaded, f.0 + 1);
    a_stage_is_its_programs(program, loaded, f);
    an_answer_is_as_long(program, f);
    assert(FunctionId((f.0 + 1 - 1) as u32) == f);
    assert(end == machine.function(work, f));
    assert(end == machine.region(start, nowhere(), body, 0));
    flow::a_region_grows(machine, start, nowhere(), body, 0);
    flow::taking_extends(machine, open, params, 0);
    flow::a_frame_grows(plan.code, plan.frame);
    assert(!start.code.failed);
    assert(!open.code.failed);
    assert(!plan.code.failed);
    super::placing::failing_plans(machine, before, body);
    assert(!before.code.failed);
    assert(!work.code.failed);
    assert(program.function_is_single(f));
    assert(program.inside_is_single(body));
    super::placing::a_function_is_placed(machine, before, body);
    assert(program.entered(body) =~= program.function_given(f));
    flow::binding_grows(work.code, Label(f.0 as usize));
    flow::what_grows_stays_within(work.code, before.code);
    if plan.frame > 0 {
        flow::growth_chains(before.code, open.code, start.code);
    }
    flow::growth_chains(work.code, before.code, start.code);
    flow::growth_chains(work.code, start.code, end.code);
    flow::what_grows_stays_within(work.code, end.code);
}

proof fn functions_are_written(program: Parts, loaded: Loaded, count: int)
    requires
        program.wf(),
        is_modest(program),
        program.is_whole(),
        0 <= count <= program.functions.len() <= u32::MAX,
        is_written(program, loaded, 0),
        !written(program, loaded, count).code.failed,
    ensures
        is_written(program, loaded, count),
    decreases count,
{
    if count > 0 {
        let f = FunctionId((count - 1) as u32);
        if !written(program, loaded, count - 1).code.failed {
            functions_are_written(program, loaded, count - 1);
        }
        a_function_grows(program, loaded, f);
    }
}

/// Whether the labels a function has by now stay where they are.
spec fn labels_stay(program: Parts, loaded: Loaded, count: int, later: int) -> bool {
    let now = written(program, loaded, count).code;
    let end = written(program, loaded, later).code;
    forall|l: int|
        0 <= l < now.labels.len() && (l < count || l >= program.functions.len())
            ==> #[trigger] end.labels[l] == now.labels[l]
}

/// Nothing that is written later touches what was written before.
proof fn functions_stay(program: Parts, loaded: Loaded, count: int, later: int)
    requires
        program.wf(),
        is_modest(program),
        program.is_whole(),
        0 <= count <= later <= program.functions.len() <= u32::MAX,
        is_written(program, loaded, 0),
        !written(program, loaded, later).code.failed,
    ensures
        !written(program, loaded, count).code.failed,
        flow::grows(
            written(program, loaded, count).code,
            written(program, loaded, later).code,
        ),
        written(program, loaded, later).code.labels.len() <= usize::MAX ==> labels_stay(
            program,
            loaded,
            count,
            later,
        ),
    decreases later,
{
    let now = written(program, loaded, count).code;
    let end = written(program, loaded, later).code;
    if count < later {
        let f = FunctionId((later - 1) as u32);
        let work = written(program, loaded, later - 1).code;
        if !work.failed {
            functions_are_written(program, loaded, later - 1);
        }
        a_function_grows(program, loaded, f);
        functions_stay(program, loaded, count, later - 1);
        flow::growth_chains(now, work, end);
        if end.labels.len() <= usize::MAX {
            let start = begun(program, loaded, f).code;
            assert forall|l: int|
                0 <= l < now.labels.len() && (l < count || l >= program.functions.len()) implies
                #[trigger] end.labels[l] == now.labels[l] by {
                assert(work.labels[l] == now.labels[l]);
                assert(start.labels[l] == work.labels[l]);
            }
        }
    } else {
        flow::plain_grows(now, now);
    }
}

/// A program that is in order is written as it was to be.
proof fn a_program_stands(program: Parts, loaded: Loaded)
    requires
        program.wf(),
        program.agrees(),
        program.orderly(),
        is_modest(program),
        program.functions.len() <= u32::MAX,
        is_written(program, loaded, 0),
        loaded.listing == written(program, loaded, program.functions.len() as int).code,
        !loaded.listing.failed,
        loaded.is_sound(),
    ensures
        program_stands(program, loaded),
{
    let count = program.functions.len() as int;
    let done = loaded.listing;
    assert forall|f: FunctionId| f.0 < program.functions.len() implies #[trigger] function_stands(
        program,
        loaded,
        f,
    ) by {
        let work = written(program, loaded, f.0 as int);
        let start = begun(program, loaded, f);
        let end = written(program, loaded, f.0 + 1);
        functions_stay(program, loaded, f.0 + 1, count);
        functions_stay(program, loaded, f.0 as int, count);
        functions_are_written(program, loaded, f.0 as int);
        a_function_grows(program, loaded, f);
        a_stage_is_its_programs(program, loaded, f);
        flow::what_grows_stays_within(bound(program, loaded, f).code, start.code);
        assert(flow::labels_settle(start.code, end.code, done));
        let l = f.0 as int;
        assert(done.labels[l] == end.code.labels[l]);
        assert(end.code.labels[l] == start.code.labels[l]);
        assert(done.target(Label(f.0 as usize)) == Some(
            done.origin as nat + work.code.bytes.len(),
        ));
    }
}

/// What is set up before the first function is written straight, but for the
/// call of it.
proof fn setting_up_grows(listing: Listing, heap: u16)
    ensures
        flow::grows(listing, set_up(listing, heap)),
        flow::grows(set_up(listing, heap), set_up(listing, heap).jsr(Label(0))),
        flow::grows(set_up(listing, heap).jsr(Label(0)), listing.reset(heap)),
        listing.reset(heap).labels == listing.labels,
{
    let ready = set_up(listing, heap);
    let called = ready.jsr(Label(0));
    flow::plain_grows(listing, ready);
    flow::a_call_grows(ready, Label(0));
    flow::plain_grows(called, listing.reset(heap));
}

/// The stacks and the heap, set up.
spec fn set_up(listing: Listing, heap: u16) -> Listing {
    listing.ldx_imm(0xFF).txs().set_pair(CSP, CSTACK_TOP).set_pair(FP, FRAMES_TOP).set_pair(
        HEAP,
        heap,
    )
}

/// Filling holes keeps what is none.
proof fn holes_keep_the_rest(listing: Listing, count: int, i: int)
    requires
        0 <= count <= listing.holes.len(),
        listing.is_spaced(),
        0 <= i < listing.bytes.len(),
        !flow::is_hole(listing, i),
    ensures
        listing.with_holes(count).len() == listing.bytes.len(),
        listing.with_holes(count)[i] == listing.bytes[i],
    decreases count,
{
    if count > 0 {
        holes_keep_the_rest(listing, count - 1, i);
        assert(!(listing.holes[count - 1].0 <= i < listing.holes[count - 1].0 + 2));
    }
}

proof fn halves_keep_the_rest(listing: Listing, count: int, i: int)
    requires
        0 <= count <= listing.halves.len(),
        listing.is_spaced(),
        0 <= i < listing.bytes.len(),
        !flow::is_hole(listing, i),
    ensures
        listing.with_halves(count).len() == listing.bytes.len(),
        listing.with_halves(count)[i] == listing.bytes[i],
    decreases count,
{
    if count > 0 {
        halves_keep_the_rest(listing, count - 1, i);
        assert(listing.halves[count - 1].0 != i);
    } else {
        holes_keep_the_rest(listing, listing.holes.len() as int, i);
    }
}

proof fn branches_keep_the_rest(listing: Listing, count: int, i: int)
    requires
        0 <= count <= listing.near.len(),
        listing.is_spaced(),
        0 <= i < listing.bytes.len(),
        !flow::is_hole(listing, i),
    ensures
        listing.with_near(count).len() == listing.bytes.len(),
        listing.with_near(count)[i] == listing.bytes[i],
    decreases count,
{
    if count > 0 {
        branches_keep_the_rest(listing, count - 1, i);
        assert(listing.near[count - 1].0 != i);
    } else {
        halves_keep_the_rest(listing, listing.halves.len() as int, i);
    }
}

/// Where no branch is short, each reaches.
proof fn every_branch_reaches(listing: Listing, count: int)
    requires
        0 <= count <= listing.near.len(),
        listing.overflowed(count).len() == 0,
    ensures
        forall|j: int|
            0 <= j < count ==> listing.reaches((#[trigger] listing.near[j]).0, listing.near[j].1),
    decreases count,
{
    if count > 0 {
        every_branch_reaches(listing, count - 1);
    }
}

/// The code of a file: what is in memory from where the machine is started.
pub open spec fn text(program: Parts, file: Seq<u8>) -> Seq<u8> {
    loader::memory_from(file, loader::entry(file))
}

/// What is in a file is what was written, filled in.
proof fn a_file_is_loaded(program: Parts, file: Seq<u8>) -> (loaded: Loaded)
    requires
        program.wf(),
        is_modest(program),
        program.is_whole(),
        super::image(program) == Some(file),
        lower::origin(program) + text(program, file).len() < HOOK_WRITE,
    ensures
        program.functions.len() <= u32::MAX,
        lower::origin(program) <= 0xFFFF,
        loaded.code == text(program, file),
        loaded.listing == written(program, loaded, program.functions.len() as int).code,
        loaded.listing.origin == lower::origin(program),
        !loaded.listing.failed,
        loaded.is_sound(),
        is_written(program, loaded, 0),
        exists|heap: u16, far: Seq<bool>| loaded.start == #[trigger] started(program, heap, far),
{
    lower::settled_code_fits_its_own_addresses(program, LOAD, seq![]);
    let code = lower::settled(program, LOAD, seq![])->Some_0;
    let (heap, far) = choose|heap: u16, far: Seq<bool>|
        {
            let listing = #[trigger] lower::assembled(program, heap, far);
            &&& lower::settled(program, LOAD, seq![]) == Some(listing.finished())
            &&& !listing.failed
            &&& listing.closes()
            &&& listing.short().len() == 0
            &&& lower::origin(program) + listing.finished().len() <= heap
        };
    reveal(lower::assembled);
    let listing = lower::assembled(program, heap, far);
    let start = started(program, heap, far);
    loader::what_is_written_is_loaded(program, file);
    let whole = text(program, file);
    let count = program.functions.len() as int;
    let loaded = Loaded { listing, code: whole, start };
    assert(program.functions.len() <= u32::MAX && lower::origin(program) <= 0xFFFF);
    crate::targets::bytes::little_endian_length(LOAD as nat, 2);
    crate::targets::bytes::little_endian_length(lower::origin(program) as u16 as nat, 2);
    assert(whole =~= code);
    let blank = lower::with_starts(
        Listing::start(lower::origin(program) as u16, far),
        program.functions.len(),
    );
    setting_up_grows(blank, heap);
    let ready = set_up(blank, heap);
    flow::growth_chains(blank, ready, ready.jsr(Label(0)));
    flow::growth_chains(blank, ready.jsr(Label(0)), start.code);
    assert(flow::is_within(blank)) by {
        reveal(Listing::are_spaced);
    }
    flow::what_grows_stays_within(blank, start.code);
    assert(written(program, loaded, 0) == start);
    assert(is_written(program, loaded, 0));
    assert(listing == written(program, loaded, count).code);
    functions_are_written(program, loaded, count);
    functions_stay(program, loaded, 0, count);
    assert(listing.is_spaced());
    super::assembler::filling_resolves(listing);
    every_branch_reaches(listing, listing.near.len() as int);
    assert forall|i: int| 0 <= i < whole.len() && !flow::is_hole(listing, i) implies
        #[trigger] whole[i] == listing.bytes[i] by {
        branches_keep_the_rest(listing, listing.near.len() as int, i);
    }
    assert(flow::is_loaded(listing, whole));
    loaded
}

/// The machine is set up, and the entry called.
proof fn a_start_calls_the_entry(
    loaded: Loaded,
    listing: Listing,
    heap: u16,
    state: State,
) -> (by: State)
    requires
        loaded.is_sound(),
        flow::is_within(listing),
        flow::grows(listing.reset(heap), loaded.listing),
        state.memory.len() == machine::size(),
        state.limit >= 0x200,
    ensures
        loaded.reaches(
            flow::end_of(listing),
            state,
            flow::end_of(set_up(listing, heap)),
            by,
        ),
        by.top == 0xFF,
        by.limit == state.limit,
        by.memory.len() == machine::size(),
        machine::frame(by.memory) == FRAMES_TOP,
{
    let origin = loaded.listing.origin as int;
    let done = loaded.listing;
    let indexed = listing.ldx_imm(0xFF);
    let stacked = indexed.txs();
    let one = stacked.set_pair(CSP, CSTACK_TOP);
    let two = one.set_pair(FP, FRAMES_TOP);
    let ready = set_up(listing, heap);
    setting_up_grows(listing, heap);
    flow::growth_chains(ready, ready.jsr(Label(0)), listing.reset(heap));
    flow::growth_chains(ready, listing.reset(heap), done);
    flow::plain_grows(listing, indexed);
    flow::plain_grows(indexed, stacked);
    flow::plain_grows(stacked, ready);
    flow::growth_chains(stacked, ready, done);
    flow::growth_chains(indexed, stacked, done);
    flow::what_grows_stays_within(listing, indexed);
    flow::what_grows_stays_within(indexed, stacked);
    machine::two_bytes_lead(listing, 0xA2, 0xFF, state);
    let first = State { x: 0xFF, zero: false, ..state };
    flow::straight_code_reaches(listing, indexed, done, loaded.code, state, first);
    let at = flow::end_of(indexed);
    flow::between_there_are_no_holes(indexed, stacked, done, at);
    assert(loaded.code[at] == 0x9A);
    let second = State { top: 0xFF, ..first };
    flow::a_step_reaches(loaded.code, origin, at, first, at + 1, second);
    let third = machine::a_pair_is_set(stacked, CSP, CSTACK_TOP, second);
    let fourth = machine::a_pair_is_set(one, FP, FRAMES_TOP, third);
    let by = machine::a_pair_is_set(two, HEAP, heap, fourth);
    machine::leading_chains(stacked, one, two, second, third, fourth);
    machine::leading_chains(stacked, two, ready, second, fourth, by);
    flow::straight_code_reaches(stacked, ready, done, loaded.code, second, by);
    machine::leading_stays(stacked, ready, second, by);
    assert(by.memory[FP as int] == fourth.memory[FP as int]);
    assert(by.memory[FP + 1] == fourth.memory[FP + 1]);
    let begin = flow::end_of(listing);
    flow::reaching_chains(loaded.code, origin, begin, state, at, first, at + 1, second);
    flow::reaching_chains(
        loaded.code,
        origin,
        begin,
        state,
        at + 1,
        second,
        flow::end_of(ready),
        by,
    );
    by
}

/// Whether code, started from its first byte, stops with a status.
pub open spec fn stops(code: Seq<u8>, origin: int, state: State, status: int) -> bool {
    exists|next: int, to: State| #[trigger]
        flow::reaches(code, origin, 0, state, next, to) && to.a == status && flow::is_stop(
            code,
            next,
            to,
            to.a,
        )
}

/// Whether code, started from its first byte, gets to a call there is no room
/// left for.
pub open spec fn runs_out(code: Seq<u8>, origin: int, state: State) -> bool {
    exists|next: int, to: State| #[trigger]
        flow::reaches(code, origin, 0, state, next, to) && is_spent(code, origin, next, to)
}

/// Whether code, started, stops with the low byte of what the program leaves
/// with: the number the entry answers, or the one it asks to stop with. It may
/// run out of room first.
pub open spec fn leaves_alike(
    program: Parts,
    code: Seq<u8>,
    origin: int,
    state: State,
    left: Left,
) -> bool {
    runs_out(code, origin, state) || match left {
        Left::Answers(numbers) => {
            &&& numbers.len() == 1
            &&& stops(code, origin, state, numbers[0] as int % 256)
        },
        Left::Asks(platform, numbers) => is_exit(program, platform) ==> {
            &&& numbers.len() > 0
            &&& stops(code, origin, state, numbers[0] as int % 256)
        },
        _ => true,
    }
}

/// What is written does what the program does. Whatever a program that is in
/// order, and asks of calls and conversions what this target gives, comes to
/// on a machine of this width, with its data where the image has them, the
/// code in the file it becomes stops with the low byte of, started from its
/// first byte with the registers and memory what they may be: the number the
/// entry answers, or the one it asks to stop with. A run is followed up to
/// whatever it asks for first. Only a call may find that there is no room left
/// for it. Frames are kept clear of everything below `state.limit`, which is
/// past the image, and the image is clear of the host's hooks.
pub proof fn what_is_written_does_the_same(
    program: Parts,
    file: Seq<u8>,
    state: State,
    fuel: nat,
)
    requires
        program.wf(),
        program.agrees(),
        program.orderly(),
        is_modest(program),
        super::image(program) == Some(file),
        lower::origin(program) + text(program, file).len() < HOOK_WRITE,
        lower::origin(program) + text(program, file).len() <= state.limit,
        state.memory.len() == machine::size(),
        program.function_runs(host(program), FunctionId(0), seq![], fuel) is Some,
    ensures
        leaves_alike(
            program,
            text(program, file),
            loader::entry(file),
            state,
            program.function_runs(host(program), FunctionId(0), seq![], fuel)->Some_0,
        ),
{
    loader::what_is_written_is_loaded(program, file);
    let loaded = a_file_is_loaded(program, file);
    let left = program.function_runs(host(program), FunctionId(0), seq![], fuel)->Some_0;
    let (heap, far) = choose|heap: u16, far: Seq<bool>|
        loaded.start == #[trigger] started(program, heap, far);
    let blank = lower::with_starts(
        Listing::start(lower::origin(program) as u16, far),
        program.functions.len(),
    );
    assert(flow::is_within(blank)) by {
        reveal(Listing::are_spaced);
    }
    assert(written(program, loaded, 0) == loaded.start);
    functions_stay(program, loaded, 0, program.functions.len() as int);
    a_program_stands(program, loaded);
    let came = a_whole_run_is_met(program, loaded, blank, heap, left, state, fuel);
    let origin = lower::origin(program) as int;
    let code = text(program, file);
    match came {
        Came::Stops(status) => if loaded.comes(0, state, came) {
            let (next, to) = choose|next: int, to: State| #[trigger]
                loaded.reaches(0, state, next, to) && flow::is_stop(code, next, to, status);
            assert(flow::reaches(code, origin, 0, state, next, to));
        },
        Came::Spent => {
            let (next, to) = choose|next: int, to: State| #[trigger]
                loaded.reaches(0, state, next, to) && loaded.is_spent(next, to);
            assert(flow::reaches(code, origin, 0, state, next, to));
        },
        _ => {},
    }
}

/// From the first byte, through the entry, to the host.
#[verifier::rlimit(40)]
#[verifier::spinoff_prover]
proof fn a_whole_run_is_met(
    program: Parts,
    loaded: Loaded,
    blank: Listing,
    heap: u16,
    left: Left,
    state: State,
    fuel: nat,
) -> (came: Came)
    requires
        program_stands(program, loaded),
        blank.bytes.len() == 0,
        flow::is_within(blank),
        flow::grows(blank.reset(heap), loaded.listing),
        state.limit >= 0x200,
        state.memory.len() == machine::size(),
        program.function_runs(host(program), FunctionId(0), seq![], fuel) == Some(left),
    ensures
        came is Spent ==> loaded.comes(0, state, came),
        !(came is Spent) ==> match left {
            Left::Answers(numbers) => numbers.len() == 1 && stops_with(
                loaded,
                numbers[0],
                0,
                state,
                came,
            ),
            Left::Asks(platform, numbers) => is_exit(program, platform) ==> numbers.len() > 0
                && stops_with(loaded, numbers[0], 0, state, came),
            _ => true,
        },
{
    let ready = set_up(blank, heap);
    let called = ready.jsr(Label(0));
    let place = loaded.place_of(Label(0));
    let back = loaded.listing.origin + flow::end_of(ready) + 2;
    setting_up_grows(blank, heap);
    flow::growth_chains(called, blank.reset(heap), loaded.listing);
    flow::what_grows_stays_within(blank, ready);
    flow::what_grows_stays_within(ready, called);
    let by = a_start_calls_the_entry(loaded, blank, heap, state);
    flow::a_call_reaches(ready, Label(0), loaded.listing, loaded.code, by);
    flow::what_is_pushed_comes_back(by, back);
    let entry = by.push(back);
    assert(entry.memory[FP as int] == by.memory[FP as int]);
    assert(entry.memory[FP + 1] == by.memory[FP + 1]);
    coming_chains(loaded, 0, state, flow::end_of(ready), by, Came::At(place, entry));
    if !has_room(entry) {
        assert(loaded.reaches(0, state, flow::end_of(ready), by));
        assert(loaded.is_spent(flow::end_of(ready), by));
        Came::Spent
    } else {
        let reply = a_function_is_met(
            program,
            loaded,
            FunctionId(0),
            seq![],
            left,
            entry,
            fuel,
        );
        if reply is Spent {
            coming_chains(loaded, 0, state, place, entry, reply);
            reply
        } else {
            match left {
                Left::Answers(numbers) => {
                    let after = reply->At_1;
                    coming_chains(loaded, 0, state, place, entry, reply);
                    assert(reply->At_0 == flow::end_of(called));
                    assert(numbers.len() == 1);
                    let came = a_byte_stops(loaded, called, R0, after);
                    coming_chains(loaded, 0, state, flow::end_of(called), after, came);
                    a_word_ends_in_its_low_byte(after.memory, R0 as int);
                    came
                },
                Left::Asks(platform, _) => {
                    if is_exit(program, platform) {
                        coming_chains(loaded, 0, state, place, entry, reply);
                    }
                    reply
                },
                _ => reply,
            }
        }
    }
}

/// Whether code stops with the low byte of what a program comes to, wherever a
/// word here is wide enough for it.
pub open spec fn is_left_with(
    parts: Parts,
    code: Seq<u8>,
    origin: int,
    state: State,
    left: Left,
    wide: nat,
    long: nat,
) -> bool {
    &&& ir::faithful::comes_to(parts, wide, long, left)
    &&& wide <= machine::size() ==> leaves_alike(parts, code, origin, state, left)
}

/// What a program means is what its file stops with the low byte of. A program
/// that is typed is lowered and written as a file whose code, started, stops with the low byte
/// of what the program comes to, or runs out of room, wherever a word is wide
/// enough for it.
pub proof fn what_a_program_means_is_left_with(
    store: barb::Store,
    parts: Parts,
    file: Seq<u8>,
    state: State,
    args: Seq<barb::constant::Tree>,
    steps: nat,
)
    requires
        store.wf(),
        store.typed(),
        ir::faithful::can_start(store),
        ir::lower::lowered(store, store.facts()) == Ok::<_, Seq<char>>(parts),
        parts.wf(),
        super::image(parts) == Some(file),
        lower::origin(parts) + text(parts, file).len() < HOOK_WRITE,
        lower::origin(parts) + text(parts, file).len() <= state.limit,
        state.memory.len() == machine::size(),
        barb::meaning::are_of(store, args, store.params(store.entry->Some_0)),
        store.meaning(store.function(store.entry->Some_0).body, args, steps) is Some,
    ensures
        exists|wide: nat, long: nat| #[trigger]
            is_left_with(
                parts,
                text(parts, file),
                loader::entry(file),
                state,
                ir::faithful::leaves_with(
                    store,
                    store.meaning(
                        store.function(store.entry->Some_0).body,
                        args,
                        steps,
                    )->Some_0,
                ),
                wide,
                long,
            ),
{
    let outcome = store.meaning(
        store.function(store.entry->Some_0).body,
        args,
        steps,
    )->Some_0;
    let left = ir::faithful::leaves_with(store, outcome);
    let code = text(parts, file);
    loader::what_is_written_is_loaded(parts, file);
    let origin = loader::entry(file);
    ir::fresh::what_is_lowered_is_in_order(store, parts);
    ir::faithful::a_typed_program_is_lowered_faithfully(store, parts);
    ir::validate::a_program_agrees_when_nothing_is_wrong(parts);
    assert(ir::faithful::does_the_same(store, parts, outcome));
    let (wide, long) = choose|wide: nat, long: nat| #[trigger]
        ir::faithful::comes_to(parts, wide, long, left);
    if wide <= machine::size() {
        assert(parts.function_runs(host(parts), FunctionId(0), seq![], long) == Some(left));
        what_is_written_does_the_same(parts, file, state, long);
    }
    assert(is_left_with(parts, code, origin, state, left, wide, long));
}

} // verus!
