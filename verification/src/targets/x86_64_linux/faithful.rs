//! What is written does what the program does.
//!
//! Values live on the stack, one slot each, so what the program holds and what
//! the stack holds stay side by side: wherever the program goes on, so does
//! the code, with the same in hand; and however the program leaves a region,
//! the code leaves it that way.

use super::encode::{self, Reg};
use super::flow;
use super::loader;
use super::lower::{self, Around, Label, Layout, Source, Stage, Work};
use super::machine::{self, Ground, State, Went};
use crate::barb;
use crate::ir;
use crate::ir::machine::{Held, Host, Left, Step};
use crate::ir::{
    Binary, Class, DataId, Exit, FunctionId, Op, Parts, PlatformId, Range, RegionId, Relation,
    ValueId,
};
use vstd::prelude::*;

verus! {

/// Whether values have a slot each, of those there are, and share none.
pub open spec fn are_apart(stage: Stage, mine: Set<ValueId>) -> bool {
    &&& forall|v: ValueId|
        #[trigger] mine.contains(v) ==> v.0 < stage.layout.source.len() && (
        stage.layout.source[v.0 as int] matches Source::Slot(index) ==> index < stage.layout.slots)
    &&& forall|v: ValueId, w: ValueId|
        #[trigger] mine.contains(v) && #[trigger] mine.contains(w) && v != w
            && stage.layout.source[v.0 as int] is Slot ==> stage.layout.source[v.0 as int]
            != stage.layout.source[w.0 as int]
}

impl Stage {
    /// Whether an instruction has what it defines where it belongs.
    pub open spec fn op_is_laid(self, region: RegionId, at: int) -> bool
        decreases self.program.rank(region), 0nat, 0int,
    {
        let results = self.program.values(self.program.region_results(region)[at]);
        match self.program.region_ops(region)[at] {
            Op::Constant { value, .. } => self.layout.source[results[0].0 as int] == Source::Const(
                value,
            ),
            Op::AddressOf(data) => self.layout.source[results[0].0 as int] == Source::Addr(data),
            Op::If { then_region, else_region, .. } => {
                &&& self.program.nests(region, then_region)
                &&& self.program.nests(region, else_region)
                &&& self.is_laid(then_region, 0)
                &&& self.is_laid(else_region, 0)
            },
            Op::Loop { body, .. } => self.program.nests(region, body) && self.is_laid(body, 0),
            _ => true,
        }
    }

    /// Whether a region's instructions do from `from` on.
    pub open spec fn is_laid(self, region: RegionId, from: int) -> bool
        decreases self.program.rank(region), 1nat, self.program.region_ops(region).len() - from,
    {
        if from < 0 || from >= self.program.region_ops(region).len() {
            true
        } else {
            self.op_is_laid(region, from) && self.is_laid(region, from + 1)
        }
    }
}

/// The stage of a function.
#[verifier::opaque]
pub open spec fn stage_of(program: Parts, f: FunctionId) -> Stage {
    Stage {
        program,
        layout: Layout::of(program, program.function(f), f.0 == 0),
        in_entry: f.0 == 0,
    }
}


/// Code that is loaded: what was written, the bytes of it, where they begin,
/// and what they run on.
pub struct Loaded {
    pub work: Work,
    pub code: Seq<u8>,
    pub origin: int,
    pub ground: Ground,
}

/// What a program runs on, where its code runs on something.
pub open spec fn host(program: Parts, ground: Ground) -> Host {
    Host {
        size: machine::size(),
        places: Map::new(
            |data: DataId| data.0 < program.spans.len(),
            |data: DataId| ground.address(data) as nat,
        ),
        watch: |platform: PlatformId, numbers: Seq<nat>|
            (ground.watch)(numbers[0] as u64, numbers[1] as u64),
    }
}

impl Loaded {
    pub open spec fn is_sound(self) -> bool {
        &&& flow::is_loaded(self.work, self.code, self.origin)
        &&& flow::is_grounded(self.work, self.code, self.origin, self.ground)
    }

    /// Whether that is where the code goes.
    pub open spec fn comes(self, at: int, from: State, went: Went) -> bool {
        match went {
            Went::At(next, to) => machine::reaches(self.code, self.origin, at, from, next, to),
            Went::Stops(status) => machine::stops(self.code, self.origin, at, from, status),
            Went::Writes(address, len) => machine::writes(
                self.code,
                self.origin,
                at,
                from,
                address,
                len,
            ),
        }
    }

    pub open spec fn place_of(self, label: Label) -> int {
        flow::place_of(self.work, label)
    }
}

proof fn coming_chains(loaded: Loaded, at: int, from: State, mid: int, by: State, went: Went)
    requires
        loaded.comes(at, from, Went::At(mid, by)),
        loaded.comes(mid, by, went),
    ensures
        loaded.comes(at, from, went),
{
    match went {
        Went::At(next, to) => {
            machine::reaching_chains(loaded.code, loaded.origin, at, from, mid, by, next, to);
        },
        Went::Stops(status) => {
            machine::stopping_chains(loaded.code, loaded.origin, at, from, mid, by, status);
        },
        Went::Writes(address, len) => {
            machine::writing_chains(loaded.code, loaded.origin, at, from, mid, by, address, len);
        },
    }
}

/// Whether a number is what a value comes to, where the stack holds what it
/// does.
pub open spec fn is_right(stage: Stage, value: ValueId, number: nat, state: State) -> bool {
    stage.word(value, state) == number
}

/// Whether everything a program holds is what it comes to.
pub open spec fn agrees(stage: Stage, held: Held, state: State) -> bool {
    forall|v: ValueId| held.dom().contains(v) ==> #[trigger] is_right(stage, v, held[v], state)
}

/// Whether values come to numbers, one for one.
pub open spec fn all_right(
    stage: Stage,
    values: Seq<ValueId>,
    numbers: Seq<nat>,
    state: State,
) -> bool {
    forall|i: int|
        0 <= i < values.len() ==> #[trigger] is_right(stage, values[i], numbers[i], state)
}

/// Whether a frame, and what lies past it, is what it was, but for the slots
/// of some values.
pub open spec fn is_steady(
    stage: Stage,
    mine: Set<ValueId>,
    before: State,
    after: State,
    touched: Set<ValueId>,
) -> bool {
    &&& after.ground == before.ground
    &&& after.top == before.top
    &&& forall|v: ValueId|
        #[trigger] mine.contains(v) && !touched.contains(v)
            && stage.layout.source[v.0 as int] is Slot ==> after.word(stage.place(v))
            == before.word(stage.place(v))
    &&& forall|w: int|
        w >= stage.layout.words() ==> #[trigger] after.word(w) == before.word(w)
}

proof fn steadiness_chains(
    stage: Stage,
    mine: Set<ValueId>,
    first: State,
    second: State,
    third: State,
    one: Set<ValueId>,
    other: Set<ValueId>,
    both: Set<ValueId>,
)
    requires
        is_steady(stage, mine, first, second, one),
        is_steady(stage, mine, second, third, other),
        one.subset_of(both),
        other.subset_of(both),
    ensures
        is_steady(stage, mine, first, third, both),
{
    assert forall|w: int| w >= stage.layout.words() implies #[trigger] third.word(w)
        == first.word(w) by {
        assert(second.word(w) == first.word(w));
    }
}

proof fn keeping_is_steady(stage: Stage, mine: Set<ValueId>, before: State, after: State)
    requires
        machine::keeps(before, after),
    ensures
        is_steady(stage, mine, before, after, Set::empty()),
{
    assert forall|v: ValueId| #[trigger] mine.contains(v) && stage.layout.source[v.0 as int] is Slot implies after.word(stage.place(v)) == before.word(stage.place(v)) by {
        assert(stage.place(v) >= 0);
    }
}

/// What is not touched stays right.
proof fn agreement_stays(
    stage: Stage,
    mine: Set<ValueId>,
    held: Held,
    before: State,
    after: State,
    touched: Set<ValueId>,
)
    requires
        agrees(stage, held, before),
        is_steady(stage, mine, before, after, touched),
        held.dom().subset_of(mine),
        held.dom().disjoint(touched),
    ensures
        agrees(stage, held, after),
{
    assert forall|v: ValueId| held.dom().contains(v) implies #[trigger] is_right(
        stage,
        v,
        held[v],
        after,
    ) by {
        assert(is_right(stage, v, held[v], before));
        assert(mine.contains(v) && !touched.contains(v));
        match stage.layout.source[v.0 as int] {
            Source::Param(index) => {
                let w = stage.layout.words() + 1 + index;
                assert(after.word(w) == before.word(w));
            },
            _ => {},
        }
    }
}

/// What is defined is right, with what was held already.
proof fn what_is_defined_agrees(
    stage: Stage,
    held: Held,
    values: Seq<ValueId>,
    numbers: Seq<nat>,
    state: State,
)
    requires
        agrees(stage, held, state),
        values.no_duplicates(),
        values.len() == numbers.len(),
        all_right(stage, values, numbers, state),
    ensures
        agrees(stage, ir::machine::defined(held, values, numbers), state),
        forall|v: ValueId|
            #[trigger] ir::machine::defined(held, values, numbers).dom().contains(v)
                ==> held.dom().contains(v) || values.contains(v),
{
    ir::order::what_is_defined(held, values, numbers);
    let after = ir::machine::defined(held, values, numbers);
    assert forall|v: ValueId| after.dom().contains(v) implies #[trigger] is_right(
        stage,
        v,
        after[v],
        state,
    ) by {
        if values.contains(v) {
            let i = values.index_of(v);
            assert(is_right(stage, values[i], numbers[i], state));
        } else {
            assert(is_right(stage, v, held[v], state));
        }
    }
}

/// What is read is what is held.
proof fn what_is_read_is_held(
    stage: Stage,
    values: Seq<ValueId>,
    held: Held,
    numbers: Seq<nat>,
    state: State,
)
    requires
        agrees(stage, held, state),
        ir::machine::read(held, values) == Some(numbers),
    ensures
        numbers.len() == values.len(),
        forall|i: int|
            0 <= i < values.len() ==> stage.word(#[trigger] values[i], state) == numbers[i]
                && held.dom().contains(values[i]) && held[values[i]] == numbers[i],
{
    assert forall|i: int| 0 <= i < values.len() implies stage.word(
        #[trigger] values[i],
        state,
    ) == numbers[i] && held.dom().contains(values[i])
        && held[values[i]] == numbers[i] by {
        assert(held.dom().contains(values[i]));
        assert(is_right(stage, values[i], held[values[i]], state));
    }
}

proof fn what_is_unstashed_has_slots(stage: Stage, work: Work, values: Seq<ValueId>, from: int)
    requires
        0 <= from <= values.len(),
        !stage.unstash(work, values, from).failed,
    ensures
        forall|i: int|
            from <= i < values.len() ==> stage.layout.source[(
            #[trigger] values[i]).0 as int] is Slot,
    decreases values.len() - from,
{
    if from < values.len() {
        let held = work.load_slot(Reg::Rax, stage.layout.scratch(from as nat));
        let next = stage.keep(held, values[from]);
        flow::an_unstash_extends(stage, next, values, from + 1);
        what_is_unstashed_has_slots(stage, next, values, from + 1);
    }
}

proof fn what_is_taken_has_slots(stage: Stage, work: Work, values: Seq<ValueId>, from: int)
    requires
        0 <= from <= values.len(),
        !stage.take(work, values, from).failed,
    ensures
        forall|i: int|
            from <= i < values.len() ==> stage.layout.source[(
            #[trigger] values[i]).0 as int] is Slot,
        from < values.len() ==> values.len() <= stage.layout.outgoing,
    decreases values.len() - from,
{
    if from < values.len() {
        let held = work.load_slot(Reg::Rax, 8 * from as nat);
        let next = stage.keep(held, values[from]);
        flow::taking_extends(stage, next, values, from + 1);
        what_is_taken_has_slots(stage, next, values, from + 1);
    }
}

/// Values of one function that have slots share none.
proof fn slots_are_apart(stage: Stage, mine: Set<ValueId>, values: Seq<ValueId>)
    requires
        are_apart(stage, mine),
        values.no_duplicates(),
        ir::order::among(values).subset_of(mine),
        forall|i: int|
            0 <= i < values.len() ==> stage.layout.source[(
            #[trigger] values[i]).0 as int] is Slot,
    ensures
        machine::are_apart(stage, values),
        forall|i: int| 0 <= i < values.len() ==> mine.contains(#[trigger] values[i]),
        forall|v: ValueId, i: int|
            #![trigger mine.contains(v), values[i]]
            mine.contains(v) && !ir::order::among(values).contains(v) && 0 <= i < values.len()
                && stage.layout.source[v.0 as int] is Slot ==> stage.place(v) != stage.place(
                values[i],
            ),
        forall|i: int|
            0 <= i < values.len() ==> stage.layout.outgoing <= stage.place(#[trigger] values[i])
                < stage.layout.outgoing + stage.layout.slots,
{
    assert forall|i: int| 0 <= i < values.len() implies mine.contains(#[trigger] values[i]) by {
        assert(ir::order::among(values).contains(values[i]));
    }
    assert forall|i: int, j: int| 0 <= i < j < values.len() implies
        stage.layout.source[(#[trigger] values[i]).0 as int] != stage.layout.source[(
    #[trigger] values[j]).0 as int] by {
        assert(values[i] != values[j]);
        assert(mine.contains(values[i]) && mine.contains(values[j]));
    }
    assert forall|v: ValueId, i: int|
        #![trigger mine.contains(v), values[i]]
        mine.contains(v) && !ir::order::among(values).contains(v) && 0 <= i < values.len()
            && stage.layout.source[v.0 as int] is Slot implies stage.place(v) != stage.place(
        values[i],
    ) by {
        assert(mine.contains(values[i]));
        assert(v != values[i]) by {
            assert(values.contains(values[i]));
        }
    }
    assert forall|i: int| 0 <= i < values.len() implies stage.layout.outgoing <= stage.place(
        #[trigger] values[i],
    ) < stage.layout.outgoing + stage.layout.slots by {
        assert(mine.contains(values[i]));
    }
}

/// Values handed over come to what they were handed, and nothing but them is
/// touched.
proof fn a_transfer_hands_over(
    stage: Stage,
    mine: Set<ValueId>,
    work: Work,
    sources: Seq<ValueId>,
    destinations: Seq<ValueId>,
    held: Held,
    numbers: Seq<nat>,
    state: State,
) -> (after: State)
    requires
        stage.layout.fits(),
        are_apart(stage, mine),
        agrees(stage, held, state),
        machine::is_known(work, state),
        ir::machine::read(held, sources) == Some(numbers),
        numbers.len() == destinations.len(),
        destinations.no_duplicates(),
        ir::order::among(destinations).subset_of(mine),
        !stage.transfer(work, sources, destinations).failed,
    ensures
        machine::goes_on(work, stage.transfer(work, sources, destinations), state, after),
        machine::is_known(stage.transfer(work, sources, destinations), after),
        is_steady(stage, mine, state, after, ir::order::among(destinations)),
        all_right(stage, destinations, numbers, after),
{
    what_is_read_is_held(stage, sources, held, numbers, state);
    if destinations.len() > 0 {
        what_is_unstashed_has_slots(stage, stage.stash(work, sources, 0), destinations, 0);
    }
    slots_are_apart(stage, mine, destinations);
    let after = machine::a_transfer_moves_at_once(stage, work, sources, destinations, state);
    assert forall|i: int| 0 <= i < destinations.len() implies #[trigger] is_right(
        stage,
        destinations[i],
        numbers[i],
        after,
    ) by {
        assert(after.word(stage.place(destinations[i])) == stage.word(sources[i], state));
    }
    assert forall|v: ValueId|
        #[trigger] mine.contains(v) && !ir::order::among(destinations).contains(v)
            && stage.layout.source[v.0 as int] is Slot implies after.word(stage.place(v))
        == state.word(stage.place(v)) by {
        let w = stage.place(v);
        assert forall|i: int| 0 <= i < destinations.len() implies w != stage.place(
            #[trigger] destinations[i],
        ) by {}
    }
    assert forall|w: int| w >= stage.layout.words() implies #[trigger] after.word(w)
        == state.word(w) by {
        assert forall|i: int| 0 <= i < destinations.len() implies w != stage.place(
            #[trigger] destinations[i],
        ) by {}
    }
    after
}

/// Whether code arrives with values that come to numbers, having touched
/// nothing but those and what it was free to.
pub open spec fn arrives(
    stage: Stage,
    mine: Set<ValueId>,
    touched: Set<ValueId>,
    before: State,
    after: State,
    values: Seq<ValueId>,
    numbers: Seq<nat>,
) -> bool {
    &&& after.wf()
    &&& is_steady(stage, mine, before, after, touched.union(ir::order::among(values)))
    &&& all_right(stage, values, numbers, after)
}

/// Whether a function has been left for its caller, with answers where the
/// caller looks for them and nothing else of the caller's touched.
pub open spec fn goes_back(
    stage: Stage,
    origin: int,
    before: State,
    numbers: Seq<nat>,
    next: int,
    after: State,
) -> bool {
    let words = stage.layout.words() as int;
    &&& after.wf()
    &&& next == before.word(words) - origin
    &&& after.ground == before.ground
    &&& after.top == before.top + words + 1
    &&& forall|i: int| 0 <= i < numbers.len() ==> after.word(i) == #[trigger] numbers[i]
    &&& forall|i: int|
        i >= numbers.len() ==> #[trigger] after.word(i) == before.word(words + 1 + i)
}

/// Whether code gets to a label, with values that come to numbers.
pub open spec fn lands(
    loaded: Loaded,
    stage: Stage,
    mine: Set<ValueId>,
    touched: Set<ValueId>,
    label: Label,
    values: Seq<ValueId>,
    numbers: Seq<nat>,
    at: int,
    state: State,
    went: Went,
) -> bool {
    &&& loaded.comes(at, state, went)
    &&& went matches Went::At(next, after) && next == loaded.place_of(label) && arrives(
        stage,
        mine,
        touched,
        state,
        after,
        values,
        numbers,
    )
}

/// Whether a routine is the one that stops a program.
pub open spec fn is_exit(program: Parts, platform: PlatformId) -> bool {
    program.name(program.routine(platform).name) == "exit"@
}

/// Whether code asks for what the program does: to stop with a number, or to
/// write what is at an address, of a length.
pub open spec fn asks_alike(
    program: Parts,
    loaded: Loaded,
    platform: PlatformId,
    numbers: Seq<nat>,
    at: int,
    state: State,
    went: Went,
) -> bool {
    &&& is_exit(program, platform) ==> {
        &&& numbers.len() > 0
        &&& loaded.comes(at, state, went)
        &&& went matches Went::Stops(status) && status == numbers[0]
    }
    &&& program.is_write(platform) ==> {
        &&& numbers.len() > 1
        &&& loaded.comes(at, state, went)
        &&& went matches Went::Writes(address, len) && address == numbers[0] && len == numbers[1]
    }
}

/// Whether code leaves a region as the program does.
pub open spec fn meets(
    loaded: Loaded,
    stage: Stage,
    mine: Set<ValueId>,
    around: Around,
    answers: nat,
    touched: Set<ValueId>,
    left: Left,
    at: int,
    state: State,
    went: Went,
) -> bool {
    match left {
        Left::Yields(numbers) => around.branch matches Some((run, label)) && {
            let values = stage.program.values(run);
            numbers.len() == values.len() ==> lands(
                loaded,
                stage,
                mine,
                touched,
                label,
                values,
                numbers,
                at,
                state,
                went,
            )
        },
        Left::Continues(numbers) => around.repeat matches Some((run, label, _, _)) && {
            let values = stage.program.values(run);
            numbers.len() == values.len() ==> lands(
                loaded,
                stage,
                mine,
                touched,
                label,
                values,
                numbers,
                at,
                state,
                went,
            )
        },
        Left::Breaks(numbers) => around.repeat matches Some((_, _, run, label)) && {
            let values = stage.program.values(run);
            numbers.len() == values.len() ==> lands(
                loaded,
                stage,
                mine,
                touched,
                label,
                values,
                numbers,
                at,
                state,
                went,
            )
        },
        Left::Answers(numbers) => {
            &&& numbers.len() == answers
            &&& loaded.comes(at, state, went)
            &&& if stage.in_entry {
                went matches Went::Stops(status) && numbers.len() == 1 && status == numbers[0]
            } else {
                went matches Went::At(next, after) && goes_back(
                    stage,
                    loaded.origin,
                    state,
                    numbers,
                    next,
                    after,
                )
            }
        },
        Left::Asks(platform, numbers) => asks_alike(
            stage.program,
            loaded,
            platform,
            numbers,
            at,
            state,
            went,
        ),
    }
}

/// What a region touches on its way to an end is touched of what came before.
proof fn ending_chains(
    loaded: Loaded,
    stage: Stage,
    mine: Set<ValueId>,
    around: Around,
    answers: nat,
    one: Set<ValueId>,
    other: Set<ValueId>,
    both: Set<ValueId>,
    left: Left,
    at: int,
    state: State,
    mid_at: int,
    mid: State,
    went: Went,
)
    requires
        state.ground == loaded.ground,
        loaded.comes(at, state, Went::At(mid_at, mid)),
        is_steady(stage, mine, state, mid, one),
        meets(loaded, stage, mine, around, answers, other, left, mid_at, mid, went),
        one.subset_of(both),
        other.subset_of(both),
    ensures
        meets(loaded, stage, mine, around, answers, both, left, at, state, went),
{
    match left {
        Left::Yields(numbers) => {
            let values = stage.program.values(around.branch->Some_0.0);
            if numbers.len() == values.len() {
                landing_chains(
                    loaded,
                    stage,
                    mine,
                    one,
                    other,
                    both,
                    around.branch->Some_0.1,
                    values,
                    numbers,
                    at,
                    state,
                    mid_at,
                    mid,
                    went,
                );
            }
        },
        Left::Continues(numbers) => {
            let values = stage.program.values(around.repeat->Some_0.0);
            if numbers.len() == values.len() {
                landing_chains(
                    loaded,
                    stage,
                    mine,
                    one,
                    other,
                    both,
                    around.repeat->Some_0.1,
                    values,
                    numbers,
                    at,
                    state,
                    mid_at,
                    mid,
                    went,
                );
            }
        },
        Left::Breaks(numbers) => {
            let values = stage.program.values(around.repeat->Some_0.2);
            if numbers.len() == values.len() {
                landing_chains(
                    loaded,
                    stage,
                    mine,
                    one,
                    other,
                    both,
                    around.repeat->Some_0.3,
                    values,
                    numbers,
                    at,
                    state,
                    mid_at,
                    mid,
                    went,
                );
            }
        },
        Left::Answers(numbers) => {
            coming_chains(loaded, at, state, mid_at, mid, went);
            if !stage.in_entry {
                let words = stage.layout.words() as int;
                let after = went->At_1;
                assert(mid.word(words) == state.word(words));
                assert forall|i: int| i >= numbers.len() implies #[trigger] after.word(i)
                    == state.word(words + 1 + i) by {
                    assert(mid.word(words + 1 + i) == state.word(words + 1 + i));
                }
            }
        },
        Left::Asks(platform, numbers) => {
            if is_exit(stage.program, platform) || stage.program.is_write(platform) {
                coming_chains(loaded, at, state, mid_at, mid, went);
            }
        },
    }
}

proof fn landing_chains(
    loaded: Loaded,
    stage: Stage,
    mine: Set<ValueId>,
    one: Set<ValueId>,
    other: Set<ValueId>,
    both: Set<ValueId>,
    label: Label,
    values: Seq<ValueId>,
    numbers: Seq<nat>,
    at: int,
    state: State,
    mid_at: int,
    mid: State,
    went: Went,
)
    requires
        state.ground == loaded.ground,
        loaded.comes(at, state, Went::At(mid_at, mid)),
        is_steady(stage, mine, state, mid, one),
        lands(loaded, stage, mine, other, label, values, numbers, mid_at, mid, went),
        one.subset_of(both),
        other.subset_of(both),
    ensures
        lands(loaded, stage, mine, both, label, values, numbers, at, state, went),
{
    coming_chains(loaded, at, state, mid_at, mid, went);
    steadiness_chains(
        stage,
        mine,
        state,
        mid,
        went->At_1,
        one,
        other.union(ir::order::among(values)),
        both.union(ir::order::among(values)),
    );
}

/// What a region stands in is this function's.
pub open spec fn around_fits(stage: Stage, mine: Set<ValueId>, around: Around) -> bool {
    &&& around.branch matches Some((run, _)) ==> {
        &&& stage.program.values(run).no_duplicates()
        &&& ir::order::among(stage.program.values(run)).subset_of(mine)
    }
    &&& around.repeat matches Some((params, _, results, _)) ==> {
        &&& stage.program.values(params).no_duplicates()
        &&& stage.program.values(results).no_duplicates()
        &&& ir::order::among(stage.program.values(params)).subset_of(mine)
        &&& ir::order::among(stage.program.values(results)).subset_of(mine)
    }
}

/// Handing values over and going to a label.
proof fn a_jump_is_met(
    loaded: Loaded,
    stage: Stage,
    mine: Set<ValueId>,
    work: Work,
    values: Seq<ValueId>,
    destinations: Seq<ValueId>,
    label: Label,
    held: Held,
    numbers: Seq<nat>,
    state: State,
) -> (went: Went)
    requires
        state.ground == loaded.ground,
        loaded.is_sound(),
        stage.layout.fits(),
        are_apart(stage, mine),
        agrees(stage, held, state),
        machine::is_known(work, state),
        flow::is_within(work),
        ir::machine::read(held, values) == Some(numbers),
        destinations.no_duplicates(),
        ir::order::among(destinations).subset_of(mine),
        !stage.transfer(work, values, destinations).jump(label).failed,
        flow::grows(stage.transfer(work, values, destinations).jump(label), loaded.work),
    ensures
        numbers.len() == destinations.len() ==> lands(
            loaded,
            stage,
            mine,
            Set::empty(),
            label,
            destinations,
            numbers,
            work.code.len() as int,
            state,
            went,
        ),
{
    let moved = stage.transfer(work, values, destinations);
    if numbers.len() == destinations.len() {
        let after = a_transfer_hands_over(
            stage,
            mine,
            work,
            values,
            destinations,
            held,
            numbers,
            state,
        );
        flow::a_transfer_extends(stage, work, values, destinations);
        flow::a_hole_is_four();
        flow::going_toward_extends(moved, encode::jump(), label);
        flow::growth_chains(moved, moved.jump(label), loaded.work);
        flow::what_grows_stays_within(work, moved);
        flow::straight_code_reaches(
            work,
            moved,
            loaded.work,
            loaded.code,
            loaded.origin,
            state,
            after,
        );
        flow::a_jump_reaches(moved, label, loaded.work, loaded.code, loaded.origin, after);
        let went = Went::At(loaded.place_of(label), after);
        coming_chains(
            loaded,
            work.code.len() as int,
            state,
            moved.code.len() as int,
            after,
            went,
        );
        assert(Set::<ValueId>::empty().union(ir::order::among(destinations))
            =~= ir::order::among(destinations));
        went
    } else {
        Went::Stops(0)
    }
}

/// Asking to stop stops, with what a value comes to.
proof fn a_stop_is_met(
    loaded: Loaded,
    stage: Stage,
    work: Work,
    value: ValueId,
    state: State,
) -> (went: Went)
    requires
        state.ground == loaded.ground,
        loaded.is_sound(),
        stage.layout.fits(),
        machine::is_known(work, state),
        flow::is_within(work),
        !stage.read(work.load_const(Reg::Rax, lower::SYS_EXIT), Reg::Rdi, value).syscall().failed,
        flow::grows(
            stage.read(work.load_const(Reg::Rax, lower::SYS_EXIT), Reg::Rdi, value).syscall(),
            loaded.work,
        ),
    ensures
        went == Went::Stops(stage.word(value, state)),
        loaded.comes(work.code.len() as int, state, went),
{
    let called = work.load_const(Reg::Rax, lower::SYS_EXIT);
    let told = stage.read(called, Reg::Rdi, value);
    let by = machine::a_constant_is_loaded(work, Reg::Rax, lower::SYS_EXIT, state);
    machine::a_word_is_kept(stage, value, state, by);
    let after = machine::a_value_is_read(stage, called, Reg::Rdi, value, by);
    machine::going_on_chains(work, called, told, state, by, after);
    flow::a_constant_extends(work, Reg::Rax, lower::SYS_EXIT);
    flow::reading_extends(stage, called, Reg::Rdi, value);
    flow::extending_chains(work, called, told);
    flow::asking_extends(told);
    flow::growth_chains(told, told.syscall(), loaded.work);
    flow::what_grows_stays_within(work, told);
    flow::straight_code_reaches(
        work,
        told,
        loaded.work,
        loaded.code,
        loaded.origin,
        state,
        after,
    );
    flow::asking_stops(told, loaded.work, loaded.code, loaded.origin, after);
    let went = Went::Stops(stage.word(value, state));
    coming_chains(loaded, work.code.len() as int, state, told.code.len() as int, after, went);
    went
}

/// The first `count` answers, each in a word past the frame, and nothing else
/// from the top of the stack up touched.
spec fn is_answered(stage: Stage, count: int, before: State, after: State) -> bool {
    let scratch = (stage.layout.outgoing + stage.layout.slots) as int;
    let words = stage.layout.words() as int;
    &&& after.wf()
    &&& after.ground == before.ground
    &&& after.top == before.top
    &&& forall|i: int|
        0 <= i < count ==> #[trigger] after.word(words + 1 + i) == before.word(scratch + i)
    &&& forall|w: int|
        w >= 0 && !(words + 1 <= w < words + 1 + count) ==> #[trigger] after.word(w)
            == before.word(w)
}

proof fn values_are_answered(
    stage: Stage,
    work: Work,
    count: nat,
    from: int,
    before: State,
    state: State,
) -> (after: State)
    requires
        0 <= from <= count,
        machine::is_known(work, state),
        stage.layout.fits(),
        is_answered(stage, from, before, state),
        !stage.answer(work, count, from).failed,
    ensures
        machine::goes_on(work, stage.answer(work, count, from), state, after),
        is_answered(stage, count as int, before, after),
    decreases count - from,
{
    let end = stage.answer(work, count, from);
    if from >= count {
        machine::nothing_goes_nowhere(work, state);
        state
    } else {
        let scratch = (stage.layout.outgoing + stage.layout.slots) as nat;
        let words = stage.layout.words();
        let here = scratch + from as nat;
        let there = words + 1 + from as nat;
        let held = work.load_slot(Reg::Rax, stage.layout.scratch(from as nat));
        let next = held.store_slot(stage.layout.passed(from as nat));
        assert(stage.layout.scratch(from as nat) == 8 * here);
        assert(stage.layout.passed(from as nat) == 8 * there);
        machine::a_slot_is_loaded(work, Reg::Rax, here, state);
        let by = state.set(0, state.word(here as int));
        machine::a_slot_is_stored(held, there, by);
        let then = machine::stored(by, there);
        machine::going_on_chains(work, held, next, state, by, then);
        assert(state.word(here as int) == before.word(here as int));
        assert(is_answered(stage, from + 1, before, then)) by {
            assert forall|i: int| 0 <= i < from + 1 implies #[trigger] then.word(words + 1 + i)
                == before.word(scratch + i) by {
                let w = words + 1 + i;
                if i < from {
                    assert(machine::stored(by, there).word(w) == by.word(w));
                    assert(by.word(w) == state.word(w));
                    assert(state.word(words + 1 + i) == before.word(scratch + i));
                } else {
                    assert(machine::stored(by, there).word(there as int) == by.regs[0]);
                }
            }
            assert forall|w: int| w >= 0 && !(words + 1 <= w < words + 1 + from + 1) implies
                #[trigger] then.word(w) == before.word(w) by {
                assert(machine::stored(by, there).word(w) == by.word(w));
                assert(by.word(w) == state.word(w));
                assert(state.word(w) == before.word(w));
            }
        }
        let after = values_are_answered(stage, next, count, from + 1, before, then);
        machine::going_on_chains(work, next, end, state, then, after);
        after
    }
}

/// A function leaves for its caller, with what it answers.
proof fn a_return_is_met(
    loaded: Loaded,
    stage: Stage,
    mine: Set<ValueId>,
    work: Work,
    values: Seq<ValueId>,
    held: Held,
    numbers: Seq<nat>,
    state: State,
) -> (went: Went)
    requires
        state.ground == loaded.ground,
        loaded.is_sound(),
        stage.layout.fits(),
        !stage.in_entry,
        agrees(stage, held, state),
        machine::is_known(work, state),
        flow::is_within(work),
        ir::machine::read(held, values) == Some(numbers),
        !stage.leave(work, values).failed,
        flow::grows(stage.leave(work, values), loaded.work),
    ensures
        loaded.comes(work.code.len() as int, state, went),
        went matches Went::At(next, after) && goes_back(
            stage,
            loaded.origin,
            state,
            numbers,
            next,
            after,
        ),
{
    let words = stage.layout.words();
    let scratch = (stage.layout.outgoing + stage.layout.slots) as int;
    let stashed = stage.stash(work, values, 0);
    let answered = stage.answer(stashed, values.len(), 0);
    let closed = if stage.layout.frame() > 0 {
        answered.emit(encode::close_frame(stage.layout.frame() as u32))
    } else {
        answered
    };
    let end = stage.leave(work, values);
    assert(end == closed.emit(encode::ret()));
    what_is_read_is_held(stage, values, held, numbers, state);
    flow::a_stash_extends(stage, work, values, 0);
    flow::answering_extends(stage, stashed, values.len(), 0);
    flow::extending_chains(work, stashed, answered);
    assert(flow::extends(answered, closed));
    flow::extending_chains(work, answered, closed);
    flow::writing_extends(closed, encode::ret());
    flow::growth_chains(closed, end, loaded.work);
    flow::what_grows_stays_within(work, closed);
    assert(machine::is_stashed(stage, values, 0, state, state));
    let one = machine::values_are_stashed(stage, work, values, 0, state, state);
    assert(is_answered(stage, 0, one, one));
    let two = values_are_answered(stage, stashed, values.len(), 0, one, one);
    machine::going_on_chains(work, stashed, answered, state, one, two);
    let three = if stage.layout.frame() > 0 {
        a_frame_closes(stage, answered, two)
    } else {
        machine::nothing_goes_nowhere(answered, two);
        two
    };
    machine::going_on_chains(work, answered, closed, state, two, three);
    flow::straight_code_reaches(
        work,
        closed,
        loaded.work,
        loaded.code,
        loaded.origin,
        state,
        three,
    );
    flow::leaving_reaches(closed, loaded.work, loaded.code, loaded.origin, three);
    let after = State { top: three.top + 1, ..three };
    let went = Went::At(three.word(0) - loaded.origin, after);
    coming_chains(loaded, work.code.len() as int, state, closed.code.len() as int, three, went);
    assert(three.word(0) == two.word(words as int));
    assert(two.word(words as int) == one.word(words as int));
    assert(one.word(words as int) == state.word(words as int));
    assert forall|i: int| 0 <= i < numbers.len() implies after.word(i) == #[trigger] numbers[i] by {
        assert(after.word(i) == two.word(words + 1 + i));
        assert(two.word(words + 1 + i) == one.word(scratch + i));
        assert(one.word(scratch + i) == stage.word(values[i], state));
    }
    assert forall|i: int| i >= numbers.len() implies #[trigger] after.word(i) == state.word(
        words + 1 + i,
    ) by {
        assert(after.word(i) == two.word(words + 1 + i));
        assert(two.word(words + 1 + i) == one.word(words + 1 + i));
        assert(one.word(words + 1 + i) == state.word(words + 1 + i));
    }
    went
}

proof fn a_frame_closes(stage: Stage, work: Work, state: State) -> (after: State)
    requires
        stage.layout.fits(),
        state.wf(),
    ensures
        machine::goes_on(
            work,
            work.emit(encode::close_frame(stage.layout.frame() as u32)),
            state,
            after,
        ),
        after.wf(),
        after.stack == state.stack,
        after.top == state.top + stage.layout.words(),
{
    flow::a_frame_shifts(work, stage.layout.words(), false, state)
}

/// A region ends as the program does.
proof fn an_end_is_met(
    loaded: Loaded,
    stage: Stage,
    mine: Set<ValueId>,
    work: Work,
    around: Around,
    answers: nat,
    region: RegionId,
    held: Held,
    left: Left,
    state: State,
) -> (went: Went)
    requires
        state.ground == loaded.ground,
        loaded.is_sound(),
        stage.layout.fits(),
        are_apart(stage, mine),
        around_fits(stage, mine, around),
        agrees(stage, held, state),
        machine::is_known(work, state),
        flow::is_within(work),
        stage.program.region(region).terminator.exit == Exit::Return ==> stage.program.values(
            stage.program.region(region).terminator.values,
        ).len() == answers,
        stage.in_entry ==> answers == 1,
        stage.program.leaves(stage.program.region(region).terminator, held) == Some(left),
        !stage.terminator(work, around, stage.program.region(region).terminator).failed,
        flow::grows(
            stage.terminator(work, around, stage.program.region(region).terminator),
            loaded.work,
        ),
    ensures
        left is Yields ==> stage.program.region(region).terminator.exit == Exit::Yield,
        meets(
            loaded,
            stage,
            mine,
            around,
            answers,
            Set::empty(),
            left,
            work.code.len() as int,
            state,
            went,
        ),
{
    let end = stage.program.region(region).terminator;
    let values = stage.program.values(end.values);
    let numbers = ir::machine::read(held, values)->Some_0;
    what_is_read_is_held(stage, values, held, numbers, state);
    match end.exit {
        Exit::Yield => a_jump_is_met(
            loaded,
            stage,
            mine,
            work,
            values,
            stage.program.values(around.branch->Some_0.0),
            around.branch->Some_0.1,
            held,
            numbers,
            state,
        ),
        Exit::Continue => a_jump_is_met(
            loaded,
            stage,
            mine,
            work,
            values,
            stage.program.values(around.repeat->Some_0.0),
            around.repeat->Some_0.1,
            held,
            numbers,
            state,
        ),
        Exit::Break => a_jump_is_met(
            loaded,
            stage,
            mine,
            work,
            values,
            stage.program.values(around.repeat->Some_0.2),
            around.repeat->Some_0.3,
            held,
            numbers,
            state,
        ),
        Exit::Return => if stage.in_entry {
            a_stop_is_met(loaded, stage, work, values[0], state)
        } else {
            a_return_is_met(loaded, stage, mine, work, values, held, numbers, state)
        },
        Exit::Unreachable => Went::Stops(0),
    }
}


/// Whether code does what an instruction does, and goes on to where the next
/// is written.
pub open spec fn does(
    loaded: Loaded,
    stage: Stage,
    mine: Set<ValueId>,
    around: Around,
    answers: nat,
    touched: Set<ValueId>,
    held: Held,
    step: Step,
    at: int,
    state: State,
    next: Work,
    went: Went,
) -> bool {
    match step {
        Step::Goes(then) => {
            &&& loaded.comes(at, state, went)
            &&& went matches Went::At(place, after) && {
                &&& place == next.code.len()
                &&& machine::is_known(next, after)
                &&& is_steady(stage, mine, state, after, touched)
                &&& agrees(stage, then, after)
                &&& then.dom().subset_of(held.dom().union(touched))
            }
        },
        Step::Leaves(left) => {
            &&& !(left is Yields)
            &&& meets(loaded, stage, mine, around, answers, touched, left, at, state, went)
        },
    }
}

/// Straight code that sets the slots of what an instruction defines does what
/// it does.
proof fn what_is_set_is_done(
    loaded: Loaded,
    stage: Stage,
    mine: Set<ValueId>,
    around: Around,
    answers: nat,
    work: Work,
    next: Work,
    results: Seq<ValueId>,
    held: Held,
    numbers: Seq<nat>,
    state: State,
    went: Went,
)
    requires
        state.ground == loaded.ground,
        are_apart(stage, mine),
        agrees(stage, held, state),
        held.dom().subset_of(mine),
        results.no_duplicates(),
        results.len() == numbers.len(),
        ir::order::among(results).subset_of(mine),
        ir::order::among(results).disjoint(held.dom()),
        loaded.comes(work.code.len() as int, state, went),
        went is At,
        went->At_0 == next.code.len(),
        machine::is_known(next, went->At_1),
        is_steady(stage, mine, state, went->At_1, ir::order::among(results)),
        all_right(stage, results, numbers, went->At_1),
    ensures
        does(
            loaded,
            stage,
            mine,
            around,
            answers,
            ir::order::among(results),
            held,
            Step::Goes(ir::machine::defined(held, results, numbers)),
            work.code.len() as int,
            state,
            next,
            went,
        ),
{
    let after = went->At_1;
    agreement_stays(stage, mine, held, state, after, ir::order::among(results));
    what_is_defined_agrees(stage, held, results, numbers, after);
    let then = ir::machine::defined(held, results, numbers);
    assert(then.dom().subset_of(held.dom().union(ir::order::among(results))));
}

/// An operation is what the program says it is, once its result is kept.
proof fn an_operation_is_done(
    loaded: Loaded,
    stage: Stage,
    mine: Set<ValueId>,
    around: Around,
    answers: nat,
    work: Work,
    op: Op,
    results: Seq<ValueId>,
    held: Held,
    number: nat,
    state: State,
) -> (went: Went)
    requires
        state.ground == loaded.ground,
        loaded.is_sound(),
        stage.layout.fits(),
        are_apart(stage, mine),
        agrees(stage, held, state),
        held.dom().subset_of(mine),
        machine::is_known(work, state),
        flow::is_within(work),
        op is Binary || op is Compare || op is Convert,
        results.len() == 1,
        ir::order::among(results).subset_of(mine),
        ir::order::among(results).disjoint(held.dom()),
        machine::is_classed(stage, op, results[0]),
        !stage.simple(work, op, results).failed,
        flow::grows(stage.simple(work, op, results), loaded.work),
        machine::operation(stage, op, state) == number,
    ensures
        does(
            loaded,
            stage,
            mine,
            around,
            answers,
            ir::order::among(results),
            held,
            Step::Goes(ir::machine::defined(held, results, seq![number])),
            work.code.len() as int,
            state,
            stage.simple(work, op, results),
            went,
        ),
{
    let result = results[0];
    let end = stage.simple(work, op, results);
    assert(ir::order::among(results).contains(result));
    assert(mine.contains(result));
    let after = machine::an_operation_computes(stage, work, op, results, state);
    flow::a_simple_one_extends(stage, work, op, results);
    flow::straight_code_reaches(
        work,
        end,
        loaded.work,
        loaded.code,
        loaded.origin,
        state,
        after,
    );
    let went = Went::At(end.code.len() as int, after);
    let place = stage.place(result);
    assert forall|v: ValueId|
        #[trigger] mine.contains(v) && !ir::order::among(results).contains(v)
            && stage.layout.source[v.0 as int] is Slot implies after.word(stage.place(v))
        == state.word(stage.place(v)) by {
        assert(v != result);
        assert(stage.place(v) != place);
    }
    assert forall|w: int| w >= stage.layout.words() implies #[trigger] after.word(w)
        == state.word(w) by {
        assert(w != place);
    }
    assert(all_right(stage, results, seq![number], after));
    what_is_set_is_done(
        loaded,
        stage,
        mine,
        around,
        answers,
        work,
        end,
        results,
        held,
        seq![number],
        state,
        went,
    );
    went
}

/// A constant is where it is read, so nothing is done where it is written.
proof fn a_constant_is_done(
    loaded: Loaded,
    stage: Stage,
    mine: Set<ValueId>,
    around: Around,
    answers: nat,
    work: Work,
    class: Class,
    value: u64,
    results: Seq<ValueId>,
    held: Held,
    state: State,
) -> (went: Went)
    requires
        state.ground == loaded.ground,
        are_apart(stage, mine),
        agrees(stage, held, state),
        held.dom().subset_of(mine),
        machine::is_known(work, state),
        results.len() == 1,
        ir::order::among(results).subset_of(mine),
        ir::order::among(results).disjoint(held.dom()),
        stage.layout.source[results[0].0 as int] == Source::Const(value),
        class matches Class::Fixed { bits } ==> (value as nat)
            < vstd::arithmetic::power2::pow2(bits as nat),
    ensures
        does(
            loaded,
            stage,
            mine,
            around,
            answers,
            ir::order::among(results),
            held,
            Step::Goes(
                ir::machine::defined(
                    held,
                    results,
                    seq![value as nat % ir::machine::span(class, machine::size())],
                ),
            ),
            work.code.len() as int,
            state,
            work,
            went,
        ),
{
    let number = value as nat % ir::machine::span(class, machine::size());
    match class {
        Class::Fixed { bits } => {
            vstd::arithmetic::div_mod::lemma_small_mod(
                value as nat,
                vstd::arithmetic::power2::pow2(bits as nat),
            );
        },
        _ => {
            vstd::arithmetic::div_mod::lemma_small_mod(value as nat, machine::size());
        },
    }
    let went = Went::At(work.code.len() as int, state);
    machine::staying_reaches(loaded.code, loaded.origin, work.code.len() as int, state);
    assert(is_right(stage, results[0], number, state));
    assert(all_right(stage, results, seq![number], state));
    what_is_set_is_done(
        loaded,
        stage,
        mine,
        around,
        answers,
        work,
        work,
        results,
        held,
        seq![number],
        state,
        went,
    );
    went
}

/// An address needs no code of its own.
proof fn an_address_is_done(
    loaded: Loaded,
    stage: Stage,
    mine: Set<ValueId>,
    around: Around,
    answers: nat,
    work: Work,
    data: DataId,
    results: Seq<ValueId>,
    held: Held,
    state: State,
) -> (went: Went)
    requires
        state.ground == loaded.ground,
        are_apart(stage, mine),
        agrees(stage, held, state),
        held.dom().subset_of(mine),
        machine::is_known(work, state),
        results.len() == 1,
        ir::order::among(results).subset_of(mine),
        ir::order::among(results).disjoint(held.dom()),
        stage.layout.source[results[0].0 as int] == Source::Addr(data),
    ensures
        does(
            loaded,
            stage,
            mine,
            around,
            answers,
            ir::order::among(results),
            held,
            Step::Goes(
                ir::machine::defined(held, results, seq![loaded.ground.address(data) as nat]),
            ),
            work.code.len() as int,
            state,
            work,
            went,
        ),
{
    let number = loaded.ground.address(data) as nat;
    let went = Went::At(work.code.len() as int, state);
    machine::staying_reaches(loaded.code, loaded.origin, work.code.len() as int, state);
    assert(is_right(stage, results[0], number, state));
    assert(all_right(stage, results, seq![number], state));
    what_is_set_is_done(
        loaded,
        stage,
        mine,
        around,
        answers,
        work,
        work,
        results,
        held,
        seq![number],
        state,
        went,
    );
    went
}

/// The operations that neither branch, call nor ask.
proof fn a_simple_one_is_met(
    loaded: Loaded,
    stage: Stage,
    mine: Set<ValueId>,
    around: Around,
    answers: nat,
    work: Work,
    op: Op,
    results: Seq<ValueId>,
    held: Held,
    step: Step,
    state: State,
    fuel: nat,
) -> (went: Went)
    requires
        state.ground == loaded.ground,
        loaded.is_sound(),
        stage.layout.fits(),
        are_apart(stage, mine),
        agrees(stage, held, state),
        held.dom().subset_of(mine),
        machine::is_known(work, state),
        flow::is_within(work),
        op is Constant || op is Binary || op is Compare || op is Convert,
        ir::order::among(results).subset_of(mine),
        ir::order::among(results).disjoint(held.dom()),
        machine::is_classed(stage, op, results[0]),
        op matches Op::Constant { class, value } ==> {
            &&& stage.layout.source[results[0].0 as int] == Source::Const(value)
            &&& class matches Class::Fixed { bits } ==> (value as nat)
                < vstd::arithmetic::power2::pow2(bits as nat)
        },
        !stage.simple(work, op, results).failed,
        flow::grows(stage.simple(work, op, results), loaded.work),
        stage.program.op_runs(host(stage.program, loaded.ground), op, results, held, fuel) == Some(step),
    ensures
        does(
            loaded,
            stage,
            mine,
            around,
            answers,
            ir::order::among(results),
            held,
            step,
            work.code.len() as int,
            state,
            stage.simple(work, op, results),
            went,
        ),
{
    match op {
        Op::Constant { class, value } => a_constant_is_done(
            loaded,
            stage,
            mine,
            around,
            answers,
            work,
            class,
            value,
            results,
            held,
            state,
        ),
        Op::Binary { op: how, left, right } => {
            let both = ir::machine::read(held, seq![left, right])->Some_0;
            what_is_read_is_held(stage, seq![left, right], held, both, state);
            assert(seq![left, right][0] == left && seq![left, right][1] == right);
            an_operation_is_done(
                loaded,
                stage,
                mine,
                around,
                answers,
                work,
                op,
                results,
                held,
                stage.program.computed(
                    how,
                    stage.program.class(left),
                    both[0],
                    both[1],
                    machine::size(),
                ),
                state,
            )
        },
        Op::Compare { relation, left, right } => {
            let both = ir::machine::read(held, seq![left, right])->Some_0;
            what_is_read_is_held(stage, seq![left, right], held, both, state);
            assert(seq![left, right][0] == left && seq![left, right][1] == right);
            let holds = match relation {
                Relation::Equal => both[0] == both[1],
                Relation::Less => both[0] < both[1],
            };
            an_operation_is_done(
                loaded,
                stage,
                mine,
                around,
                answers,
                work,
                op,
                results,
                held,
                if holds {
                    1
                } else {
                    0
                },
                state,
            )
        },
        Op::Convert { class, value } => {
            let one = ir::machine::read(held, seq![value])->Some_0;
            what_is_read_is_held(stage, seq![value], held, one, state);
            assert(seq![value][0] == value);
            an_operation_is_done(
                loaded,
                stage,
                mine,
                around,
                answers,
                work,
                op,
                results,
                held,
                one[0] % ir::machine::span(class, machine::size()),
                state,
            )
        },
        _ => Went::Stops(0),
    }
}

/// Asking the platform.
proof fn a_platform_call_is_met(
    loaded: Loaded,
    stage: Stage,
    mine: Set<ValueId>,
    around: Around,
    answers: nat,
    touched: Set<ValueId>,
    work: Work,
    platform: PlatformId,
    args: Range,
    results: Seq<ValueId>,
    held: Held,
    step: Step,
    state: State,
    fuel: nat,
) -> (went: Went)
    requires
        state.ground == loaded.ground,
        loaded.is_sound(),
        stage.layout.fits(),
        agrees(stage, held, state),
        held.dom().subset_of(mine),
        machine::is_known(work, state),
        flow::is_within(work),
        !stage.simple(work, Op::PlatformCall { platform, args }, results).failed,
        flow::grows(
            stage.simple(work, Op::PlatformCall { platform, args }, results),
            loaded.work,
        ),
        stage.program.op_runs(
            host(stage.program, loaded.ground),
            Op::PlatformCall { platform, args },
            results,
            held,
            fuel,
        ) == Some(step),
    ensures
        does(
            loaded,
            stage,
            mine,
            around,
            answers,
            touched,
            held,
            step,
            work.code.len() as int,
            state,
            stage.simple(work, Op::PlatformCall { platform, args }, results),
            went,
        ),
{
    let values = stage.program.values(args);
    let numbers = ir::machine::read(held, values)->Some_0;
    what_is_read_is_held(stage, values, held, numbers, state);
    if is_exit(stage.program, platform) {
        assert("write"@ != "exit"@) by {
            reveal_strlit("write");
            reveal_strlit("exit");
            assert("write"@.len() == 5 && "exit"@.len() == 4);
        }
        assert(values.len() > 0);
        a_stop_is_met(loaded, stage, work, values[0], state)
    } else if stage.program.is_write(platform) {
        assert(values.len() > 1);
        let told = write_asked(stage, work, values);
        let by = a_write_is_prepared(stage, work, values, state);
        assert(by.regs[6] == numbers[0] && by.regs[2] == numbers[1]);
        let before = work.code.len() as int;
        flow::asking_extends(told);
        flow::growth_chains(told, told.syscall(), loaded.work);
        a_write_extends(stage, work, values);
        flow::what_grows_stays_within(work, told);
        if (loaded.ground.watch)(by.regs[6], by.regs[2]) {
            flow::straight_code_reaches(
                work,
                told,
                loaded.work,
                loaded.code,
                loaded.origin,
                state,
                by,
            );
            flow::asking_writes(told, loaded.work, loaded.code, loaded.origin, by);
            let went = Went::Writes(by.regs[6], by.regs[2]);
            coming_chains(loaded, before, state, told.code.len() as int, by, went);
            went
        } else {
            let after = machine::asking_to_write_goes_on(told, by);
            let none: Set<ValueId> = Set::empty();
            machine::going_on_chains(work, told, told.syscall(), state, by, after);
            machine::keeping_chains(state, by, after);
            flow::growth_chains(work, told, told.syscall());
            flow::straight_code_reaches(
                work,
                told.syscall(),
                loaded.work,
                loaded.code,
                loaded.origin,
                state,
                after,
            );
            keeping_is_steady(stage, mine, state, after);
            agreement_stays(stage, mine, held, state, after, none);
            Went::At(told.syscall().code.len() as int, after)
        }
    } else {
        Went::Stops(0)
    }
}

/// What is written up to where the system is asked to write.
pub open spec fn write_asked(stage: Stage, work: Work, args: Seq<ValueId>) -> Work {
    let called = work.load_const(Reg::Rax, lower::SYS_WRITE).load_const(Reg::Rdi, lower::STDOUT);
    stage.read(stage.read(called, Reg::Rsi, args[0]), Reg::Rdx, args[1])
}

proof fn a_write_extends(stage: Stage, work: Work, args: Seq<ValueId>)
    ensures
        flow::extends(work, write_asked(stage, work, args)),
        flow::extends(
            stage.read(
                work.load_const(Reg::Rax, lower::SYS_WRITE).load_const(
                    Reg::Rdi,
                    lower::STDOUT,
                ),
                Reg::Rsi,
                args[0],
            ),
            write_asked(stage, work, args),
        ),
{
    let one = work.load_const(Reg::Rax, lower::SYS_WRITE);
    let two = one.load_const(Reg::Rdi, lower::STDOUT);
    let three = stage.read(two, Reg::Rsi, args[0]);
    let four = stage.read(three, Reg::Rdx, args[1]);
    flow::a_constant_extends(work, Reg::Rax, lower::SYS_WRITE);
    flow::a_constant_extends(one, Reg::Rdi, lower::STDOUT);
    flow::reading_extends(stage, two, Reg::Rsi, args[0]);
    flow::reading_extends(stage, three, Reg::Rdx, args[1]);
    flow::extending_chains(work, one, two);
    flow::extending_chains(work, two, three);
    flow::extending_chains(work, three, four);
}

/// The registers hold what the system is told, once it is about to be asked to
/// write.
proof fn a_write_is_prepared(stage: Stage, work: Work, args: Seq<ValueId>, state: State) -> (
    by: State)
    requires
        stage.layout.fits(),
        machine::is_known(work, state),
        args.len() > 1,
        !write_asked(stage, work, args).failed,
    ensures
        machine::goes_on(work, write_asked(stage, work, args), state, by),
        machine::is_known(write_asked(stage, work, args), by),
        machine::keeps(state, by),
        by.asks_to_write(),
        by.regs[6] == stage.word(args[0], state),
        by.regs[2] == stage.word(args[1], state),
{
    let one = work.load_const(Reg::Rax, lower::SYS_WRITE);
    let two = one.load_const(Reg::Rdi, lower::STDOUT);
    let three = stage.read(two, Reg::Rsi, args[0]);
    let four = write_asked(stage, work, args);
    a_write_extends(stage, work, args);
    let first = machine::a_constant_is_loaded(work, Reg::Rax, lower::SYS_WRITE, state);
    let second = machine::a_constant_is_loaded(one, Reg::Rdi, lower::STDOUT, first);
    machine::keeping_chains(state, first, second);
    machine::a_word_is_kept(stage, args[0], state, second);
    let third = machine::a_value_is_read(stage, two, Reg::Rsi, args[0], second);
    machine::keeping_chains(state, second, third);
    machine::a_word_is_kept(stage, args[1], state, third);
    let by = machine::a_value_is_read(stage, three, Reg::Rdx, args[1], third);
    machine::keeping_chains(state, third, by);
    machine::going_on_chains(work, one, two, state, first, second);
    machine::going_on_chains(work, two, three, state, second, third);
    machine::going_on_chains(work, three, four, state, third, by);
    by
}

/// The first `count` arguments, each in a word at the bottom of the frame, and
/// nothing past those words touched.
spec fn is_passed(stage: Stage, args: Seq<ValueId>, count: int, before: State, after: State) -> bool {
    &&& after.ground == before.ground
    &&& after.top == before.top
    &&& forall|i: int|
        0 <= i < count ==> after.word(i) == stage.word(#[trigger] args[i], before)
    &&& forall|w: int|
        w >= stage.layout.outgoing ==> #[trigger] after.word(w) == before.word(w)
}

proof fn values_are_passed(
    stage: Stage,
    work: Work,
    args: Seq<ValueId>,
    from: int,
    before: State,
    state: State,
) -> (after: State)
    requires
        0 <= from <= args.len(),
        machine::is_known(work, state),
        stage.layout.fits(),
        is_passed(stage, args, from, before, state),
        !stage.pass(work, args, from).failed,
    ensures
        machine::goes_on(work, stage.pass(work, args, from), state, after),
        machine::is_known(stage.pass(work, args, from), after),
        is_passed(stage, args, args.len() as int, before, after),
    decreases args.len() - from,
{
    let end = stage.pass(work, args, from);
    if from >= args.len() {
        machine::nothing_goes_nowhere(work, state);
        state
    } else {
        let value = args[from];
        let at = from as nat;
        let held = stage.read(work, Reg::Rax, value);
        let next = held.store_slot(8 * at);
        flow::passing_extends(stage, next, args, from + 1);
        let by = machine::a_value_is_read(stage, work, Reg::Rax, value, state);
        assert(stage.word(value, state) == stage.word(value, before)) by {
            match stage.layout.source[value.0 as int] {
                Source::Slot(index) => {
                    let w = stage.layout.outgoing + index;
                    assert(state.word(w) == before.word(w));
                },
                Source::Param(index) => {
                    let w = stage.layout.words() + 1 + index;
                    assert(state.word(w) == before.word(w));
                },
                _ => {},
            }
        }
        machine::a_slot_is_stored(held, at, by);
        let then = machine::stored(by, at);
        machine::going_on_chains(work, held, next, state, by, then);
        assert(is_passed(stage, args, from + 1, before, then)) by {
            assert forall|i: int| 0 <= i < from + 1 implies then.word(i) == stage.word(
                #[trigger] args[i],
                before,
            ) by {
                if i < from {
                    assert(machine::stored(by, at).word(i) == by.word(i));
                    assert(by.word(i) == state.word(i));
                } else {
                    assert(machine::stored(by, at).word(at as int) == by.regs[0]);
                }
            }
            assert forall|w: int| w >= stage.layout.outgoing implies #[trigger] then.word(w)
                == before.word(w) by {
                assert(machine::stored(by, at).word(w) == by.word(w));
                assert(by.word(w) == state.word(w));
                assert(state.word(w) == before.word(w));
            }
        }
        let after = values_are_passed(stage, next, args, from + 1, before, then);
        machine::going_on_chains(work, next, end, state, then, after);
        after
    }
}

/// The first `count` results have what was answered, and nothing else from the
/// top of the stack up has changed.
spec fn is_taken(
    stage: Stage,
    results: Seq<ValueId>,
    count: int,
    before: State,
    after: State,
) -> bool {
    &&& after.ground == before.ground
    &&& after.top == before.top
    &&& forall|i: int|
        0 <= i < count ==> after.word(stage.place(#[trigger] results[i])) == before.word(i)
    &&& forall|w: int|
        w >= 0 && (forall|i: int|
            0 <= i < count ==> w != stage.place(#[trigger] results[i])) ==> #[trigger] after.word(
            w,
        ) == before.word(w)
}

proof fn answers_are_taken(
    stage: Stage,
    work: Work,
    results: Seq<ValueId>,
    from: int,
    before: State,
    state: State,
) -> (after: State)
    requires
        0 <= from <= results.len(),
        machine::is_known(work, state),
        stage.layout.fits(),
        machine::are_apart(stage, results),
        forall|i: int|
            0 <= i < results.len() ==> stage.layout.source[(
            #[trigger] results[i]).0 as int] is Slot,
        is_taken(stage, results, from, before, state),
        !stage.take(work, results, from).failed,
    ensures
        machine::goes_on(work, stage.take(work, results, from), state, after),
        machine::is_known(stage.take(work, results, from), after),
        is_taken(stage, results, results.len() as int, before, after),
    decreases results.len() - from,
{
    let end = stage.take(work, results, from);
    if from >= results.len() {
        machine::nothing_goes_nowhere(work, state);
        state
    } else {
        let value = results[from];
        let at = from as nat;
        let held = work.load_slot(Reg::Rax, 8 * at);
        let next = stage.keep(held, value);
        flow::taking_extends(stage, next, results, from + 1);
        machine::a_slot_is_loaded(work, Reg::Rax, at, state);
        let by = state.set(0, state.word(at as int));
        assert(machine::keeps(state, by));
        let then = machine::a_result_is_kept(stage, held, value, by);
        assert(state.word(at as int) == before.word(at as int)) by {
            assert forall|i: int| 0 <= i < from implies at != stage.place(
                #[trigger] results[i],
            ) by {
                assert(stage.place(results[i]) >= stage.layout.outgoing);
            }
        }
        machine::going_on_chains(work, held, next, state, by, then);
        assert(is_taken(stage, results, from + 1, before, then)) by {
            assert forall|i: int| 0 <= i < from + 1 implies then.word(
                stage.place(#[trigger] results[i]),
            ) == before.word(i) by {
                if i < from {
                    assert(stage.layout.source[results[i].0 as int]
                        != stage.layout.source[results[from].0 as int]);
                    let w = stage.place(results[i]);
                    assert(then.word(w) == by.word(w));
                    assert(by.word(w) == state.word(w));
                }
            }
            assert forall|w: int|
                w >= 0 && (forall|i: int|
                    0 <= i < from + 1 ==> w != stage.place(
                        #[trigger] results[i],
                    )) implies #[trigger] then.word(w) == before.word(w) by {
                assert(w != stage.place(results[from]));
                assert(then.word(w) == by.word(w));
                assert(by.word(w) == state.word(w));
                assert(state.word(w) == before.word(w));
            }
        }
        let after = answers_are_taken(stage, next, results, from + 1, before, then);
        machine::going_on_chains(work, next, end, state, then, after);
        after
    }
}

/// Whether a call, made with where to come back to on top of the stack and
/// what is passed under it, comes to what the program says it does.
pub open spec fn call_meets(
    program: Parts,
    loaded: Loaded,
    f: FunctionId,
    left: Left,
    state: State,
    went: Went,
) -> bool {
    let at = loaded.place_of(Label(f.0 as usize));
    match left {
        Left::Answers(numbers) => {
            &&& loaded.comes(at, state, went)
            &&& if f.0 == 0 {
                went matches Went::Stops(status) && numbers.len() == 1 && status == numbers[0]
            } else {
                went matches Went::At(next, after) && {
                    &&& after.wf()
                    &&& next == state.word(0) - loaded.origin
                    &&& after.top == state.top + 1
                    &&& forall|i: int|
                        0 <= i < numbers.len() ==> after.word(i) == #[trigger] numbers[i]
                    &&& forall|i: int|
                        i >= numbers.len() ==> #[trigger] after.word(i) == state.word(1 + i)
                }
            }
        },
        Left::Asks(platform, numbers) => asks_alike(
            program,
            loaded,
            platform,
            numbers,
            at,
            state,
            went,
        ),
        _ => true,
    }
}

/// A call hands over its arguments.
proof fn a_call_is_made(
    loaded: Loaded,
    stage: Stage,
    work: Work,
    function: FunctionId,
    args: Seq<ValueId>,
    held: Held,
    numbers: Seq<nat>,
    state: State,
) -> (by: State)
    requires
        state.ground == loaded.ground,
        loaded.is_sound(),
        stage.layout.fits(),
        agrees(stage, held, state),
        machine::is_known(work, state),
        flow::is_within(work),
        ir::machine::read(held, args) == Some(numbers),
        !stage.pass(work, args, 0).failed,
        flow::grows(
            stage.pass(work, args, 0).call(Label(function.0 as usize)),
            loaded.work,
        ),
    ensures
        ({
            let called = stage.pass(work, args, 0).call(Label(function.0 as usize));
            let back = lower::word(loaded.origin + called.code.len() as int);
            &&& loaded.comes(
                work.code.len() as int,
                state,
                Went::At(loaded.place_of(Label(function.0 as usize)), by.push(back)),
            )
            &&& back == loaded.origin + called.code.len()
            &&& flow::is_within(called)
        }),
        by.wf(),
        by.top == state.top,
        forall|i: int| 0 <= i < numbers.len() ==> by.word(i) == #[trigger] numbers[i],
        forall|w: int|
            w >= stage.layout.outgoing ==> #[trigger] by.word(w) == state.word(w),
{
    let label = Label(function.0 as usize);
    let passed = stage.pass(work, args, 0);
    let called = passed.call(label);
    let back = lower::word(loaded.origin + called.code.len() as int);
    what_is_read_is_held(stage, args, held, numbers, state);
    assert(is_passed(stage, args, 0, state, state));
    let by = values_are_passed(stage, work, args, 0, state, state);
    flow::passing_extends(stage, work, args, 0);
    flow::a_hole_is_four();
    flow::going_toward_extends(passed, encode::call(), label);
    flow::growth_chains(passed, called, loaded.work);
    flow::what_grows_stays_within(work, passed);
    flow::what_grows_stays_within(passed, called);
    flow::straight_code_reaches(
        work,
        passed,
        loaded.work,
        loaded.code,
        loaded.origin,
        state,
        by,
    );
    flow::a_call_reaches(passed, label, loaded.work, loaded.code, loaded.origin, by);
    coming_chains(
        loaded,
        work.code.len() as int,
        state,
        passed.code.len() as int,
        by,
        Went::At(loaded.place_of(label), by.push(back)),
    );
    assert forall|i: int| 0 <= i < numbers.len() implies by.word(i) == #[trigger] numbers[i] by {
        assert(by.word(i) == stage.word(args[i], state));
    }
    by
}

/// What is answered is taken.
proof fn an_answer_is_taken(
    loaded: Loaded,
    stage: Stage,
    mine: Set<ValueId>,
    called: Work,
    results: Seq<ValueId>,
    numbers: Seq<nat>,
    state: State,
    back: State,
) -> (after: State)
    requires
        state.ground == loaded.ground,
        loaded.is_sound(),
        stage.layout.fits(),
        are_apart(stage, mine),
        machine::is_known(called, back),
        flow::is_within(called),
        results.no_duplicates(),
        results.len() == numbers.len(),
        ir::order::among(results).subset_of(mine),
        back.ground == state.ground,
        back.top == state.top,
        forall|i: int| 0 <= i < numbers.len() ==> back.word(i) == #[trigger] numbers[i],
        forall|w: int|
            w >= stage.layout.outgoing && w >= numbers.len() ==> #[trigger] back.word(w)
                == state.word(w),
        !stage.take(called, results, 0).failed,
        flow::grows(stage.take(called, results, 0), loaded.work),
    ensures
        loaded.comes(
            called.code.len() as int,
            back,
            Went::At(stage.take(called, results, 0).code.len() as int, after),
        ),
        machine::is_known(stage.take(called, results, 0), after),
        is_steady(stage, mine, state, after, ir::order::among(results)),
        all_right(stage, results, numbers, after),
{
    let end = stage.take(called, results, 0);
    what_is_taken_has_slots(stage, called, results, 0);
    slots_are_apart(stage, mine, results);
    assert(is_taken(stage, results, 0, back, back));
    let after = answers_are_taken(stage, called, results, 0, back, back);
    flow::taking_extends(stage, called, results, 0);
    flow::straight_code_reaches(
        called,
        end,
        loaded.work,
        loaded.code,
        loaded.origin,
        back,
        after,
    );
    assert forall|i: int| 0 <= i < results.len() implies #[trigger] is_right(
        stage,
        results[i],
        numbers[i],
        after,
    ) by {
        assert(after.word(stage.place(results[i])) == back.word(i));
        assert(back.word(i) == numbers[i]);
    }
    assert forall|v: ValueId|
        #[trigger] mine.contains(v) && !ir::order::among(results).contains(v)
            && stage.layout.source[v.0 as int] is Slot implies after.word(stage.place(v))
        == state.word(stage.place(v)) by {
        let w = stage.place(v);
        assert forall|i: int| 0 <= i < results.len() implies w != stage.place(
            #[trigger] results[i],
        ) by {}
        assert(after.word(w) == back.word(w));
        assert(back.word(w) == state.word(w));
    }
    assert forall|w: int| w >= stage.layout.words() implies #[trigger] after.word(w)
        == state.word(w) by {
        assert forall|i: int| 0 <= i < results.len() implies w != stage.place(
            #[trigger] results[i],
        ) by {}
        assert(after.word(w) == back.word(w));
        assert(back.word(w) == state.word(w));
    }
    after
}


/// With nothing around it.
pub open spec fn nowhere() -> Around {
    Around { branch: None, repeat: None }
}

/// What is written where a function's body begins.
pub open spec fn begun(program: Parts, f: FunctionId) -> Work {
    let bound = lower::functions(program, f.0 as int).bind(Label(f.0 as usize));
    let layout = stage_of(program, f).layout;
    if layout.frame() > 0 {
        bound.emit(encode::open_frame(layout.frame() as u32))
    } else {
        bound
    }
}

/// Whether a function's values have places of their own, and it is written as
/// it was to be.
pub open spec fn function_stands(program: Parts, loaded: Loaded, f: FunctionId) -> bool {
    let stage = stage_of(program, f);
    let body = program.function(f).body;
    let params = program.values(program.function(f).params);
    let before = lower::functions(program, f.0 as int).bind(Label(f.0 as usize));
    let start = begun(program, f);
    let end = stage.region(start, nowhere(), body, 0);
    &&& stage.layout.fits()
    &&& are_apart(stage, program.function_given(f))
    &&& stage.is_laid(body, 0)
    &&& forall|i: int|
        0 <= i < params.len() ==> stage.layout.source[(#[trigger] params[i]).0 as int]
            == Source::Param(i as u32)
    &&& flow::is_within(before)
    &&& flow::is_settled(start, end, loaded.work)
    &&& !end.failed
    &&& loaded.place_of(Label(f.0 as usize)) == before.code.len()
}

/// Whether a whole program is.
pub open spec fn program_stands(program: Parts, loaded: Loaded) -> bool {
    &&& program.wf()
    &&& program.agrees()
    &&& program.orderly()
    &&& program.is_uncalled(FunctionId(0))
    &&& loaded.is_sound()
    &&& forall|f: FunctionId|
        f.0 < program.functions.len() ==> #[trigger] function_stands(program, loaded, f)
}

/// Whether a region of a function can be followed from one of its
/// instructions on.
pub open spec fn region_stands(
    program: Parts,
    loaded: Loaded,
    f: FunctionId,
    work: Work,
    around: Around,
    region: RegionId,
    from: int,
) -> bool {
    let stage = stage_of(program, f);
    &&& region.0 < program.regions.len()
    &&& 0 <= from <= program.region_ops(region).len()
    &&& !stage.region(work, around, region, from).failed
    &&& flow::is_settled(work, stage.region(work, around, region, from), loaded.work)
    &&& stage.is_laid(region, from)
    &&& program.is_single(region, from)
    &&& program.region_agrees(
        region,
        program.function(f).answers.read(program.signature),
        from,
    )
    &&& program.given(region, from).subset_of(program.function_given(f))
    &&& around_fits(stage, program.function_given(f), around)
}

/// What a program holds and what the stack holds, side by side.
pub open spec fn stays(program: Parts, f: FunctionId, work: Work, held: Held, state: State) -> bool {
    &&& machine::is_known(work, state)
    &&& agrees(stage_of(program, f), held, state)
    &&& held.dom().subset_of(program.function_given(f))
}

proof fn a_stage_is_its_programs(program: Parts, f: FunctionId)
    ensures
        stage_of(program, f).program == program,
        stage_of(program, f).in_entry == (f.0 == 0),
        stage_of(program, f).layout == Layout::of(program, program.function(f), f.0 == 0),
{
    reveal(stage_of);
}

/// There are as many results as there are instructions.
proof fn every_op_has_results(program: Parts, region: RegionId)
    requires
        program.wf(),
        region.0 < program.regions.len(),
    ensures
        program.region_ops(region).len() == program.region_results(region).len(),
{
    assert(program.region_fits(program.regions[region.0 as int]));
}

/// A function answers as many words as it says.
proof fn an_answer_is_as_long(program: Parts, f: FunctionId)
    requires
        program.wf(),
        f.0 < program.functions.len(),
    ensures
        program.function(f).answers.read(program.signature).len() == program.function(f).answers.len,
        program.values(program.function(f).params).len() == program.function(f).params.len,
        program.function(f).body.0 < program.regions.len(),
{
    assert(program.function_fits(program.functions[f.0 as int]));
}

/// A choice asks what its condition comes to, and goes to the arm for it.
proof fn asking_tells(
    loaded: Loaded,
    stage: Stage,
    work: Work,
    condition: ValueId,
    number: nat,
    state: State,
) -> (after: State)
    requires
        state.ground == loaded.ground,
        loaded.is_sound(),
        stage.layout.fits(),
        machine::is_known(work, state),
        flow::is_within(work),
        is_right(stage, condition, number, state),
        !flow::asked(stage, work, condition).failed,
        flow::grows(flow::asked(stage, work, condition), loaded.work),
    ensures
        loaded.comes(
            work.code.len() as int,
            state,
            Went::At(
                if number == 0 {
                    loaded.place_of(work.next())
                } else {
                    flow::asked(stage, work, condition).code.len() as int
                },
                after,
            ),
        ),
        machine::keeps(state, after),
        machine::is_known(flow::asked(stage, work, condition), after),
{
    let start = work.label().label();
    let held = stage.read(start, Reg::Rax, condition);
    let tested = held.emit(encode::alu(0x85, Reg::Rax, Reg::Rax));
    let end = flow::asked(stage, work, condition);
    let by = machine::a_value_is_read(stage, start, Reg::Rax, condition, state);
    flow::a_test_tells(held, by);
    let after = by.found(by.regs[0] == 0, false);
    assert(machine::keeps(by, after));
    machine::keeping_chains(state, by, after);
    machine::going_on_chains(start, held, tested, state, by, after);
    flow::reading_extends(stage, start, Reg::Rax, condition);
    flow::writing_extends(held, encode::alu(0x85, Reg::Rax, Reg::Rax));
    flow::extending_chains(start, held, tested);
    flow::a_hole_is_four();
    flow::going_toward_extends(tested, encode::jump_if(lower::EQUAL), work.next());
    flow::growth_chains(tested, end, loaded.work);
    assert(flow::is_within(start));
    flow::what_grows_stays_within(start, tested);
    flow::straight_code_reaches(
        start,
        tested,
        loaded.work,
        loaded.code,
        loaded.origin,
        state,
        after,
    );
    flow::a_branch_reaches(
        tested,
        work.next(),
        loaded.work,
        loaded.code,
        loaded.origin,
        after,
    );
    let went = Went::At(
        if number == 0 {
            loaded.place_of(work.next())
        } else {
            end.code.len() as int
        },
        after,
    );
    coming_chains(
        loaded,
        work.code.len() as int,
        state,
        tested.code.len() as int,
        after,
        went,
    );
    after
}

/// A choice is left as its arm is.
proof fn a_choice_is_met(
    loaded: Loaded,
    stage: Stage,
    mine: Set<ValueId>,
    around: Around,
    answers: nat,
    inner: Set<ValueId>,
    touched: Set<ValueId>,
    work: Work,
    next: Work,
    results: Range,
    held: Held,
    left: Left,
    step: Step,
    state: State,
    went: Went,
)
    requires
        state.ground == loaded.ground,
        agrees(stage, held, state),
        held.dom().subset_of(mine),
        held.dom().disjoint(touched),
        stage.program.values(results).no_duplicates(),
        inner.union(ir::order::among(stage.program.values(results))).subset_of(touched),
        next.known == lower::nothing_known(),
        loaded.place_of(work.label().next()) == next.code.len(),
        meets(
            loaded,
            stage,
            mine,
            flow::inside_if(work, around, results),
            answers,
            inner,
            left,
            work.code.len() as int,
            state,
            went,
        ),
        match left {
            Left::Yields(numbers) => {
                &&& numbers.len() == stage.program.values(results).len()
                &&& step == Step::Goes(
                    ir::machine::defined(held, stage.program.values(results), numbers),
                )
            },
            _ => step == Step::Leaves(left),
        },
    ensures
        does(
            loaded,
            stage,
            mine,
            around,
            answers,
            touched,
            held,
            step,
            work.code.len() as int,
            state,
            next,
            went,
        ),
{
    let places = stage.program.values(results);
    match left {
        Left::Yields(numbers) => {
            let after = went->At_1;
            let free = inner.union(ir::order::among(places));
            assert(is_steady(stage, mine, state, after, touched));
            agreement_stays(stage, mine, held, state, after, touched);
            what_is_defined_agrees(stage, held, places, numbers, after);
            let then = ir::machine::defined(held, places, numbers);
            assert(then.dom().subset_of(held.dom().union(touched))) by {
                assert forall|v: ValueId| then.dom().contains(v) implies held.dom().union(
                    touched,
                ).contains(v) by {
                    if places.contains(v) {
                        assert(ir::order::among(places).contains(v));
                        assert(free.contains(v));
                    }
                }
            }
            assert(machine::is_known(next, after));
        },
        _ => {
            meeting_widens(
                loaded,
                stage,
                mine,
                flow::inside_if(work, around, results),
                around,
                answers,
                inner,
                touched,
                left,
                work.code.len() as int,
                state,
                went,
            );
        },
    }
}

/// What leaves more than one region leaves the inner and the outer.
proof fn meeting_widens(
    loaded: Loaded,
    stage: Stage,
    mine: Set<ValueId>,
    within: Around,
    around: Around,
    answers: nat,
    inner: Set<ValueId>,
    touched: Set<ValueId>,
    left: Left,
    at: int,
    state: State,
    went: Went,
)
    requires
        state.ground == loaded.ground,
        meets(loaded, stage, mine, within, answers, inner, left, at, state, went),
        !(left is Yields),
        left is Continues || left is Breaks ==> within.repeat == around.repeat,
        inner.subset_of(touched),
    ensures
        meets(loaded, stage, mine, around, answers, touched, left, at, state, went),
{
    match left {
        Left::Continues(numbers) => {
            let values = stage.program.values(around.repeat->Some_0.0);
            if numbers.len() == values.len() {
                assert(is_steady(
                    stage,
                    mine,
                    state,
                    went->At_1,
                    touched.union(ir::order::among(values)),
                ));
            }
        },
        Left::Breaks(numbers) => {
            let values = stage.program.values(around.repeat->Some_0.2);
            if numbers.len() == values.len() {
                assert(is_steady(
                    stage,
                    mine,
                    state,
                    went->At_1,
                    touched.union(ir::order::among(values)),
                ));
            }
        },
        _ => {},
    }
}

/// Whether going round comes to what the program's does: it is broken out of,
/// or the function is left.
pub open spec fn round_meets(
    loaded: Loaded,
    stage: Stage,
    mine: Set<ValueId>,
    around: Around,
    answers: nat,
    touched: Set<ValueId>,
    results: Range,
    label: Label,
    left: Left,
    at: int,
    state: State,
    went: Went,
) -> bool {
    match left {
        Left::Breaks(numbers) => numbers.len() == stage.program.values(results).len() ==> lands(
            loaded,
            stage,
            mine,
            touched,
            label,
            stage.program.values(results),
            numbers,
            at,
            state,
            went,
        ),
        Left::Answers(_) => meets(
            loaded,
            stage,
            mine,
            around,
            answers,
            touched,
            left,
            at,
            state,
            went,
        ),
        Left::Asks(_, _) => meets(
            loaded,
            stage,
            mine,
            around,
            answers,
            touched,
            left,
            at,
            state,
            went,
        ),
        _ => false,
    }
}

/// Once round a loop.
proof fn once_round(
    loaded: Loaded,
    stage: Stage,
    mine: Set<ValueId>,
    around: Around,
    within: Around,
    answers: nat,
    inner: Set<ValueId>,
    touched: Set<ValueId>,
    results: Range,
    label: Label,
    left: Left,
    at: int,
    state: State,
    went: Went,
)
    requires
        state.ground == loaded.ground,
        !(left is Continues),
        !(left is Yields),
        inner.subset_of(touched),
        within.repeat is Some,
        within.repeat->Some_0.2 == results,
        within.repeat->Some_0.3 == label,
        meets(loaded, stage, mine, within, answers, inner, left, at, state, went),
    ensures
        round_meets(
            loaded,
            stage,
            mine,
            around,
            answers,
            touched,
            results,
            label,
            left,
            at,
            state,
            went,
        ),
{
    match left {
        Left::Breaks(numbers) => {
            let places = stage.program.values(results);
            if numbers.len() == places.len() {
                assert(is_steady(
                    stage,
                    mine,
                    state,
                    went->At_1,
                    touched.union(ir::order::among(places)),
                ));
            }
        },
        _ => {
            meeting_widens(
                loaded,
                stage,
                mine,
                within,
                around,
                answers,
                inner,
                touched,
                left,
                at,
                state,
                went,
            );
        },
    }
}

/// Round a loop again.
proof fn round_again(
    loaded: Loaded,
    stage: Stage,
    mine: Set<ValueId>,
    around: Around,
    answers: nat,
    one: Set<ValueId>,
    touched: Set<ValueId>,
    results: Range,
    label: Label,
    left: Left,
    at: int,
    state: State,
    mid_at: int,
    mid: State,
    went: Went,
)
    requires
        state.ground == loaded.ground,
        one.subset_of(touched),
        loaded.comes(at, state, Went::At(mid_at, mid)),
        is_steady(stage, mine, state, mid, one),
        round_meets(
            loaded,
            stage,
            mine,
            around,
            answers,
            touched,
            results,
            label,
            left,
            mid_at,
            mid,
            went,
        ),
    ensures
        round_meets(
            loaded,
            stage,
            mine,
            around,
            answers,
            touched,
            results,
            label,
            left,
            at,
            state,
            went,
        ),
{
    match left {
        Left::Breaks(numbers) => {
            let places = stage.program.values(results);
            if numbers.len() == places.len() {
                landing_chains(
                    loaded,
                    stage,
                    mine,
                    one,
                    touched,
                    touched,
                    label,
                    places,
                    numbers,
                    at,
                    state,
                    mid_at,
                    mid,
                    went,
                );
            }
        },
        _ => {
            ending_chains(
                loaded,
                stage,
                mine,
                around,
                answers,
                one,
                touched,
                touched,
                left,
                at,
                state,
                mid_at,
                mid,
                went,
            );
        },
    }
}

/// A loop is left as the program leaves it.
proof fn a_whole_loop_is_met(
    loaded: Loaded,
    stage: Stage,
    mine: Set<ValueId>,
    around: Around,
    answers: nat,
    inner: Set<ValueId>,
    touched: Set<ValueId>,
    work: Work,
    next: Work,
    results: Range,
    held: Held,
    left: Left,
    step: Step,
    state: State,
    went: Went,
)
    requires
        state.ground == loaded.ground,
        agrees(stage, held, state),
        held.dom().subset_of(mine),
        held.dom().disjoint(touched),
        stage.program.values(results).no_duplicates(),
        inner.union(ir::order::among(stage.program.values(results))).subset_of(touched),
        next.known == lower::nothing_known(),
        loaded.place_of(work.label().next()) == next.code.len(),
        round_meets(
            loaded,
            stage,
            mine,
            around,
            answers,
            inner,
            results,
            work.label().next(),
            left,
            work.code.len() as int,
            state,
            went,
        ),
        match left {
            Left::Breaks(numbers) => {
                &&& numbers.len() == stage.program.values(results).len()
                &&& step == Step::Goes(
                    ir::machine::defined(held, stage.program.values(results), numbers),
                )
            },
            _ => step == Step::Leaves(left),
        },
    ensures
        does(
            loaded,
            stage,
            mine,
            around,
            answers,
            touched,
            held,
            step,
            work.code.len() as int,
            state,
            next,
            went,
        ),
{
    let places = stage.program.values(results);
    match left {
        Left::Breaks(numbers) => {
            let after = went->At_1;
            let free = inner.union(ir::order::among(places));
            assert(is_steady(stage, mine, state, after, touched));
            agreement_stays(stage, mine, held, state, after, touched);
            what_is_defined_agrees(stage, held, places, numbers, after);
            let then = ir::machine::defined(held, places, numbers);
            assert(then.dom().subset_of(held.dom().union(touched))) by {
                assert forall|v: ValueId| then.dom().contains(v) implies held.dom().union(
                    touched,
                ).contains(v) by {
                    if places.contains(v) {
                        assert(ir::order::among(places).contains(v));
                        assert(free.contains(v));
                    }
                }
            }
            assert(machine::is_known(next, after));
        },
        _ => {
            meeting_widens(
                loaded,
                stage,
                mine,
                around,
                around,
                answers,
                inner,
                touched,
                left,
                work.code.len() as int,
                state,
                went,
            );
        },
    }
}


/// An instruction does what the program says it does.
#[verifier::spinoff_prover]
proof fn an_op_is_met(
    program: Parts,
    loaded: Loaded,
    f: FunctionId,
    work: Work,
    around: Around,
    region: RegionId,
    at: int,
    held: Held,
    step: Step,
    state: State,
    fuel: nat,
) -> (went: Went)
    requires
        state.ground == loaded.ground,
        program_stands(program, loaded),
        f.0 < program.functions.len(),
        region_stands(program, loaded, f, work, around, region, at),
        at < program.region_ops(region).len(),
        stays(program, f, work, held, state),
        held.dom().disjoint(program.given(region, at)),
        program.op_runs(
            host(program, loaded.ground),
            program.region_ops(region)[at],
            program.values(program.region_results(region)[at]),
            held,
            fuel,
        ) == Some(step),
    ensures
        does(
            loaded,
            stage_of(program, f),
            program.function_given(f),
            around,
            program.function(f).answers.len as nat,
            program.op_given(region, at),
            held,
            step,
            work.code.len() as int,
            state,
            flow::op_work(stage_of(program, f), work, around, region, at),
            went,
        ),
    decreases fuel, 1nat, 0int,
{
    let stage = stage_of(program, f);
    let mine = program.function_given(f);
    let answers = program.function(f).answers.len as nat;
    let op = program.region_ops(region)[at];
    let run = program.region_results(region)[at];
    let results = program.values(run);
    let next = flow::op_work(stage, work, around, region, at);
    let end = stage.region(work, around, region, at);
    a_stage_is_its_programs(program, f);
    assert(function_stands(program, loaded, f));
    assert(program.op_is_single(region, at));
    ir::order::an_op_is_in_order(program, region, at);
    assert(stage.op_is_laid(region, at));
    ir::model::inside(program, region, at);
    assert(end == stage.region(next, around, region, at + 1));
    flow::an_op_grows(stage, work, around, region, at);
    flow::a_region_grows(stage, next, around, region, at + 1);
    flow::settling_splits(work, next, end, loaded.work);
    assert(program.op_given(region, at).subset_of(program.given(region, at)));
    assert(program.op_given(region, at).subset_of(mine));
    assert(held.dom().disjoint(program.op_given(region, at)));
    assert(ir::order::among(results).subset_of(program.op_given(region, at)));
    assert(ir::order::among(results).subset_of(mine));
    assert(ir::order::among(results).disjoint(held.dom()));
    match op {
        Op::If { .. } => a_choice_follows(
            program,
            loaded,
            f,
            work,
            around,
            region,
            at,
            held,
            step,
            state,
            fuel,
        ),
        Op::Loop { .. } => a_loop_follows(
            program,
            loaded,
            f,
            work,
            around,
            region,
            at,
            held,
            step,
            state,
            fuel,
        ),
        Op::Call { function, args } => {
            assert(function != FunctionId(0));
            a_call_follows(
                program,
                loaded,
                f,
                work,
                around,
                function,
                args,
                results,
                held,
                step,
                state,
                fuel,
            )
        },
        Op::PlatformCall { platform, args } => a_platform_call_is_met(
            loaded,
            stage,
            mine,
            around,
            answers,
            program.op_given(region, at),
            work,
            platform,
            args,
            results,
            held,
            step,
            state,
            fuel,
        ),
        Op::AddressOf(data) => {
            assert(data.0 < program.spans.len());
            an_address_is_done(
                loaded,
                stage,
                mine,
                around,
                answers,
                work,
                data,
                results,
                held,
                state,
            )
        },
        Op::Load { .. } => Went::Stops(0),
        Op::Store { .. } => Went::Stops(0),
        _ => a_simple_one_is_met(
            loaded,
            stage,
            mine,
            around,
            answers,
            work,
            op,
            results,
            held,
            step,
            state,
            fuel,
        ),
    }
}

/// A call comes to what the program says it does.
#[verifier::spinoff_prover]
proof fn a_call_follows(
    program: Parts,
    loaded: Loaded,
    f: FunctionId,
    work: Work,
    around: Around,
    function: FunctionId,
    args: Range,
    results: Seq<ValueId>,
    held: Held,
    step: Step,
    state: State,
    fuel: nat,
) -> (went: Went)
    requires
        state.ground == loaded.ground,
        program_stands(program, loaded),
        f.0 < program.functions.len(),
        function.0 < program.functions.len(),
        function.0 != 0,
        stays(program, f, work, held, state),
        flow::is_within(work),
        results.no_duplicates(),
        ir::order::among(results).subset_of(program.function_given(f)),
        ir::order::among(results).disjoint(held.dom()),
        !stage_of(program, f).simple(work, Op::Call { function, args }, results).failed,
        flow::grows(
            stage_of(program, f).simple(work, Op::Call { function, args }, results),
            loaded.work,
        ),
        program.op_runs(
            host(program, loaded.ground),
            Op::Call { function, args },
            results,
            held,
            fuel,
        ) == Some(step),
    ensures
        does(
            loaded,
            stage_of(program, f),
            program.function_given(f),
            around,
            program.function(f).answers.len as nat,
            ir::order::among(results),
            held,
            step,
            work.code.len() as int,
            state,
            stage_of(program, f).simple(work, Op::Call { function, args }, results),
            went,
        ),
    decreases fuel, 0nat, 0int,
{
    let stage = stage_of(program, f);
    let mine = program.function_given(f);
    let answers = program.function(f).answers.len as nat;
    let values = program.values(args);
    let label = Label(function.0 as usize);
    let next = stage.simple(work, Op::Call { function, args }, results);
    a_stage_is_its_programs(program, f);
    assert(function_stands(program, loaded, f));
    let numbers = ir::machine::read(held, values)->Some_0;
    let less = (fuel - 1) as nat;
    let left = program.function_runs(host(program, loaded.ground), function, numbers, less)->Some_0;
    let passed = stage.pass(work, values, 0);
    let called = passed.call(label);
    let back_work = called.forget();
    assert(next == stage.take(back_work, results, 0));
    flow::taking_extends(stage, back_work, results, 0);
    flow::growth_chains(back_work, next, loaded.work);
    assert(flow::grows(called, loaded.work));
    let by = a_call_is_made(loaded, stage, work, function, values, held, numbers, state);
    let back = lower::word(loaded.origin + called.code.len() as int);
    let entry = by.push(back);
    assert(entry.word(0) == back);
    assert forall|i: int| 0 <= i implies #[trigger] entry.word(1 + i) == by.word(i) by {
        assert(entry.top + (1 + i) == by.top + i);
    }
    assert forall|i: int| 0 <= i < numbers.len() implies entry.word(1 + i)
        == #[trigger] numbers[i] by {
        assert(by.word(i) == numbers[i]);
    }
    let came = a_function_is_met(program, loaded, function, numbers, left, entry, less);
    let at = work.code.len() as int;
    let place = loaded.place_of(label);
    match left {
        Left::Answers(answered) => {
            let back_state = came->At_1;
            coming_chains(loaded, at, state, place, entry, came);
            assert(back_state.top == state.top);
            assert(came->At_0 == back_work.code.len());
            assert forall|w: int| w >= stage.layout.outgoing && w >= answered.len() implies
                #[trigger] back_state.word(w) == state.word(w) by {
                assert(back_state.word(w) == entry.word(1 + w));
                assert(by.word(w) == state.word(w));
            }
            assert(machine::is_known(back_work, back_state));
            assert(flow::is_within(back_work));
            let after = an_answer_is_taken(
                loaded,
                stage,
                mine,
                back_work,
                results,
                answered,
                state,
                back_state,
            );
            let went = Went::At(next.code.len() as int, after);
            coming_chains(
                loaded,
                at,
                state,
                back_work.code.len() as int,
                back_state,
                went,
            );
            what_is_set_is_done(
                loaded,
                stage,
                mine,
                around,
                answers,
                work,
                next,
                results,
                held,
                answered,
                state,
                went,
            );
            went
        },
        Left::Asks(platform, asked) => {
            if is_exit(program, platform) || program.is_write(platform) {
                coming_chains(loaded, at, state, place, entry, came);
            }
            came
        },
        _ => came,
    }
}

#[verifier::spinoff_prover]
proof fn a_choice_follows(
    program: Parts,
    loaded: Loaded,
    f: FunctionId,
    work: Work,
    around: Around,
    region: RegionId,
    at: int,
    held: Held,
    step: Step,
    state: State,
    fuel: nat,
) -> (went: Went)
    requires
        state.ground == loaded.ground,
        program_stands(program, loaded),
        f.0 < program.functions.len(),
        region_stands(program, loaded, f, work, around, region, at),
        at < program.region_ops(region).len(),
        program.region_ops(region)[at] is If,
        stays(program, f, work, held, state),
        held.dom().disjoint(program.given(region, at)),
        program.op_runs(
            host(program, loaded.ground),
            program.region_ops(region)[at],
            program.values(program.region_results(region)[at]),
            held,
            fuel,
        ) == Some(step),
        !flow::op_work(stage_of(program, f), work, around, region, at).failed,
        flow::is_settled(
            work,
            flow::op_work(stage_of(program, f), work, around, region, at),
            loaded.work,
        ),
    ensures
        does(
            loaded,
            stage_of(program, f),
            program.function_given(f),
            around,
            program.function(f).answers.len as nat,
            program.op_given(region, at),
            held,
            step,
            work.code.len() as int,
            state,
            flow::op_work(stage_of(program, f), work, around, region, at),
            went,
        ),
    decreases fuel, 0nat, 0int,
{
    let stage = stage_of(program, f);
    let mine = program.function_given(f);
    let answers = program.function(f).answers.len as nat;
    let run = program.region_results(region)[at];
    let results = program.values(run);
    let given = program.op_given(region, at);
    let next = flow::op_work(stage, work, around, region, at);
    a_stage_is_its_programs(program, f);
    assert(function_stands(program, loaded, f));
    assert(given.subset_of(program.given(region, at)));
    let condition = program.region_ops(region)[at]->condition;
    let then_region = program.region_ops(region)[at]->then_region;
    let else_region = program.region_ops(region)[at]->else_region;
    assert(stage.op_is_laid(region, at));
    assert(program.op_is_single(region, at));
    flow::a_choice_is_laid(stage, work, around, region, at, loaded.work);
    let within = flow::inside_if(work, around, run);
    let tested = flow::asked(stage, work, condition);
    let then = stage.region(tested, within, then_region, 0);
    let turned = then.bind(work.next());
    let other = stage.region(turned, within, else_region, 0);
    let number = ir::machine::read(held, seq![condition])->Some_0[0];
    assert(held.dom().contains(seq![condition][0]));
    assert(number == held[condition]);
    assert(is_right(stage, condition, number, state));
    assert(!tested.failed);
    let less = (fuel - 1) as nat;
    let taken = if number != 0 {
        then_region
    } else {
        else_region
    };
    let start = if number != 0 {
        tested
    } else {
        turned
    };
    let here = asking_tells(loaded, stage, work, condition, number, state);
    keeping_is_steady(stage, mine, state, here);
    agreement_stays(stage, mine, held, state, here, Set::empty());
    let left = program.region_runs(host(program, loaded.ground), taken, held, less)->Some_0;
    every_op_has_results(program, taken);
    ir::order::a_region_runs_from_its_start(program, host(program, loaded.ground), taken, held, less);
    assert(program.entered(taken).subset_of(given));
    assert(program.given(taken, 0).subset_of(program.entered(taken)));
    assert(program.given(taken, 0).subset_of(mine));
    assert(ir::order::among(results).subset_of(given));
    assert(around_fits(stage, mine, within));
    assert(region_stands(program, loaded, f, start, within, taken, 0));
    assert(machine::is_known(start, here));
    let went = a_region_is_met(
        program,
        loaded,
        f,
        start,
        within,
        taken,
        0,
        held,
        left,
        here,
        less,
    );
    let inner = program.given(taken, 0);
    ending_chains(
        loaded,
        stage,
        mine,
        within,
        answers,
        Set::empty(),
        inner,
        inner,
        left,
        work.code.len() as int,
        state,
        start.code.len() as int,
        here,
        went,
    );
    assert(inner.union(ir::order::among(results)).subset_of(given));
    a_choice_is_met(
        loaded,
        stage,
        mine,
        around,
        answers,
        inner,
        given,
        work,
        next,
        run,
        held,
        left,
        step,
        state,
        went,
    );
    went
}

#[verifier::spinoff_prover]
proof fn a_loop_follows(
    program: Parts,
    loaded: Loaded,
    f: FunctionId,
    work: Work,
    around: Around,
    region: RegionId,
    at: int,
    held: Held,
    step: Step,
    state: State,
    fuel: nat,
) -> (went: Went)
    requires
        state.ground == loaded.ground,
        program_stands(program, loaded),
        f.0 < program.functions.len(),
        region_stands(program, loaded, f, work, around, region, at),
        at < program.region_ops(region).len(),
        program.region_ops(region)[at] is Loop,
        stays(program, f, work, held, state),
        held.dom().disjoint(program.given(region, at)),
        program.op_runs(
            host(program, loaded.ground),
            program.region_ops(region)[at],
            program.values(program.region_results(region)[at]),
            held,
            fuel,
        ) == Some(step),
        !flow::op_work(stage_of(program, f), work, around, region, at).failed,
        flow::is_settled(
            work,
            flow::op_work(stage_of(program, f), work, around, region, at),
            loaded.work,
        ),
    ensures
        does(
            loaded,
            stage_of(program, f),
            program.function_given(f),
            around,
            program.function(f).answers.len as nat,
            program.op_given(region, at),
            held,
            step,
            work.code.len() as int,
            state,
            flow::op_work(stage_of(program, f), work, around, region, at),
            went,
        ),
    decreases fuel, 0nat, 0int,
{
    let stage = stage_of(program, f);
    let mine = program.function_given(f);
    let answers = program.function(f).answers.len as nat;
    let run = program.region_results(region)[at];
    let results = program.values(run);
    let given = program.op_given(region, at);
    let next = flow::op_work(stage, work, around, region, at);
    a_stage_is_its_programs(program, f);
    assert(function_stands(program, loaded, f));
    assert(given.subset_of(program.given(region, at)));
    let initial = program.region_ops(region)[at]->initial;
    let body = program.region_ops(region)[at]->body;
    let places = program.values(program.region(body).params);
    assert(stage.op_is_laid(region, at));
    assert(program.op_is_single(region, at));
    ir::order::an_op_is_in_order(program, region, at);
    assert(program.inside_is_single(body));
    ir::model::inside(program, region, at);
    assert(ir::model::children(program.region_ops(region)[at])[0] == body);
    flow::a_loop_is_laid(stage, work, around, region, at, loaded.work);
    let within = flow::inside_loop(stage, work, around, run, body);
    let open = work.label().label();
    let moved = stage.transfer(open, program.values(initial), places);
    let start = flow::entered(stage, work, initial, body);
    let numbers = ir::machine::read(held, program.values(initial))->Some_0;
    let less = (fuel - 1) as nat;
    let left = program.loop_runs(host(program, loaded.ground), body, held, numbers, less)->Some_0;
    let inner = program.entered(body);
    assert(inner.subset_of(given));
    assert(ir::order::among(places).subset_of(inner));
    assert(ir::order::among(places).subset_of(mine));
    assert(ir::order::among(results).subset_of(given));
    assert(program.given(body, 0).subset_of(inner));
    assert(around_fits(stage, mine, within));
    assert(region_stands(program, loaded, f, start, within, body, 0));
    let mid = a_transfer_hands_over(
        stage,
        mine,
        open,
        program.values(initial),
        places,
        held,
        numbers,
        state,
    );
    flow::a_transfer_extends(stage, open, program.values(initial), places);
    assert(flow::is_within(open));
    assert(flow::grows(moved, loaded.work)) by {
        flow::labels_go_further(work);
        flow::going_further_chains(work, open, moved);
        flow::binding_grows(work, moved, work.next(), work.labels.len());
        flow::growth_chains(moved, start, loaded.work);
    }
    flow::straight_code_reaches(
        open,
        moved,
        loaded.work,
        loaded.code,
        loaded.origin,
        state,
        mid,
    );
    agreement_stays(stage, mine, held, state, mid, ir::order::among(places));
    let went = a_loop_is_met(
        program,
        loaded,
        f,
        start,
        around,
        within,
        body,
        run,
        work.label().next(),
        held,
        numbers,
        left,
        mid,
        less,
    );
    round_again(
        loaded,
        stage,
        mine,
        around,
        answers,
        ir::order::among(places),
        inner,
        run,
        work.label().next(),
        left,
        work.code.len() as int,
        state,
        start.code.len() as int,
        mid,
        went,
    );
    assert(inner.union(ir::order::among(results)).subset_of(given));
    a_whole_loop_is_met(
        loaded,
        stage,
        mine,
        around,
        answers,
        inner,
        given,
        work,
        next,
        run,
        held,
        left,
        step,
        state,
        went,
    );
    went
}

/// Going round does what the program says it does.
#[verifier::spinoff_prover]
proof fn a_loop_is_met(
    program: Parts,
    loaded: Loaded,
    f: FunctionId,
    start: Work,
    around: Around,
    within: Around,
    body: RegionId,
    run: Range,
    label: Label,
    held: Held,
    numbers: Seq<nat>,
    left: Left,
    state: State,
    fuel: nat,
) -> (went: Went)
    requires
        state.ground == loaded.ground,
        program_stands(program, loaded),
        f.0 < program.functions.len(),
        region_stands(program, loaded, f, start, within, body, 0),
        within.repeat is Some,
        within.repeat->Some_0.0 == program.region(body).params,
        loaded.place_of(within.repeat->Some_0.1) == start.code.len(),
        within.repeat->Some_0.2 == run,
        within.repeat->Some_0.3 == label,
        start.known == lower::nothing_known(),
        program.inside_is_single(body),
        program.region(body).terminator.exit != Exit::Yield,
        program.entered(body).subset_of(program.function_given(f)),
        stays(program, f, start, held, state),
        held.dom().disjoint(program.entered(body)),
        all_right(
            stage_of(program, f),
            program.values(program.region(body).params),
            numbers,
            state,
        ),
        program.loop_runs(host(program, loaded.ground), body, held, numbers, fuel) == Some(left),
    ensures
        round_meets(
            loaded,
            stage_of(program, f),
            program.function_given(f),
            around,
            program.function(f).answers.len as nat,
            program.entered(body),
            run,
            label,
            left,
            start.code.len() as int,
            state,
            went,
        ),
    decreases fuel, 3nat, 0int,
{
    let stage = stage_of(program, f);
    let mine = program.function_given(f);
    let answers = program.function(f).answers.len as nat;
    let places = program.values(program.region(body).params);
    let inner = program.given(body, 0);
    let touched = program.entered(body);
    let at = start.code.len() as int;
    a_stage_is_its_programs(program, f);
    assert(inner.subset_of(touched));
    assert(ir::order::among(places).subset_of(touched));
    assert(inner.union(ir::order::among(places)).subset_of(touched));
    let here = ir::machine::defined(held, places, numbers);
    what_is_defined_agrees(stage, held, places, numbers, state);
    assert(here.dom().subset_of(mine) && here.dom().disjoint(inner)) by {
        assert forall|v: ValueId| here.dom().contains(v) implies mine.contains(v)
            && !inner.contains(v) by {
            if places.contains(v) {
                assert(ir::order::among(places).contains(v));
            }
        }
    }
    every_op_has_results(program, body);
    ir::order::a_region_runs_from_its_start(program, host(program, loaded.ground), body, here, fuel);
    let one = program.region_runs(host(program, loaded.ground), body, here, fuel)->Some_0;
    let first = a_region_is_met(
        program,
        loaded,
        f,
        start,
        within,
        body,
        0,
        here,
        one,
        state,
        fuel,
    );
    match one {
        Left::Continues(more) => {
            let mid = first->At_1;
            let less = (fuel - 1) as nat;
            assert(program.loop_runs(host(program, loaded.ground), body, held, more, less) == Some(left));
            assert(more.len() == places.len());
            agreement_stays(
                stage,
                mine,
                held,
                state,
                mid,
                inner.union(ir::order::among(places)),
            );
            let went = a_loop_is_met(
                program,
                loaded,
                f,
                start,
                around,
                within,
                body,
                run,
                label,
                held,
                more,
                left,
                mid,
                less,
            );
            round_again(
                loaded,
                stage,
                mine,
                around,
                answers,
                inner.union(ir::order::among(places)),
                touched,
                run,
                label,
                left,
                at,
                state,
                at,
                mid,
                went,
            );
            went
        },
        _ => {
            once_round(
                loaded,
                stage,
                mine,
                around,
                within,
                answers,
                inner,
                touched,
                run,
                label,
                left,
                at,
                state,
                first,
            );
            first
        },
    }
}

/// A region ends as the program says it does.
#[verifier::spinoff_prover]
proof fn a_region_is_met(
    program: Parts,
    loaded: Loaded,
    f: FunctionId,
    work: Work,
    around: Around,
    region: RegionId,
    from: int,
    held: Held,
    left: Left,
    state: State,
    fuel: nat,
) -> (went: Went)
    requires
        state.ground == loaded.ground,
        program_stands(program, loaded),
        f.0 < program.functions.len(),
        region_stands(program, loaded, f, work, around, region, from),
        stays(program, f, work, held, state),
        held.dom().disjoint(program.given(region, from)),
        program.rest_runs(host(program, loaded.ground), region, from, held, fuel) == Some(left),
    ensures
        left is Yields ==> program.region(region).terminator.exit == Exit::Yield,
        meets(
            loaded,
            stage_of(program, f),
            program.function_given(f),
            around,
            program.function(f).answers.len as nat,
            program.given(region, from),
            left,
            work.code.len() as int,
            state,
            went,
        ),
    decreases fuel, 2nat, program.region_ops(region).len() - from,
{
    let stage = stage_of(program, f);
    let mine = program.function_given(f);
    let answers = program.function(f).answers.len as nat;
    let ops = program.region_ops(region);
    a_stage_is_its_programs(program, f);
    assert(function_stands(program, loaded, f));
    an_answer_is_as_long(program, f);
    if from >= ops.len() {
        let went = an_end_is_met(
            loaded,
            stage,
            mine,
            work,
            around,
            answers,
            region,
            held,
            left,
            state,
        );
        assert(program.given(region, from) =~= Set::empty());
        went
    } else {
        let next = flow::op_work(stage, work, around, region, from);
        let end = stage.region(work, around, region, from);
        let one = program.op_given(region, from);
        let other = program.given(region, from + 1);
        let both = program.given(region, from);
        let step = program.op_runs(
            host(program, loaded.ground),
            ops[from],
            program.values(program.region_results(region)[from]),
            held,
            fuel,
        )->Some_0;
        let first = an_op_is_met(
            program,
            loaded,
            f,
            work,
            around,
            region,
            from,
            held,
            step,
            state,
            fuel,
        );
        assert(end == stage.region(next, around, region, from + 1));
        flow::an_op_grows(stage, work, around, region, from);
        flow::a_region_grows(stage, next, around, region, from + 1);
        flow::settling_splits(work, next, end, loaded.work);
        assert(one.subset_of(both) && other.subset_of(both));
        match step {
            Step::Goes(then) => {
                let mid = first->At_1;
                assert(region_stands(program, loaded, f, next, around, region, from + 1));
                assert(then.dom().subset_of(mine) && then.dom().disjoint(other)) by {
                    assert forall|v: ValueId| then.dom().contains(v) implies mine.contains(v)
                        && !other.contains(v) by {
                        assert(held.dom().union(one).contains(v));
                    }
                }
                let went = a_region_is_met(
                    program,
                    loaded,
                    f,
                    next,
                    around,
                    region,
                    from + 1,
                    then,
                    left,
                    mid,
                    fuel,
                );
                ending_chains(
                    loaded,
                    stage,
                    mine,
                    around,
                    answers,
                    one,
                    other,
                    both,
                    left,
                    work.code.len() as int,
                    state,
                    next.code.len() as int,
                    mid,
                    went,
                );
                went
            },
            Step::Leaves(_) => {
                meeting_widens(
                    loaded,
                    stage,
                    mine,
                    around,
                    around,
                    answers,
                    one,
                    both,
                    left,
                    work.code.len() as int,
                    state,
                    first,
                );
                first
            },
        }
    }
}

/// A function begins by opening its frame.
proof fn a_frame_opens(program: Parts, loaded: Loaded, f: FunctionId, state: State) -> (
    after: State)
    requires
        state.ground == loaded.ground,
        loaded.is_sound(),
        function_stands(program, loaded, f),
        state.wf(),
    ensures
        loaded.comes(
            loaded.place_of(Label(f.0 as usize)),
            state,
            Went::At(begun(program, f).code.len() as int, after),
        ),
        after.regs == state.regs,
        after.stack == state.stack,
        after.top == state.top - stage_of(program, f).layout.words(),
        machine::is_known(begun(program, f), after),
{
    let layout = stage_of(program, f).layout;
    let before = lower::functions(program, f.0 as int).bind(Label(f.0 as usize));
    let start = begun(program, f);
    let end = stage_of(program, f).region(start, nowhere(), program.function(f).body, 0);
    if layout.frame() > 0 {
        let after = flow::a_frame_shifts(before, layout.words(), true, state);
        flow::writing_extends(before, encode::open_frame(layout.frame() as u32));
        flow::growth_chains(start, end, loaded.work);
        flow::straight_code_reaches(
            before,
            start,
            loaded.work,
            loaded.code,
            loaded.origin,
            state,
            after,
        );
        after
    } else {
        machine::staying_reaches(
            loaded.code,
            loaded.origin,
            before.code.len() as int,
            state,
        );
        state
    }
}

/// A function comes to what the program says it does.
#[verifier::spinoff_prover]
proof fn a_function_is_met(
    program: Parts,
    loaded: Loaded,
    f: FunctionId,
    numbers: Seq<nat>,
    left: Left,
    state: State,
    fuel: nat,
) -> (went: Went)
    requires
        state.ground == loaded.ground,
        program_stands(program, loaded),
        f.0 < program.functions.len(),
        state.wf(),
        forall|i: int| 0 <= i < numbers.len() ==> state.word(1 + i) == #[trigger] numbers[i],
        program.function_runs(host(program, loaded.ground), f, numbers, fuel) == Some(left),
    ensures
        call_meets(program, loaded, f, left, state, went),
    decreases fuel, 3nat, 0int,
{
    let stage = stage_of(program, f);
    let mine = program.function_given(f);
    let params = program.values(program.function(f).params);
    let body = program.function(f).body;
    let answers = program.function(f).answers.len as nat;
    let start = begun(program, f);
    a_stage_is_its_programs(program, f);
    an_answer_is_as_long(program, f);
    assert(function_stands(program, loaded, f));
    assert(program.function_is_single(f));
    assert(program.region_agrees(
        program.functions[f.0 as int].body,
        program.functions[f.0 as int].answers.read(program.signature),
        0,
    ));
    let here = a_frame_opens(program, loaded, f, state);
    let words = stage.layout.words() as int;
    assert forall|w: int| #[trigger] here.word(words + w) == state.word(w) by {
        assert(here.top + (words + w) == state.top + w);
    }
    let held = ir::machine::defined(Map::empty(), params, numbers);
    assert(all_right(stage, params, numbers, here)) by {
        assert forall|i: int| 0 <= i < params.len() implies #[trigger] is_right(
            stage,
            params[i],
            numbers[i],
            here,
        ) by {
            assert(stage.layout.source[params[i].0 as int] == Source::Param(i as u32));
            assert(here.word(words + (1 + i)) == state.word(1 + i));
            assert(state.word(1 + i) == numbers[i]);
        }
    }
    what_is_defined_agrees(stage, Map::empty(), params, numbers, here);
    assert(held.dom().subset_of(mine) && held.dom().disjoint(program.given(body, 0))) by {
        assert forall|v: ValueId| held.dom().contains(v) implies mine.contains(v)
            && !program.given(body, 0).contains(v) by {
            assert(ir::order::among(params).contains(v));
        }
    }
    every_op_has_results(program, body);
    ir::order::a_region_runs_from_its_start(program, host(program, loaded.ground), body, held, fuel);
    assert(region_stands(program, loaded, f, start, nowhere(), body, 0));
    let went = a_region_is_met(
        program,
        loaded,
        f,
        start,
        nowhere(),
        body,
        0,
        held,
        left,
        here,
        fuel,
    );
    let at = loaded.place_of(Label(f.0 as usize));
    match left {
        Left::Answers(answered) => {
            coming_chains(loaded, at, state, start.code.len() as int, here, went);
            if f.0 != 0 {
                let after = went->At_1;
                assert(here.word(words + 0) == state.word(0));
                assert forall|i: int| i >= answered.len() implies #[trigger] after.word(i)
                    == state.word(1 + i) by {
                    assert(after.word(i) == here.word(words + 1 + i));
                    assert(here.word(words + (1 + i)) == state.word(1 + i));
                }
            }
        },
        Left::Asks(platform, _) => {
            if is_exit(program, platform) || program.is_write(platform) {
                coming_chains(loaded, at, state, start.code.len() as int, here, went);
            }
        },
        _ => {},
    }
    went
}


/// What the first functions are written as, where nothing is amiss.
spec fn is_written(program: Parts, count: int) -> bool {
    let work = lower::functions(program, count);
    &&& flow::is_within(work)
    &&& program.functions.len() <= work.labels.len()
}

/// A function is written after those before it.
proof fn a_function_grows(program: Parts, f: FunctionId)
    requires
        f.0 < program.functions.len() <= u32::MAX,
        is_written(program, f.0 as int),
    ensures
        is_written(program, f.0 + 1),
        flow::grows(
            lower::functions(program, f.0 as int),
            lower::functions(program, f.0 + 1),
        ),
        ({
            let work = lower::functions(program, f.0 as int);
            let bound = work.bind(Label(f.0 as usize));
            let stage = stage_of(program, f);
            let end = lower::functions(program, f.0 + 1);
            !end.failed ==> {
                &&& stage.layout.fits()
                &&& end == stage.region(begun(program, f), nowhere(), program.function(f).body, 0)
                &&& flow::is_within(bound)
                &&& bound.labels == work.labels.update(f.0 as int, Some(work.code.len()))
                &&& flow::extends(bound, begun(program, f))
                &&& flow::goes_further(begun(program, f), end)
            }
        }),
{
    reveal(lower::function);
    a_stage_is_its_programs(program, f);
    let work = lower::functions(program, f.0 as int);
    let bound = work.bind(Label(f.0 as usize));
    let stage = stage_of(program, f);
    let end = lower::functions(program, f.0 + 1);
    assert(FunctionId((f.0 + 1 - 1) as u32) == f);
    assert(end == lower::function(program, work, f));
    assert(flow::grows(work, bound));
    if stage.layout.fits() {
        let start = begun(program, f);
        assert(flow::extends(bound, start));
        assert(end == stage.region(start, nowhere(), program.function(f).body, 0));
        flow::a_region_grows(stage, start, nowhere(), program.function(f).body, 0);
        flow::growth_chains(work, bound, start);
        flow::growth_chains(work, start, end);
    }
    flow::what_grows_stays_within(work, end);
}

proof fn functions_are_written(program: Parts, count: int)
    requires
        0 <= count <= program.functions.len() <= u32::MAX,
    ensures
        is_written(program, count),
    decreases count,
{
    if count > 0 {
        functions_are_written(program, count - 1);
        a_function_grows(program, FunctionId((count - 1) as u32));
    }
}

/// Whether the labels a function has by now stay where they are.
spec fn labels_stay(program: Parts, count: int, later: int) -> bool {
    let now = lower::functions(program, count);
    let end = lower::functions(program, later);
    forall|l: int|
        0 <= l < now.labels.len() && (l < count || l >= program.functions.len())
            ==> #[trigger] end.labels[l] == now.labels[l]
}

/// Nothing that is written later touches what was written before.
proof fn functions_stay(program: Parts, count: int, later: int)
    requires
        0 <= count <= later <= program.functions.len() <= u32::MAX,
    ensures
        flow::grows(lower::functions(program, count), lower::functions(program, later)),
        !lower::functions(program, later).failed && lower::functions(program, later).labels.len()
            <= usize::MAX ==> labels_stay(program, count, later),
    decreases later,
{
    if count < later {
        let f = FunctionId((later - 1) as u32);
        let now = lower::functions(program, count);
        let work = lower::functions(program, later - 1);
        let end = lower::functions(program, later);
        functions_stay(program, count, later - 1);
        functions_are_written(program, later - 1);
        a_function_grows(program, f);
        flow::growth_chains(now, work, end);
        if !end.failed && end.labels.len() <= usize::MAX {
            let start = begun(program, f);
            assert forall|l: int|
                0 <= l < now.labels.len() && (l < count || l >= program.functions.len()) implies
                #[trigger] end.labels[l] == now.labels[l] by {
                assert(work.labels[l] == now.labels[l]);
                assert(start.labels[l] == work.labels[l]);
            }
        }
    }
}

/// A program that is in order is written as it was to be.
proof fn a_program_stands(program: Parts, loaded: Loaded)
    requires
        program.wf(),
        program.agrees(),
        program.orderly(),
        program.is_uncalled(FunctionId(0)),
        program.functions.len() <= u32::MAX,
        loaded.work == lower::functions(program, program.functions.len() as int),
        !loaded.work.failed,
        loaded.is_sound(),
    ensures
        program_stands(program, loaded),
{
    let count = program.functions.len() as int;
    let done = loaded.work;
    assert forall|f: FunctionId| f.0 < program.functions.len() implies #[trigger] function_stands(
        program,
        loaded,
        f,
    ) by {
        let stage = stage_of(program, f);
        let work = lower::functions(program, f.0 as int);
        let start = begun(program, f);
        let end = lower::functions(program, f.0 + 1);
        functions_are_written(program, f.0 as int);
        functions_stay(program, f.0 + 1, count);
        assert(!end.failed);
        a_function_grows(program, f);
        a_stage_is_its_programs(program, f);
        super::placing::a_function_is_placed(program, f);
        flow::what_grows_stays_within(work.bind(Label(f.0 as usize)), start);
        assert(flow::labels_settle(start, end, done));
        let l = f.0 as int;
        assert(done.labels[l] == end.labels[l]);
        assert(end.labels[l] == start.labels[l]);
        assert(done.target(Label(f.0 as usize)) == Some(work.code.len()));
    }
}

proof fn filling_in_keeps_the_rest(work: Work, count: int, i: int)
    requires
        0 <= count <= work.jumps.len(),
        work.is_spaced(),
        0 <= i < work.code.len(),
        !flow::is_hole(work, i),
    ensures
        work.with_jumps(count).len() == work.code.len(),
        work.with_jumps(count)[i] == work.code[i],
    decreases count,
{
    if count > 0 {
        filling_in_keeps_the_rest(work, count - 1, i);
        assert(!(work.jumps[count - 1].0 <= i < work.jumps[count - 1].0 + 4));
    }
}

/// Filling in a distance keeps what is not that distance.
proof fn resolving_keeps_the_rest(
    program: Parts,
    code: Seq<u8>,
    relocs: Seq<super::Reloc>,
    count: int,
    i: int,
)
    requires
        0 <= count <= relocs.len(),
        0 <= i < code.len(),
        forall|j: int|
            0 <= j < relocs.len() ==> !((#[trigger] relocs[j]).offset <= i < relocs[j].offset + 4),
    ensures
        super::elf::resolved(program, code, relocs, count).len() == code.len(),
        super::elf::resolved(program, code, relocs, count)[i] == code[i],
    decreases count,
{
    if count > 0 {
        resolving_keeps_the_rest(program, code, relocs, count - 1, i);
        assert(!(relocs[count - 1].offset <= i < relocs[count - 1].offset + 4));
    }
}

/// The code of a file, once it is loaded: what is in memory from where the
/// machine is started on.
pub open spec fn text(program: Parts, file: Seq<u8>) -> Seq<u8> {
    loader::memory_from(
        file,
        loader::entry(file) as int,
        lower::lowered(program)->Some_0.0.len(),
    )
}

/// Whether code runs on the ground of the file it is in: where it was loaded,
/// with the data of the file past it.
pub open spec fn is_ground_of(program: Parts, origin: int, ground: Ground) -> bool {
    &&& ground.origin == origin
    &&& forall|data: DataId| #[trigger]
        (ground.places)(data) == super::elf::place(
            program,
            lower::lowered(program)->Some_0.0.len(),
            data,
        )
}

/// What is in a file is what was written, filled in.
proof fn a_file_is_loaded(program: Parts, file: Seq<u8>, origin: int, ground: Ground) -> (loaded:
    Loaded)
    requires
        is_ground_of(program, origin, ground),
        super::image(program) == Some(file),
        0 <= origin,
        origin + file.len() <= u64::MAX,
    ensures
        program.functions.len() <= u32::MAX,
        loaded.work == lower::functions(program, program.functions.len() as int),
        loaded.code == text(program, file),
        loaded.origin == origin,
        loaded.ground == ground,
        !loaded.work.failed,
        loaded.is_sound(),
{
    let (code, relocs) = lower::lowered(program)->Some_0;
    let work = lower::functions(program, program.functions.len() as int);
    let count = relocs.len() as int;
    let filled = super::elf::resolved(program, code, relocs, count);
    let whole = text(program, file);
    functions_are_written(program, program.functions.len() as int);
    super::elf::the_segment_covers_the_file(program, code, relocs);
    lower::every_jump_leads_to_its_label(work);
    super::elf::resolving_keeps_the_length(program, code, relocs, count);
    assert(code == work.finished());
    loader::what_is_written_is_loaded(program, file);
    let memory = filled + program.data + program.globals;
    assert forall|i: int| 0 <= i < code.len() implies #[trigger] whole[i] == filled[i] by {
        assert(loader::memory_from(file, loader::entry(file) as int, memory.len())[i] == memory[i]);
    }
    assert(whole =~= filled);
    assert(work.code.len() <= usize::MAX);
    assert forall|i: int| 0 <= i < whole.len() && !flow::is_hole(work, i) implies
        #[trigger] whole[i] == work.code[i] by {
        filling_in_keeps_the_rest(work, work.jumps.len() as int, i);
        resolving_keeps_the_rest(program, code, relocs, count, i);
    }
    assert forall|j: int| 0 <= j < work.jumps.len() implies whole.subrange(
        (#[trigger] work.jumps[j]).0 as int,
        work.jumps[j].0 as int + 4,
    ) == code.subrange(work.jumps[j].0 as int, work.jumps[j].0 as int + 4) by {
        let at = work.jumps[j].0 as int;
        assert forall|i: int| at <= i < at + 4 implies whole[i] == code[i] by {
            resolving_keeps_the_rest(program, code, relocs, count, i);
        }
        assert(whole.subrange(at, at + 4) =~= code.subrange(at, at + 4));
    }
    assert forall|j: int| 0 <= j < work.relocs.len() implies machine::is_filled(
        whole,
        #[trigger] work.relocs[j],
        ground.places,
    ) by {
        assert(super::elf::reloc_fits(program, code, relocs[j]));
        assert forall|i: int| j < i < relocs.len() implies (#[trigger] relocs[i]).offset + 4
            <= relocs[j].offset || relocs[j].offset + 4 <= relocs[i].offset by {
            assert(work.relocs[j].offset + 4 <= work.relocs[i].offset);
        }
        super::elf::a_distance_stays(program, code, relocs, j, count);
        assert((ground.places)(relocs[j].data) == super::elf::place(
            program,
            code.len(),
            relocs[j].data,
        ));
    }
    Loaded { work, code: whole, origin, ground }
}

/// Whether code, started, leaves with what the program leaves with: it stops
/// with the number the entry answers, or the one it asks to stop with, or asks
/// to write what the program asks to.
pub open spec fn leaves_alike(
    program: Parts,
    code: Seq<u8>,
    origin: int,
    state: State,
    left: Left,
) -> bool {
    match left {
        Left::Answers(numbers) => {
            &&& numbers.len() == 1
            &&& numbers[0] < machine::size()
            &&& machine::stops(code, origin, 0, state, numbers[0] as u64)
        },
        Left::Asks(platform, numbers) => {
            &&& is_exit(program, platform) ==> {
                &&& numbers.len() > 0
                &&& numbers[0] < machine::size()
                &&& machine::stops(code, origin, 0, state, numbers[0] as u64)
            }
            &&& program.is_write(platform) ==> {
                &&& numbers.len() > 1
                &&& numbers[0] < machine::size()
                &&& numbers[1] < machine::size()
                &&& machine::writes(
                    code,
                    origin,
                    0,
                    state,
                    numbers[0] as u64,
                    numbers[1] as u64,
                )
            }
        },
        _ => true,
    }
}

/// What is written does what the program does. Whatever a program that is in
/// order, and never calls its own entry, comes to on a machine of this width,
/// with its data where the file has them, the code in the file it becomes
/// comes to, started from its first byte with the registers and the stack what
/// they may be, wherever it is loaded: it stops with the number the entry
/// answers, or the one it asks to stop with. Whichever writes a run is followed
/// up to, the first of them that the program makes is the first that the code
/// makes, with the same address and length; past the others both go on,
/// whatever the system leaves in the registers it may use.
pub proof fn what_is_written_does_the_same(
    program: Parts,
    file: Seq<u8>,
    origin: int,
    state: State,
    fuel: nat,
)
    requires
        program.wf(),
        program.agrees(),
        program.orderly(),
        program.is_uncalled(FunctionId(0)),
        super::image(program) == Some(file),
        0 <= origin,
        origin + file.len() <= u64::MAX,
        state.wf(),
        is_ground_of(program, origin, state.ground),
        program.function_runs(host(program, state.ground), FunctionId(0), seq![], fuel) is Some,
    ensures
        leaves_alike(
            program,
            text(program, file),
            origin,
            state,
            program.function_runs(host(program, state.ground), FunctionId(0), seq![], fuel)->Some_0,
        ),
{
    let loaded = a_file_is_loaded(program, file, origin, state.ground);
    a_program_stands(program, loaded);
    let left = program.function_runs(host(program, loaded.ground), FunctionId(0), seq![], fuel)->Some_0;
    let went = a_function_is_met(program, loaded, FunctionId(0), seq![], left, state, fuel);
    assert(function_stands(program, loaded, FunctionId(0)));
    assert(lower::functions(program, 0).code.len() == 0);
}

/// Whether code stops with what a program comes to, wherever a word here is
/// wide enough for it.
pub open spec fn is_left_with(
    parts: Parts,
    code: Seq<u8>,
    origin: int,
    state: State,
    left: Left,
    wide: nat,
    long: nat,
) -> bool {
    &&& ir::faithful::comes_to(parts, wide, long, left)
    &&& wide <= machine::size() ==> leaves_alike(parts, code, origin, state, left)
}

/// What a program means is what its file stops with. A program that is typed,
/// and that never calls its own entry, is lowered and written as a file whose
/// code, started, stops with what the program comes to, wherever a word is
/// wide enough for it.
pub proof fn what_a_program_means_is_left_with(
    store: barb::Store,
    parts: Parts,
    file: Seq<u8>,
    origin: int,
    state: State,
    args: Seq<barb::constant::Tree>,
    steps: nat,
)
    requires
        store.wf(),
        store.typed(),
        ir::faithful::can_start(store),
        ir::lower::lowered(store, store.facts()) == Ok::<_, Seq<char>>(parts),
        parts.wf(),
        parts.is_uncalled(FunctionId(0)),
        super::image(parts) == Some(file),
        0 <= origin,
        origin + file.len() <= u64::MAX,
        state.wf(),
        is_ground_of(parts, origin, state.ground),
        forall|address: u64, len: u64| #[trigger] (state.ground.watch)(address, len),
        barb::meaning::are_of(store, args, store.params(store.entry->Some_0)),
        store.meaning(store.function(store.entry->Some_0).body, args, steps) is Some,
    ensures
        exists|wide: nat, long: nat| #[trigger]
            is_left_with(
                parts,
                text(parts, file),
                origin,
                state,
                ir::faithful::leaves_with(
                    store,
                    store.meaning(
                        store.function(store.entry->Some_0).body,
                        args,
                        steps,
                    )->Some_0,
                ),
                wide,
                long,
            ),
{
    let outcome = store.meaning(
        store.function(store.entry->Some_0).body,
        args,
        steps,
    )->Some_0;
    let left = ir::faithful::leaves_with(store, outcome);
    let code = text(parts, file);
    ir::fresh::what_is_lowered_is_in_order(store, parts);
    ir::faithful::a_typed_program_is_lowered_faithfully(store, parts);
    ir::validate::a_program_agrees_when_nothing_is_wrong(parts);
    assert(ir::faithful::does_the_same(store, parts, outcome));
    let (wide, long) = choose|wide: nat, long: nat| #[trigger]
        ir::faithful::comes_to(parts, wide, long, left);
    if wide <= machine::size() {
        assert(parts.function_runs(host(parts, state.ground), FunctionId(0), seq![], long) == Some(left));
        what_is_written_does_the_same(parts, file, origin, state, long);
    }
    assert(is_left_with(parts, code, origin, state, left, wide, long));
}

} // verus!
