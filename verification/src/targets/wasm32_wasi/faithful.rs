//! What is written does what the program does.
//!
//! Values live in locals, one each, so what the program holds and what the
//! locals hold stay side by side: wherever the program goes on, so does the
//! code, with the same in hand; and however the program leaves a region, the
//! code leaves it that way.

use super::flow::{Called, Code, Module, Routine, Went};
use super::lower::{Around, Emitted, Places, Setting, Source};
use super::machine::State;
use super::{flow, lower, machine, reader, Import, Layout};
use crate::barb;
use crate::ir;
use crate::ir::machine::{Held, Host, Left, Step};
use crate::ir::{
    Binary, Class, DataId, Exit, FunctionId, Op, Parts, PlatformId, Range, RegionId, Relation,
    ValueId,
};
use vstd::prelude::*;

verus! {

/// Whether a number is what a value comes to, where the locals hold what they
/// do. A constant or an address too wide for a word is never pushed.
pub open spec fn is_right(setting: Setting, value: ValueId, number: nat, locals: Seq<nat>) -> bool {
    match setting.places.source[value.0 as int] {
        Source::Const(word) => word <= u32::MAX ==> number == word,
        Source::Local(index) => index < locals.len() && locals[index as int] == number && number
            < machine::size(),
        Source::Addr(data) => setting.address(data) <= u32::MAX ==> number == setting.address(
            data,
        ),
    }
}

/// What a program runs on, where its module runs with something watched for.
pub open spec fn host(program: Parts, module: Module) -> Host {
    Host {
        size: machine::size(),
        places: Map::new(
            |data: DataId| data.0 < program.spans.len(),
            |data: DataId| setting_of(program, FunctionId(0)).address(data),
        ),
        watch: |platform: PlatformId, numbers: Seq<nat>| (module.watch)(numbers[0], numbers[1]),
    }
}

/// Whether everything a program holds is what it comes to.
pub open spec fn agrees(setting: Setting, held: Held, locals: Seq<nat>) -> bool {
    forall|v: ValueId|
        held.dom().contains(v) ==> #[trigger] is_right(setting, v, held[v], locals)
}

/// Whether values come to numbers, one for one.
pub open spec fn all_right(
    setting: Setting,
    values: Seq<ValueId>,
    numbers: Seq<nat>,
    locals: Seq<nat>,
) -> bool {
    forall|i: int|
        0 <= i < values.len() ==> #[trigger] is_right(setting, values[i], numbers[i], locals)
}

/// Whether values have a local each, of those there are, and share none.
pub open spec fn are_apart(setting: Setting, mine: Set<ValueId>, count: nat) -> bool {
    &&& forall|v: ValueId|
        #[trigger] mine.contains(v) ==> (setting.local(v) matches Some(index) ==> index < count)
    &&& forall|v: ValueId, w: ValueId|
        #[trigger] mine.contains(v) && #[trigger] mine.contains(w) && v != w && setting.local(
            v,
        ) is Some ==> setting.local(v) != setting.local(w)
}

/// Whether locals are what they were, but for those of some values.
pub open spec fn is_steady(
    setting: Setting,
    mine: Set<ValueId>,
    before: Seq<nat>,
    after: Seq<nat>,
    touched: Set<ValueId>,
) -> bool {
    &&& after.len() == before.len()
    &&& forall|v: ValueId|
        #[trigger] mine.contains(v) && !touched.contains(v) ==> (setting.local(v) matches Some(index)
            ==> after[index as int] == before[index as int])
}

proof fn steadiness_chains(
    setting: Setting,
    mine: Set<ValueId>,
    first: Seq<nat>,
    second: Seq<nat>,
    third: Seq<nat>,
    one: Set<ValueId>,
    other: Set<ValueId>,
    both: Set<ValueId>,
)
    requires
        is_steady(setting, mine, first, second, one),
        is_steady(setting, mine, second, third, other),
        one.subset_of(both),
        other.subset_of(both),
    ensures
        is_steady(setting, mine, first, third, both),
{
}

/// What is not touched stays right.
proof fn agreement_stays(
    setting: Setting,
    mine: Set<ValueId>,
    held: Held,
    before: Seq<nat>,
    after: Seq<nat>,
    touched: Set<ValueId>,
)
    requires
        agrees(setting, held, before),
        is_steady(setting, mine, before, after, touched),
        held.dom().subset_of(mine),
        held.dom().disjoint(touched),
    ensures
        agrees(setting, held, after),
{
    assert forall|v: ValueId| held.dom().contains(v) implies #[trigger] is_right(
        setting,
        v,
        held[v],
        after,
    ) by {
        assert(is_right(setting, v, held[v], before));
        assert(mine.contains(v));
    }
}

/// What is defined is right, with what was held already.
proof fn what_is_defined_agrees(
    setting: Setting,
    held: Held,
    values: Seq<ValueId>,
    numbers: Seq<nat>,
    locals: Seq<nat>,
)
    requires
        agrees(setting, held, locals),
        values.no_duplicates(),
        values.len() == numbers.len(),
        all_right(setting, values, numbers, locals),
    ensures
        agrees(setting, ir::machine::defined(held, values, numbers), locals),
        forall|v: ValueId|
            #[trigger] ir::machine::defined(held, values, numbers).dom().contains(v)
                ==> held.dom().contains(v) || values.contains(v),
{
    ir::order::what_is_defined(held, values, numbers);
    let after = ir::machine::defined(held, values, numbers);
    assert forall|v: ValueId| after.dom().contains(v) implies #[trigger] is_right(
        setting,
        v,
        after[v],
        locals,
    ) by {
        if values.contains(v) {
            let i = values.index_of(v);
            assert(is_right(setting, values[i], numbers[i], locals));
        } else {
            assert(is_right(setting, v, held[v], locals));
        }
    }
}

/// A value that is pushed is what the program holds.
proof fn what_is_pushed_is_held(
    setting: Setting,
    out: Emitted,
    value: ValueId,
    held: Held,
    locals: Seq<nat>,
)
    requires
        agrees(setting, held, locals),
        held.dom().contains(value),
        !setting.push(out, value).failed,
    ensures
        setting.is_placed(value, locals),
        setting.word(value, locals) == held[value],
        held[value] < machine::size(),
{
    assert(is_right(setting, value, held[value], locals));
}

proof fn all_that_is_pushed_is_held(
    setting: Setting,
    out: Emitted,
    values: Seq<ValueId>,
    from: int,
    held: Held,
    numbers: Seq<nat>,
    locals: Seq<nat>,
)
    requires
        agrees(setting, held, locals),
        ir::machine::read(held, values) == Some(numbers),
        0 <= from <= values.len(),
        !setting.push_all(out, values, from).failed,
    ensures
        !out.failed,
        numbers.len() == values.len(),
        forall|i: int|
            from <= i < values.len() ==> setting.is_placed(#[trigger] values[i], locals)
                && setting.word(values[i], locals) == numbers[i] && numbers[i] < machine::size(),
    decreases values.len() - from,
{
    if from < values.len() {
        let next = setting.push(out, values[from]);
        all_that_is_pushed_is_held(setting, next, values, from + 1, held, numbers, locals);
        flow::a_push_follows(setting, out, values[from]);
        assert(held.dom().contains(values[from]));
        what_is_pushed_is_held(setting, out, values[from], held, locals);
        assert(numbers[from] == held[values[from]]);
    }
}

/// Values handed over come to what they were handed, and nothing but them is
/// touched.
proof fn a_transfer_hands_over(
    setting: Setting,
    mine: Set<ValueId>,
    out: Emitted,
    sources: Seq<ValueId>,
    destinations: Seq<ValueId>,
    held: Held,
    numbers: Seq<nat>,
    state: State,
) -> (after: State)
    requires
        are_apart(setting, mine, state.locals.len()),
        agrees(setting, held, state.locals),
        ir::machine::read(held, sources) == Some(numbers),
        numbers.len() == destinations.len(),
        destinations.no_duplicates(),
        ir::order::among(destinations).subset_of(mine),
        !setting.transfer(out, sources, destinations).failed,
    ensures
        machine::runs(
            machine::added(out, setting.transfer(out, sources, destinations)),
            state,
        ) == Some(after),
        after.stack == state.stack,
        is_steady(
            setting,
            mine,
            state.locals,
            after.locals,
            ir::order::among(destinations),
        ),
        all_right(setting, destinations, numbers, after.locals),
{
    let mid = setting.push_all(out, sources, 0);
    let end = setting.transfer(out, sources, destinations);
    flow::sets_follow(setting, mid, destinations, destinations.len() as int);
    all_that_is_pushed_is_held(setting, out, sources, 0, held, numbers, state.locals);
    assert forall|i: int| 0 <= i < destinations.len() implies mine.contains(
        #[trigger] destinations[i],
    ) by {
        assert(ir::order::among(destinations).contains(destinations[i]));
    }
    assert(machine::are_apart(setting, destinations)) by {
        sets_have_locals(setting, mid, destinations, destinations.len() as int);
        assert forall|i: int, j: int| 0 <= i < j < destinations.len() implies setting.local(
            #[trigger] destinations[i],
        ) != setting.local(#[trigger] destinations[j]) by {
            assert(destinations[i] != destinations[j]);
            assert(mine.contains(destinations[i]) && mine.contains(destinations[j]));
        }
    }
    assert forall|i: int| 0 <= i < destinations.len() implies setting.is_placed(
        #[trigger] destinations[i],
        state.locals,
    ) by {
        assert(mine.contains(destinations[i]));
    }
    machine::a_transfer_moves_at_once(setting, out, sources, destinations, state);
    let after = machine::runs(machine::added(out, end), state)->Some_0;
    assert forall|i: int| 0 <= i < destinations.len() implies #[trigger] is_right(
        setting,
        destinations[i],
        numbers[i],
        after.locals,
    ) by {
        assert(setting.local(destinations[i]) is Some);
        assert(mine.contains(destinations[i]));
        assert(setting.is_placed(sources[i], state.locals));
    }
    assert forall|v: ValueId|
        #[trigger] mine.contains(v) && !ir::order::among(destinations).contains(v) implies (
    setting.local(v) matches Some(index) ==> after.locals[index as int]
        == state.locals[index as int]) by {
        if let Some(index) = setting.local(v) {
            assert forall|i: int| 0 <= i < destinations.len() implies setting.local(
                #[trigger] destinations[i],
            ) != Some(index as int as u32) by {
                assert(mine.contains(destinations[i]));
                assert(v != destinations[i]);
            }
            assert(after.locals[index as int] == state.locals[index as int]);
        }
    }
    after
}

proof fn sets_have_locals(setting: Setting, out: Emitted, values: Seq<ValueId>, count: int)
    requires
        0 <= count <= values.len(),
        !setting.set_all(out, values, count).failed,
    ensures
        forall|i: int| 0 <= i < count ==> setting.local(#[trigger] values[i]) is Some,
    decreases count,
{
    if count > 0 {
        let next = setting.set(out, values[count - 1]);
        sets_have_locals(setting, next, values, count - 1);
        flow::sets_follow(setting, next, values, count - 1);
    }
}

/// Code goes on from where what is before it left off.
proof fn running_joins(module: Module, one: Seq<Code>, other: Seq<Code>, state: State, fuel: nat)
    ensures
        module.all_run(one + other, state, fuel) == match module.all_run(one, state, fuel) {
            Some(Went::On(next)) => module.all_run(other, next, fuel),
            other => other,
        },
    decreases one.len(),
{
    if one.len() == 0 {
        assert(one + other =~= other);
    } else {
        assert((one + other).drop_first() =~= one.drop_first() + other);
        assert((one + other)[0] == one[0]);
        match module.one_runs(one[0], state, fuel) {
            Some(Went::On(next)) => {
                running_joins(module, one.drop_first(), other, next, fuel);
            },
            _ => {},
        }
    }
}

proof fn one_runs_alone(module: Module, code: Code, state: State, fuel: nat)
    ensures
        module.all_run(seq![code], state, fuel) == module.one_runs(code, state, fuel),
{
    reveal_with_fuel(Module::all_run, 2);
    assert(seq![code].drop_first() =~= seq![]);
}

proof fn two_run(module: Module, one: Code, other: Code, state: State, fuel: nat)
    ensures
        module.all_run(seq![one, other], state, fuel) == match module.one_runs(one, state, fuel) {
            Some(Went::On(next)) => module.one_runs(other, next, fuel),
            went => went,
        },
{
    assert(seq![one, other] =~= seq![one] + seq![other]);
    running_joins(module, seq![one], seq![other], state, fuel);
    one_runs_alone(module, one, state, fuel);
    match module.one_runs(one, state, fuel) {
        Some(Went::On(next)) => {
            one_runs_alone(module, other, next, fuel);
        },
        _ => {},
    }
}

impl Setting {
    /// Whether an instruction has what it defines where it belongs, and what
    /// it asks for is to be had.
    pub open spec fn op_is_laid(self, region: RegionId, at: int) -> bool
        decreases self.program.rank(region), 0nat, 0int,
    {
        let results = self.program.values(self.program.region_results(region)[at]);
        match self.program.region_ops(region)[at] {
            Op::Constant { value, .. } => self.places.source[results[0].0 as int]
                == Source::Const(value),
            Op::AddressOf(data) => self.places.source[results[0].0 as int] == Source::Addr(data),
            Op::PlatformCall { platform, .. } => self.is_exit(platform) ==> self.exits,
            Op::If { then_region, else_region, .. } => {
                &&& self.program.nests(region, then_region)
                &&& self.program.nests(region, else_region)
                &&& self.is_laid(then_region, 0)
                &&& self.is_laid(else_region, 0)
            },
            Op::Loop { body, .. } => self.program.nests(region, body) && self.is_laid(body, 0),
            _ => true,
        }
    }

    /// Whether a region's instructions do from `from` on. Only at the end of
    /// the entry can stopping go without asking.
    pub open spec fn is_laid(self, region: RegionId, from: int) -> bool
        decreases self.program.rank(region), 1nat, self.program.region_ops(region).len() - from,
    {
        if from < 0 || from >= self.program.region_ops(region).len() {
            self.program.region(region).terminator.exit == Exit::Return && self.in_entry
                && !self.exits ==> region == self.program.functions[0].body
        } else {
            self.op_is_laid(region, from) && self.is_laid(region, from + 1)
        }
    }
}

/// Whether code arrives with values that come to numbers, having touched
/// nothing but those and what it was free to.
pub open spec fn arrives(
    setting: Setting,
    mine: Set<ValueId>,
    touched: Set<ValueId>,
    before: State,
    after: State,
    values: Seq<ValueId>,
    numbers: Seq<nat>,
) -> bool {
    &&& after.stack == before.stack
    &&& is_steady(
        setting,
        mine,
        before.locals,
        after.locals,
        touched.union(ir::order::among(values)),
    )
    &&& all_right(setting, values, numbers, after.locals)
}

/// Whether code leaves a region as the program does.
pub open spec fn meets(
    setting: Setting,
    mine: Set<ValueId>,
    around: Around,
    answers: nat,
    touched: Set<ValueId>,
    left: Left,
    state: State,
    went: Option<Went>,
) -> bool {
    match left {
        Left::Yields(numbers) => around.yields matches Some(run) && {
            let values = setting.program.values(run);
            numbers.len() == values.len() ==> (went matches Some(Went::On(after)) && arrives(
                setting,
                mine,
                touched,
                state,
                after,
                values,
                numbers,
            ))
        },
        Left::Continues(numbers) => around.frame matches Some(frame) && {
            let values = setting.program.values(frame.params);
            numbers.len() == values.len() ==> (went matches Some(Went::Jumps(count, after))
                && count == around.depth - 1 - frame.again && arrives(
                setting,
                mine,
                touched,
                state,
                after,
                values,
                numbers,
            ))
        },
        Left::Breaks(numbers) => around.frame matches Some(frame) && {
            let values = setting.program.values(frame.results);
            numbers.len() == values.len() ==> (went matches Some(Went::Jumps(count, after))
                && count == around.depth - 1 - frame.exit && arrives(
                setting,
                mine,
                touched,
                state,
                after,
                values,
                numbers,
            ))
        },
        Left::Answers(numbers) => if setting.in_entry {
            setting.exits && numbers.len() == 1 && went == Some(Went::Stops(numbers[0]))
        } else {
            &&& numbers.len() == answers
            &&& forall|i: int| 0 <= i < numbers.len() ==> #[trigger] numbers[i] < machine::size()
            &&& went matches Some(Went::Leaves(after)) && {
                &&& numbers.len() <= after.stack.len()
                &&& after.stack.skip(after.stack.len() - numbers.len()) == numbers
            }
        },
        Left::Asks(platform, numbers) => {
            &&& setting.is_exit(platform) ==> numbers.len() > 0 && went == Some(
                Went::Stops(numbers[0]),
            )
            &&& setting.program.is_write(platform) ==> numbers.len() > 1 && went == Some(
                Went::Tells(numbers[0], numbers[1]),
            )
        },
    }
}

/// Whether code ends as the program does. The end of the entry is the one
/// place where the program answers and the code goes on, off its end: what
/// it answers is nought.
pub open spec fn ends(
    setting: Setting,
    mine: Set<ValueId>,
    around: Around,
    answers: nat,
    touched: Set<ValueId>,
    region: RegionId,
    left: Left,
    state: State,
    went: Option<Went>,
) -> bool {
    if setting.in_entry && !setting.exits && left is Answers {
        &&& region == setting.program.functions[0].body
        &&& left->Answers_0 == seq![0nat]
        &&& went is Some
        &&& went->Some_0 is On
    } else {
        meets(setting, mine, around, answers, touched, left, state, went)
    }
}

/// What a region stands in is this function's.
pub open spec fn around_fits(setting: Setting, mine: Set<ValueId>, around: Around) -> bool {
    &&& around.yields matches Some(run) ==> {
        &&& setting.program.values(run).no_duplicates()
        &&& ir::order::among(setting.program.values(run)).subset_of(mine)
    }
    &&& around.frame matches Some(frame) ==> {
        &&& frame.again < around.depth
        &&& frame.exit < around.depth
        &&& setting.program.values(frame.params).no_duplicates()
        &&& setting.program.values(frame.results).no_duplicates()
        &&& ir::order::among(setting.program.values(frame.params)).subset_of(mine)
        &&& ir::order::among(setting.program.values(frame.results)).subset_of(mine)
    }
}

/// Values pushed lie on the stack as what they come to.
proof fn values_are_pushed(
    setting: Setting,
    out: Emitted,
    values: Seq<ValueId>,
    held: Held,
    numbers: Seq<nat>,
    state: State,
)
    requires
        agrees(setting, held, state.locals),
        ir::machine::read(held, values) == Some(numbers),
        !setting.push_all(out, values, 0).failed,
    ensures
        machine::runs(
            machine::added(out, setting.push_all(out, values, 0)),
            state,
        ) == Some((State { stack: state.stack + numbers, ..state })),
        numbers.len() == values.len(),
        forall|i: int| 0 <= i < numbers.len() ==> #[trigger] numbers[i] < machine::size(),
{
    let none = Seq::<u8>::empty();
    let end = setting.push_all(out, values, 0);
    all_that_is_pushed_is_held(setting, out, values, 0, held, numbers, state.locals);
    machine::pushes_push(setting, out, values, 0, none, state);
    assert(machine::added(out, end) + none =~= machine::added(out, end));
    let words = Seq::new(
        (values.len() - 0) as nat,
        |i: int| setting.word(values[0 + i], state.locals),
    );
    assert(words =~= numbers);
    assert forall|i: int| 0 <= i < numbers.len() implies #[trigger] numbers[i]
        < machine::size() by {
        assert(setting.is_placed(values[i], state.locals));
    }
}

/// Asking to stop stops, with what was pushed last.
proof fn asking_to_stop_stops(setting: Setting, module: Module, state: State, fuel: nat)
    requires
        module.imports == setting.imports(),
        setting.exits,
        state.stack.len() > 0,
    ensures
        module.one_runs(Code::Call(setting.proc_exit()), state, fuel) == Some(
            Went::Stops(state.stack.last()),
        ),
{
}

/// A region ends as the program does.
proof fn an_end_is_met(
    setting: Setting,
    module: Module,
    mine: Set<ValueId>,
    out: Emitted,
    around: Around,
    answers: nat,
    region: RegionId,
    held: Held,
    left: Left,
    state: State,
    fuel: nat,
)
    requires
        module.imports == setting.imports(),
        are_apart(setting, mine, state.locals.len()),
        around_fits(setting, mine, around),
        agrees(setting, held, state.locals),
        setting.is_laid(region, setting.program.region_ops(region).len() as int),
        setting.program.region(region).terminator.exit == Exit::Return
            ==> setting.program.values(
            setting.program.region(region).terminator.values,
        ).len() == answers,
        setting.in_entry ==> answers == 1,
        setting.in_entry && !setting.exits ==> is_nought(setting),
        setting.program.leaves(setting.program.region(region).terminator, held) == Some(left),
        !setting.terminator(out, around, setting.program.region(region).terminator).failed,
    ensures
        left is Yields ==> setting.program.region(region).terminator.exit == Exit::Yield,
        ends(
            setting,
            mine,
            around,
            answers,
            Set::empty(),
            region,
            left,
            state,
            module.all_run(setting.end_code(out, around, region), state, fuel),
        ),
{
    let end = setting.program.region(region).terminator;
    let values = setting.program.values(end.values);
    let numbers = ir::machine::read(held, values)->Some_0;
    let code = setting.end_code(out, around, region);
    assert(numbers.len() == values.len());
    match end.exit {
        Exit::Yield => {
            let results = setting.program.values(around.yields->Some_0);
            let moved = setting.transfer(out, values, results);
            if numbers.len() == results.len() {
                let after = a_transfer_hands_over(
                    setting,
                    mine,
                    out,
                    values,
                    results,
                    held,
                    numbers,
                    state,
                );
                one_runs_alone(module, Setting::between(out, moved), state, fuel);
            }
        },
        Exit::Continue => {
            let frame = around.frame->Some_0;
            a_jump_is_met(
                setting,
                module,
                mine,
                out,
                around,
                values,
                frame.params,
                frame.again,
                held,
                numbers,
                state,
                fuel,
            );
        },
        Exit::Break => {
            let frame = around.frame->Some_0;
            a_jump_is_met(
                setting,
                module,
                mine,
                out,
                around,
                values,
                frame.results,
                frame.exit,
                held,
                numbers,
                state,
                fuel,
            );
        },
        Exit::Return => {
            let pushed = setting.push_all(out, values, 0);
            if !setting.in_entry {
                flow::pushes_follow(setting, out, values, 0);
                values_are_pushed(setting, out, values, held, numbers, state);
                let after = State { stack: state.stack + numbers, ..state };
                two_run(module, Setting::between(out, pushed), Code::Leave, state, fuel);
                assert(after.stack.skip(after.stack.len() - numbers.len()) =~= numbers);
            } else if setting.exits {
                values_are_pushed(setting, out, values, held, numbers, state);
                let after = State { stack: state.stack + numbers, ..state };
                two_run(
                    module,
                    Setting::between(out, pushed),
                    Code::Call(setting.proc_exit()),
                    state,
                    fuel,
                );
                asking_to_stop_stops(setting, module, after, fuel);
                assert(after.stack.last() == numbers[0]);
            } else {
                assert(region == setting.program.functions[0].body);
                assert(is_right(setting, values[0], held[values[0]], state.locals)) by {
                    assert(held.dom().contains(values[0]));
                }
                assert(numbers =~= seq![0nat]);
            }
        },
        Exit::Unreachable => {},
    }
}

/// Whether the entry ends with a nought that is known outright.
pub open spec fn is_nought(setting: Setting) -> bool {
    let end = setting.program.region(setting.program.functions[0].body).terminator;
    let values = setting.program.values(end.values);
    end.exit == Exit::Return && values.len() > 0 ==> setting.constant(values[0]) == Some(0nat)
}

proof fn a_jump_is_met(
    setting: Setting,
    module: Module,
    mine: Set<ValueId>,
    out: Emitted,
    around: Around,
    values: Seq<ValueId>,
    destinations: Range,
    label: u32,
    held: Held,
    numbers: Seq<nat>,
    state: State,
    fuel: nat,
)
    requires
        are_apart(setting, mine, state.locals.len()),
        agrees(setting, held, state.locals),
        ir::machine::read(held, values) == Some(numbers),
        setting.program.values(destinations).no_duplicates(),
        ir::order::among(setting.program.values(destinations)).subset_of(mine),
        label < around.depth,
        !setting.transfer(out, values, setting.program.values(destinations)).failed,
    ensures
        numbers.len() == setting.program.values(destinations).len() ==> (module.all_run(
            setting.jump_code(out, around, values, destinations, label),
            state,
            fuel,
        ) matches Some(Went::Jumps(count, after)) && count == around.depth - 1 - label && arrives(
            setting,
            mine,
            Set::empty(),
            state,
            after,
            setting.program.values(destinations),
            numbers,
        )),
{
    let places = setting.program.values(destinations);
    let moved = setting.transfer(out, values, places);
    let count = (around.depth - 1 - label) as nat;
    if numbers.len() == places.len() {
        let after = a_transfer_hands_over(
            setting,
            mine,
            out,
            values,
            places,
            held,
            numbers,
            state,
        );
        two_run(module, Setting::between(out, moved), Code::Branch(count), state, fuel);
    }
}

/// Whether code does what an instruction does.
pub open spec fn does(
    setting: Setting,
    mine: Set<ValueId>,
    around: Around,
    answers: nat,
    touched: Set<ValueId>,
    held: Held,
    step: Step,
    state: State,
    went: Option<Went>,
) -> bool {
    match step {
        Step::Goes(next) => went matches Some(Went::On(after)) && {
            &&& after.stack == state.stack
            &&& is_steady(setting, mine, state.locals, after.locals, touched)
            &&& agrees(setting, next, after.locals)
            &&& next.dom().subset_of(held.dom().union(touched))
        },
        Step::Leaves(left) => {
            &&& !(left is Yields)
            &&& meets(setting, mine, around, answers, touched, left, state, went)
        },
    }
}

/// A number of a class this target holds is a word.
proof fn a_class_fits_a_word(class: Class)
    requires
        machine::holds(class),
    ensures
        0 < ir::machine::span(class, machine::size()) <= machine::size(),
{
    vstd::arithmetic::power2::lemma2_to64();
    match class {
        Class::Fixed { bits } => {
            vstd::arithmetic::power2::lemma_pow2_pos(bits as nat);
            if bits < 32 {
                vstd::arithmetic::power2::lemma_pow2_strictly_increases(bits as nat, 32);
            }
        },
        _ => {},
    }
}

/// An operation is what the program says it is, once its result is set.
proof fn an_operation_is_done(
    setting: Setting,
    module: Module,
    mine: Set<ValueId>,
    around: Around,
    answers: nat,
    out: Emitted,
    op: Op,
    results: Seq<ValueId>,
    held: Held,
    number: nat,
    state: State,
    fuel: nat,
)
    requires
        are_apart(setting, mine, state.locals.len()),
        agrees(setting, held, state.locals),
        held.dom().subset_of(mine),
        op is Binary || op is Compare || op is Convert,
        results.len() == 1,
        results.no_duplicates(),
        ir::order::among(results).subset_of(mine),
        ir::order::among(results).disjoint(held.dom()),
        machine::is_classed(setting, op, results[0]),
        !setting.simple(out, op, results).failed,
        forall|i: int|
            0 <= i < machine::operands(op).len() ==> {
                let value = #[trigger] machine::operands(op)[i];
                &&& setting.is_placed(value, state.locals)
                &&& setting.word(value, state.locals) < machine::size()
            },
        machine::operation(setting, op, state.locals) == Some(number),
        number < machine::size(),
    ensures
        does(
            setting,
            mine,
            around,
            answers,
            ir::order::among(results),
            held,
            Step::Goes(ir::machine::defined(held, results, seq![number])),
            state,
            module.all_run(setting.simple_code(out, op, results), state, fuel),
        ),
{
    let result = results[0];
    let end = setting.simple(out, op, results);
    assert(ir::order::among(results).contains(result));
    assert(mine.contains(result));
    machine::an_operation_computes(setting, out, op, results, state);
    let index = setting.local(result)->Some_0;
    let after = State { locals: state.locals.update(index as int, number), ..state };
    one_runs_alone(module, Setting::between(out, end), state, fuel);
    assert(module.all_run(setting.simple_code(out, op, results), state, fuel) == Some(
        Went::On(after),
    ));
    assert(is_steady(
        setting,
        mine,
        state.locals,
        after.locals,
        ir::order::among(results),
    )) by {
        assert forall|v: ValueId|
            #[trigger] mine.contains(v) && !ir::order::among(results).contains(v) implies (
        setting.local(v) matches Some(at) ==> after.locals[at as int]
            == state.locals[at as int]) by {
            assert(v != result);
        }
    }
    agreement_stays(
        setting,
        mine,
        held,
        state.locals,
        after.locals,
        ir::order::among(results),
    );
    assert(all_right(setting, results, seq![number], after.locals));
    what_is_defined_agrees(setting, held, results, seq![number], after.locals);
    let next = ir::machine::defined(held, results, seq![number]);
    assert(next.dom().subset_of(held.dom().union(ir::order::among(results))));
}

/// The operations that neither branch, call nor ask.
proof fn a_simple_one_is_met(
    setting: Setting,
    module: Module,
    mine: Set<ValueId>,
    around: Around,
    answers: nat,
    out: Emitted,
    op: Op,
    results: Seq<ValueId>,
    held: Held,
    step: Step,
    state: State,
    fuel: nat,
)
    requires
        are_apart(setting, mine, state.locals.len()),
        agrees(setting, held, state.locals),
        held.dom().subset_of(mine),
        op is Constant || op is Binary || op is Compare || op is Convert,
        results.no_duplicates(),
        ir::order::among(results).subset_of(mine),
        ir::order::among(results).disjoint(held.dom()),
        machine::is_classed(setting, op, results[0]),
        op matches Op::Constant { class, value } ==> {
            &&& setting.places.source[results[0].0 as int] == Source::Const(value)
            &&& class matches Class::Fixed { bits } ==> (value as nat)
                < vstd::arithmetic::power2::pow2(bits as nat)
        },
        !setting.simple(out, op, results).failed,
        setting.program.op_runs(host(setting.program, module), op, results, held, fuel) == Some(step),
    ensures
        does(
            setting,
            mine,
            around,
            answers,
            ir::order::among(results),
            held,
            step,
            state,
            module.all_run(setting.simple_code(out, op, results), state, fuel),
        ),
{
    let end = setting.simple(out, op, results);
    match op {
        Op::Constant { class, value } => {
            let number = value as nat % ir::machine::span(class, machine::size());
            assert(machine::added(out, end) =~= seq![]);
            one_runs_alone(module, Setting::between(out, end), state, fuel);
            assert(is_right(setting, results[0], number, state.locals)) by {
                match class {
                    Class::Fixed { bits } => {
                        vstd::arithmetic::div_mod::lemma_small_mod(
                            value as nat,
                            vstd::arithmetic::power2::pow2(bits as nat),
                        );
                    },
                    _ => {
                        if value <= u32::MAX {
                            vstd::arithmetic::div_mod::lemma_small_mod(
                                value as nat,
                                machine::size(),
                            );
                        }
                    },
                }
            }
            assert(all_right(setting, results, seq![number], state.locals));
            what_is_defined_agrees(setting, held, results, seq![number], state.locals);
            let next = ir::machine::defined(held, results, seq![number]);
            assert(next.dom().subset_of(held.dom().union(ir::order::among(results))));
        },
        Op::Binary { op: how, left, right } => {
            let one = setting.push(out, left);
            let two = setting.push(one, right);
            let three = two.emit(seq![Setting::opcode(how)]);
            let class = setting.program.class(results[0]);
            let four = setting.narrow(three, class);
            flow::a_push_follows(setting, one, right);
            flow::a_narrowing_follows(setting, three, class);
            flow::a_set_follows(setting, four, results[0]);
            let both = ir::machine::read(held, seq![left, right])->Some_0;
            assert(held.dom().contains(seq![left, right][0]));
            assert(held.dom().contains(seq![left, right][1]));
            what_is_pushed_is_held(setting, out, left, held, state.locals);
            what_is_pushed_is_held(setting, one, right, held, state.locals);
            let number = setting.program.computed(
                how,
                setting.program.class(left),
                both[0],
                both[1],
                machine::size(),
            );
            assert(machine::holds(class));
            a_class_fits_a_word(class);
            assert(machine::operation(setting, op, state.locals) == Some(number));
            an_operation_is_done(
                setting,
                module,
                mine,
                around,
                answers,
                out,
                op,
                results,
                held,
                number,
                state,
                fuel,
            );
        },
        Op::Compare { relation, left, right } => {
            let one = setting.push(out, left);
            let two = setting.push(one, right);
            let three = two.emit(seq![Setting::relation(relation)]);
            flow::a_push_follows(setting, one, right);
            flow::a_set_follows(setting, three, results[0]);
            let both = ir::machine::read(held, seq![left, right])->Some_0;
            assert(held.dom().contains(seq![left, right][0]));
            assert(held.dom().contains(seq![left, right][1]));
            what_is_pushed_is_held(setting, out, left, held, state.locals);
            what_is_pushed_is_held(setting, one, right, held, state.locals);
            let holds = match relation {
                Relation::Equal => both[0] == both[1],
                Relation::Less => both[0] < both[1],
            };
            let number: nat = if holds {
                1
            } else {
                0
            };
            an_operation_is_done(
                setting,
                module,
                mine,
                around,
                answers,
                out,
                op,
                results,
                held,
                number,
                state,
                fuel,
            );
        },
        Op::Convert { class, value } => {
            let one = setting.push(out, value);
            let two = setting.narrow(one, class);
            flow::a_narrowing_follows(setting, one, class);
            flow::a_set_follows(setting, two, results[0]);
            let word = ir::machine::read(held, seq![value])->Some_0;
            assert(held.dom().contains(seq![value][0]));
            what_is_pushed_is_held(setting, out, value, held, state.locals);
            assert(machine::holds(class));
            a_class_fits_a_word(class);
            an_operation_is_done(
                setting,
                module,
                mine,
                around,
                answers,
                out,
                op,
                results,
                held,
                word[0] % ir::machine::span(class, machine::size()),
                state,
                fuel,
            );
        },
        _ => {},
    }
}

/// An address needs no code of its own.
proof fn an_address_is_done(
    setting: Setting,
    module: Module,
    mine: Set<ValueId>,
    around: Around,
    answers: nat,
    out: Emitted,
    data: DataId,
    results: Seq<ValueId>,
    held: Held,
    state: State,
    fuel: nat,
)
    requires
        are_apart(setting, mine, state.locals.len()),
        agrees(setting, held, state.locals),
        held.dom().subset_of(mine),
        results.len() == 1,
        ir::order::among(results).subset_of(mine),
        ir::order::among(results).disjoint(held.dom()),
        setting.places.source[results[0].0 as int] == Source::Addr(data),
    ensures
        does(
            setting,
            mine,
            around,
            answers,
            ir::order::among(results),
            held,
            Step::Goes(ir::machine::defined(held, results, seq![setting.address(data)])),
            state,
            module.all_run(setting.simple_code(out, Op::AddressOf(data), results), state, fuel),
        ),
{
    let end = setting.simple(out, Op::AddressOf(data), results);
    let number = setting.address(data);
    assert(machine::added(out, end) =~= seq![]);
    one_runs_alone(module, Setting::between(out, end), state, fuel);
    assert(is_right(setting, results[0], number, state.locals));
    assert(all_right(setting, results, seq![number], state.locals));
    what_is_defined_agrees(setting, held, results, seq![number], state.locals);
    let next = ir::machine::defined(held, results, seq![number]);
    assert(next.dom().subset_of(held.dom().union(ir::order::among(results))));
}

/// Writing tells the system what the program says.
proof fn a_write_is_told(
    setting: Setting,
    module: Module,
    out: Emitted,
    args: Seq<ValueId>,
    held: Held,
    numbers: Seq<nat>,
    state: State,
    fuel: nat,
)
    requires
        module.imports == setting.imports(),
        agrees(setting, held, state.locals),
        args.len() > 1,
        ir::machine::read(held, args) == Some(numbers),
        !setting.write(out, args).failed,
        setting.write(out, args).iovecs[out.iovecs.len() as int] matches Some((base, length))
            ==> module.vector(lower::IOVECS + lower::IOVEC_LEN * out.iovecs.len()) == (
            base as nat,
            length as nat,
        ),
        lower::IOVECS + lower::IOVEC_LEN * setting.places.writes <= u32::MAX,
    ensures
        numbers.len() == args.len(),
        module.one_runs(setting.write_code(out, args), state, fuel) == if (module.watch)(
            numbers[0],
            numbers[1],
        ) {
            Some(Went::Tells(numbers[0], numbers[1]))
        } else {
            Some(Went::On(state))
        },
{
    let iovec = setting.next_vector(out);
    let index = out.iovecs.len();
    let end = setting.write(out, args);
    assert(index < setting.places.writes);
    assert(module.imports[0] == Import::FdWrite);
    assert(held.dom().contains(args[0]) && held.dom().contains(args[1]));
    assert(is_right(setting, args[0], held[args[0]], state.locals));
    assert(is_right(setting, args[1], held[args[1]], state.locals));
    match (setting.constant(args[0]), setting.constant(args[1])) {
        (Some(base), Some(length)) => {
            assert(base <= u32::MAX && length <= u32::MAX);
            assert(end.iovecs[index as int] == Some((base as u32, length as u32)));
            assert(iovec == lower::IOVECS + lower::IOVEC_LEN * index);
        },
        _ => {
            let none = Seq::<u8>::empty();
            let opened = Emitted { iovecs: out.iovecs.push(None), ..out };
            let one = opened.emit(lower::i32_const(super::module::signed(iovec)));
            let first = setting.push(one, args[0]);
            let half = setting.store(opened, iovec, args[0]);
            let other = half.emit(
                lower::i32_const(super::module::signed((iovec + 4) as u32)),
            );
            let second = setting.push(other, args[1]);
            flow::a_push_follows(setting, other, args[1]);
            assert(!second.failed && !first.failed);
            what_is_pushed_is_held(setting, one, args[0], held, state.locals);
            what_is_pushed_is_held(setting, other, args[1], held, state.locals);
            let low = state.push(iovec as nat);
            let high = state.push((iovec + 4) as u32 as nat);
            machine::a_push_pushes(setting, one, args[0], none, low);
            machine::a_push_pushes(setting, other, args[1], none, high);
            assert(machine::added(one, first) + none =~= machine::added(one, first));
            assert(machine::added(other, second) + none =~= machine::added(other, second));
            assert(low.push(numbers[0]).stack.last() == numbers[0]);
            assert(high.push(numbers[1]).stack.last() == numbers[1]);
        },
    }
}

/// Asking the platform.
proof fn a_platform_call_is_met(
    setting: Setting,
    module: Module,
    mine: Set<ValueId>,
    around: Around,
    answers: nat,
    touched: Set<ValueId>,
    out: Emitted,
    platform: PlatformId,
    args: Range,
    results: Seq<ValueId>,
    held: Held,
    step: Step,
    state: State,
    fuel: nat,
)
    requires
        module.imports == setting.imports(),
        agrees(setting, held, state.locals),
        setting.is_exit(platform) ==> setting.exits,
        !setting.simple(out, Op::PlatformCall { platform, args }, results).failed,
        setting.program.is_write(platform) ==> {
            let end = setting.simple(out, Op::PlatformCall { platform, args }, results);
            &&& end.iovecs[out.iovecs.len() as int] matches Some((base, length)) ==> module.vector(
                lower::IOVECS + lower::IOVEC_LEN * out.iovecs.len(),
            ) == (base as nat, length as nat)
            &&& lower::IOVECS + lower::IOVEC_LEN * setting.places.writes <= u32::MAX
        },
        setting.program.op_runs(
            host(setting.program, module),
            Op::PlatformCall { platform, args },
            results,
            held,
            fuel,
        ) == Some(step),
    ensures
        does(
            setting,
            mine,
            around,
            answers,
            touched,
            held,
            step,
            state,
            module.all_run(
                setting.simple_code(out, Op::PlatformCall { platform, args }, results),
                state,
                fuel,
            ),
        ),
{
    let values = setting.program.values(args);
    let numbers = ir::machine::read(held, values)->Some_0;
    if setting.is_exit(platform) {
        flow::the_two_routines_differ();
        let pushed = setting.push(out, values[0]);
        assert(values.len() > 0);
        assert(held.dom().contains(values[0]));
        what_is_pushed_is_held(setting, out, values[0], held, state.locals);
        let none = Seq::<u8>::empty();
        machine::a_push_pushes(setting, out, values[0], none, state);
        assert(machine::added(out, pushed) + none =~= machine::added(out, pushed));
        let after = state.push(numbers[0]);
        two_run(
            module,
            Setting::between(out, pushed),
            Code::Call(setting.proc_exit()),
            state,
            fuel,
        );
        asking_to_stop_stops(setting, module, after, fuel);
        assert(after.stack.last() == numbers[0]);
    } else if setting.program.is_write(platform) {
        assert(values.len() > 1);
        a_write_is_told(setting, module, out, values, held, numbers, state, fuel);
        one_runs_alone(module, setting.write_code(out, values), state, fuel);
    }
}

/// With nothing around it.
pub open spec fn nowhere() -> Around {
    Around { depth: 0, yields: None, frame: None }
}

/// What is written before a function is.
pub open spec fn writing(program: Parts, f: int) -> Emitted {
    Emitted { body: seq![], ..lower::functions(program, f).1 }
}

/// The setting of a function.
#[verifier::opaque]
pub open spec fn setting_of(program: Parts, f: FunctionId) -> Setting {
    lower::setting(program, f.0 == 0)
}

/// Whether a function's values have places of their own, and it is written
/// as it was to be.
pub open spec fn function_stands(program: Parts, module: Module, f: FunctionId) -> bool {
    let setting = setting_of(program, f);
    let routine = module.routines[f.0 as int];
    let body = program.function(f).body;
    let params = program.values(program.function(f).params);
    &&& are_apart(setting, program.function_given(f), routine.params + routine.locals)
    &&& setting.is_laid(body, 0)
    &&& forall|i: int|
        0 <= i < params.len() ==> setting.local(#[trigger] params[i]) == Some(i as u32)
    &&& routine.params == params.len()
    &&& routine.answers == if f.0 == 0 {
        0
    } else {
        program.function(f).answers.len as nat
    }
    &&& routine.code == setting.region_code(writing(program, f.0 as int), nowhere(), body, 0)
    &&& !setting.region(writing(program, f.0 as int), nowhere(), body, 0).failed
    &&& setting.region(
        writing(program, f.0 as int),
        nowhere(),
        body,
        0,
    ).iovecs.is_prefix_of(vectors_of(program))
}

/// Whether a whole program is.
pub open spec fn program_stands(program: Parts, module: Module) -> bool {
    &&& program.wf()
    &&& program.agrees()
    &&& program.orderly()
    &&& program.is_uncalled(FunctionId(0))
    &&& module.routines.len() == program.functions.len()
    &&& forall|f: FunctionId|
        f.0 < program.functions.len() ==> module.imports == #[trigger] setting_of(
            program,
            f,
        ).imports()
    &&& !setting_of(program, FunctionId(0)).exits ==> is_nought(
        setting_of(program, FunctionId(0)),
    )
    &&& forall|f: FunctionId|
        f.0 < program.functions.len() ==> #[trigger] function_stands(program, module, f)
    &&& vectors_stand(program, module)
}

/// What is known of the vectors, once everything is written.
pub open spec fn vectors_of(program: Parts) -> Seq<Option<(u32, u32)>> {
    lower::functions(program, program.functions.len() as int).1.iovecs
}

/// Whether the vectors that are known are what memory starts out with.
pub open spec fn vectors_stand(program: Parts, module: Module) -> bool {
    &&& lower::IOVECS + lower::IOVEC_LEN * setting_of(program, FunctionId(0)).places.writes
        <= u32::MAX
    &&& forall|i: int|
        0 <= i < vectors_of(program).len() && i < setting_of(
            program,
            FunctionId(0),
        ).places.writes ==> ((#[trigger] vectors_of(program)[i]) matches Some((base, length))
            ==> module.vector(lower::IOVECS + lower::IOVEC_LEN * i) == (base as nat, length as nat))
}

/// Whether a region of a function can be followed from one of its
/// instructions on.
pub open spec fn region_stands(
    program: Parts,
    f: FunctionId,
    out: Emitted,
    around: Around,
    region: RegionId,
    from: int,
) -> bool {
    let setting = setting_of(program, f);
    &&& region.0 < program.regions.len()
    &&& 0 <= from <= program.region_ops(region).len()
    &&& !setting.region(out, around, region, from).failed
    &&& setting.region(out, around, region, from).iovecs.is_prefix_of(vectors_of(program))
    &&& setting.is_laid(region, from)
    &&& program.is_single(region, from)
    &&& program.region_agrees(
        region,
        program.function(f).answers.read(program.signature),
        from,
    )
    &&& program.given(region, from).subset_of(program.function_given(f))
    &&& around_fits(setting, program.function_given(f), around)
}

/// What a program holds and what the locals hold, side by side.
pub open spec fn stays(program: Parts, module: Module, f: FunctionId, held: Held, state: State)
    -> bool {
    let routine = module.routines[f.0 as int];
    &&& state.locals.len() == routine.params + routine.locals
    &&& agrees(setting_of(program, f), held, state.locals)
    &&& held.dom().subset_of(program.function_given(f))
}

/// Whether a call comes to what the program says it does.
pub open spec fn call_meets(
    program: Parts,
    module: Module,
    f: FunctionId,
    numbers: Seq<nat>,
    left: Left,
    fuel: nat,
) -> bool {
    let setting = setting_of(program, f);
    let called = module.called(f.0 as nat, numbers, fuel);
    match left {
        Left::Answers(answers) => if f.0 == 0 {
            answers.len() == 1 && (called == Some(Called::Stops(answers[0])) || (answers[0] == 0
                && called is Some && called->Some_0 is Answers))
        } else {
            &&& called == Some(Called::Answers(answers))
            &&& forall|i: int| 0 <= i < answers.len() ==> #[trigger] answers[i] < machine::size()
        },
        Left::Asks(platform, asked) => {
            &&& setting.is_exit(platform) ==> asked.len() > 0 && called == Some(
                Called::Stops(asked[0]),
            )
            &&& setting.program.is_write(platform) ==> asked.len() > 1 && called == Some(
                Called::Tells(asked[0], asked[1]),
            )
        },
        _ => true,
    }
}

/// What a region touches on its way to an end is touched of what came before.
proof fn ending_chains(
    setting: Setting,
    mine: Set<ValueId>,
    around: Around,
    answers: nat,
    one: Set<ValueId>,
    other: Set<ValueId>,
    both: Set<ValueId>,
    region: RegionId,
    left: Left,
    state: State,
    mid: State,
    went: Option<Went>,
)
    requires
        mid.stack == state.stack,
        is_steady(setting, mine, state.locals, mid.locals, one),
        ends(setting, mine, around, answers, other, region, left, mid, went),
        one.subset_of(both),
        other.subset_of(both),
    ensures
        ends(setting, mine, around, answers, both, region, left, state, went),
{
    match left {
        Left::Yields(numbers) => {
            let values = setting.program.values(around.yields->Some_0);
            if numbers.len() == values.len() {
                let after = went->Some_0->On_0;
                steadiness_chains(
                    setting,
                    mine,
                    state.locals,
                    mid.locals,
                    after.locals,
                    one,
                    other.union(ir::order::among(values)),
                    both.union(ir::order::among(values)),
                );
            }
        },
        Left::Continues(numbers) => {
            let values = setting.program.values(around.frame->Some_0.params);
            if numbers.len() == values.len() {
                let after = went->Some_0->Jumps_1;
                steadiness_chains(
                    setting,
                    mine,
                    state.locals,
                    mid.locals,
                    after.locals,
                    one,
                    other.union(ir::order::among(values)),
                    both.union(ir::order::among(values)),
                );
            }
        },
        Left::Breaks(numbers) => {
            let values = setting.program.values(around.frame->Some_0.results);
            if numbers.len() == values.len() {
                let after = went->Some_0->Jumps_1;
                steadiness_chains(
                    setting,
                    mine,
                    state.locals,
                    mid.locals,
                    after.locals,
                    one,
                    other.union(ir::order::among(values)),
                    both.union(ir::order::among(values)),
                );
            }
        },
        _ => {},
    }
}

/// There are as many results as there are instructions.
proof fn every_op_has_results(program: Parts, region: RegionId)
    requires
        program.wf(),
        region.0 < program.regions.len(),
    ensures
        program.region_ops(region).len() == program.region_results(region).len(),
{
    assert(program.region_fits(program.regions[region.0 as int]));
}

/// A call hands over its arguments, and takes what is answered.
proof fn a_call_is_met(
    setting: Setting,
    module: Module,
    mine: Set<ValueId>,
    around: Around,
    answers: nat,
    out: Emitted,
    function: FunctionId,
    args: Range,
    results: Seq<ValueId>,
    held: Held,
    numbers: Seq<nat>,
    left: Left,
    step: Step,
    state: State,
    fuel: nat,
)
    requires
        module.imports == setting.imports(),
        are_apart(setting, mine, state.locals.len()),
        agrees(setting, held, state.locals),
        held.dom().subset_of(mine),
        function.0 < module.routines.len(),
        module.routines[function.0 as int].params == numbers.len(),
        results.no_duplicates(),
        ir::order::among(results).subset_of(mine),
        ir::order::among(results).disjoint(held.dom()),
        !setting.simple(out, Op::Call { function, args }, results).failed,
        ir::machine::read(held, setting.program.values(args)) == Some(numbers),
        fuel > 0,
        match left {
            Left::Answers(answers) => {
                &&& module.called(function.0 as nat, numbers, (fuel - 1) as nat) == Some(
                    Called::Answers(answers),
                )
                &&& forall|i: int|
                    0 <= i < answers.len() ==> #[trigger] answers[i] < machine::size()
                &&& answers.len() == results.len()
                &&& step == Step::Goes(ir::machine::defined(held, results, answers))
            },
            Left::Asks(platform, asked) => {
                &&& setting.is_exit(platform) ==> asked.len() > 0 && module.called(
                    function.0 as nat,
                    numbers,
                    (fuel - 1) as nat,
                ) == Some(Called::Stops(asked[0]))
                &&& setting.program.is_write(platform) ==> asked.len() > 1 && module.called(
                    function.0 as nat,
                    numbers,
                    (fuel - 1) as nat,
                ) == Some(Called::Tells(asked[0], asked[1]))
                &&& step == Step::Leaves(left)
            },
            _ => false,
        },
    ensures
        does(
            setting,
            mine,
            around,
            answers,
            ir::order::among(results),
            held,
            step,
            state,
            module.all_run(
                setting.simple_code(out, Op::Call { function, args }, results),
                state,
                fuel,
            ),
        ),
{
    let values = setting.program.values(args);
    let op = Op::Call { function, args };
    let passed = setting.push_all(out, values, 0);
    let index = setting.imports().len() + function.0 as nat;
    let called = passed.emit(lower::indexed(super::CALL, index));
    let end = setting.simple(out, op, results);
    flow::sets_follow(setting, called, results, results.len() as int);
    values_are_pushed(setting, out, values, held, numbers, state);
    let full = State { stack: state.stack + numbers, ..state };
    let one = Setting::between(out, passed);
    let two = Code::Call(index);
    let three = Setting::between(called, end);
    assert(setting.simple_code(out, op, results) =~= seq![one, two] + seq![three]);
    running_joins(module, seq![one, two], seq![three], state, fuel);
    two_run(module, one, two, state, fuel);
    assert(full.stack.skip(full.stack.len() - numbers.len()) =~= numbers);
    assert(full.stack.take(full.stack.len() - numbers.len()) =~= state.stack);
    match left {
        Left::Answers(answers) => {
            let back = State { stack: state.stack + answers, ..state };
            assert(module.one_runs(two, full, fuel) == Some(Went::On(back)));
            one_runs_alone(module, three, back, fuel);
            answers_are_set(setting, mine, called, results, answers, state);
            let after = State {
                locals: machine::settled(
                    setting,
                    state.locals,
                    results,
                    answers,
                    results.len() as int,
                ),
                ..state
            };
            agreement_stays(
                setting,
                mine,
                held,
                state.locals,
                after.locals,
                ir::order::among(results),
            );
            what_is_defined_agrees(setting, held, results, answers, after.locals);
            let next = ir::machine::defined(held, results, answers);
            assert(next.dom().subset_of(held.dom().union(ir::order::among(results))));
        },
        _ => {},
    }
}

/// What is answered goes where it belongs.
proof fn answers_are_set(
    setting: Setting,
    mine: Set<ValueId>,
    out: Emitted,
    results: Seq<ValueId>,
    answers: Seq<nat>,
    state: State,
)
    requires
        are_apart(setting, mine, state.locals.len()),
        results.no_duplicates(),
        ir::order::among(results).subset_of(mine),
        answers.len() == results.len(),
        forall|i: int| 0 <= i < answers.len() ==> #[trigger] answers[i] < machine::size(),
        !setting.set_all(out, results, results.len() as int).failed,
    ensures
        ({
            let end = setting.set_all(out, results, results.len() as int);
            let after = State {
                locals: machine::settled(
                    setting,
                    state.locals,
                    results,
                    answers,
                    results.len() as int,
                ),
                ..state
            };
            &&& machine::runs(
                machine::added(out, end),
                (State { stack: state.stack + answers, ..state }),
            ) == Some(after)
            &&& is_steady(
                setting,
                mine,
                state.locals,
                after.locals,
                ir::order::among(results),
            )
            &&& all_right(setting, results, answers, after.locals)
        }),
{
    let count = results.len() as int;
    let none = Seq::<u8>::empty();
    let end = setting.set_all(out, results, count);
    let after = machine::settled(setting, state.locals, results, answers, count);
    assert forall|i: int| 0 <= i < results.len() implies mine.contains(#[trigger] results[i]) by {
        assert(ir::order::among(results).contains(results[i]));
    }
    assert forall|i: int| 0 <= i < results.len() implies setting.is_placed(
        #[trigger] results[i],
        state.locals,
    ) by {
        assert(mine.contains(results[i]));
    }
    sets_have_locals(setting, out, results, count);
    assert(machine::are_apart(setting, results)) by {
        assert forall|i: int, j: int| 0 <= i < j < results.len() implies setting.local(
            #[trigger] results[i],
        ) != setting.local(#[trigger] results[j]) by {
            assert(results[i] != results[j]);
            assert(mine.contains(results[i]) && mine.contains(results[j]));
        }
    }
    machine::sets_set(setting, out, results, count, answers, none, state);
    machine::what_settles(setting, state.locals, results, answers, count);
    assert(machine::added(out, end) + none =~= machine::added(out, end));
    assert(answers.take(count) =~= answers);
    assert forall|i: int| 0 <= i < results.len() implies #[trigger] is_right(
        setting,
        results[i],
        answers[i],
        after,
    ) by {
        assert(setting.local(results[i]) is Some);
        assert(mine.contains(results[i]));
    }
    assert forall|v: ValueId|
        #[trigger] mine.contains(v) && !ir::order::among(results).contains(v) implies (
    setting.local(v) matches Some(index) ==> after[index as int] == state.locals[index as int]) by {
        if let Some(index) = setting.local(v) {
            assert forall|i: int| 0 <= i < results.len() implies setting.local(
                #[trigger] results[i],
            ) != Some(index as int as u32) by {
                assert(mine.contains(results[i]));
                assert(v != results[i]);
            }
            assert(after[index as int] == state.locals[index as int]);
        }
    }
}

/// A choice takes the arm the program does, and is left as that arm is.
proof fn a_choice_is_met(
    setting: Setting,
    module: Module,
    mine: Set<ValueId>,
    around: Around,
    answers: nat,
    inner: Set<ValueId>,
    touched: Set<ValueId>,
    out: Emitted,
    condition: ValueId,
    one: Seq<Code>,
    other: Seq<Code>,
    results: Range,
    held: Held,
    left: Left,
    step: Step,
    state: State,
    fuel: nat,
)
    requires
        around_fits(setting, mine, around),
        around.depth < u32::MAX,
        agrees(setting, held, state.locals),
        held.dom().subset_of(mine),
        held.dom().contains(condition),
        held.dom().disjoint(touched),
        !setting.push(out, condition).failed,
        fuel > 0,
        setting.program.values(results).no_duplicates(),
        inner.union(ir::order::among(setting.program.values(results))).subset_of(touched),
        meets(
            setting,
            mine,
            Setting::inside_if(around, results),
            answers,
            inner,
            left,
            state,
            module.all_run(
                if held[condition] != 0 {
                    one
                } else {
                    other
                },
                state,
                (fuel - 1) as nat,
            ),
        ),
        match left {
            Left::Yields(numbers) => {
                &&& numbers.len() == setting.program.values(results).len()
                &&& step == Step::Goes(
                    ir::machine::defined(held, setting.program.values(results), numbers),
                )
            },
            _ => step == Step::Leaves(left),
        },
    ensures
        does(
            setting,
            mine,
            around,
            answers,
            touched,
            held,
            step,
            state,
            module.all_run(
                seq![
                    Setting::between(out, setting.push(out, condition)),
                    Code::Choice(one, other),
                ],
                state,
                fuel,
            ),
        ),
{
    let asked = setting.push(out, condition);
    let none = Seq::<u8>::empty();
    let within = Setting::inside_if(around, results);
    let places = setting.program.values(results);
    let less = (fuel - 1) as nat;
    what_is_pushed_is_held(setting, out, condition, held, state.locals);
    machine::a_push_pushes(setting, out, condition, none, state);
    assert(machine::added(out, asked) + none =~= machine::added(out, asked));
    let full = state.push(held[condition]);
    assert(full.pop() =~= state);
    two_run(module, Setting::between(out, asked), Code::Choice(one, other), state, fuel);
    let taken = if held[condition] != 0 {
        one
    } else {
        other
    };
    let went = module.all_run(taken, state, less);
    assert(full.stack.last() == held[condition]);
    assert(module.one_runs(Code::Choice(one, other), full, fuel) == match went {
        Some(went) => Some(went.outside(state.stack)),
        None => None,
    });
    match left {
        Left::Yields(numbers) => {
            let after = went->Some_0->On_0;
            let free = inner.union(ir::order::among(places));
            assert(is_steady(setting, mine, state.locals, after.locals, touched));
            agreement_stays(setting, mine, held, state.locals, after.locals, touched);
            what_is_defined_agrees(setting, held, places, numbers, after.locals);
            let next = ir::machine::defined(held, places, numbers);
            assert(next.dom().subset_of(held.dom().union(touched))) by {
                assert forall|v: ValueId| next.dom().contains(v) implies held.dom().union(
                    touched,
                ).contains(v) by {
                    if places.contains(v) {
                        assert(ir::order::among(places).contains(v));
                        assert(free.contains(v));
                    }
                }
            }
        },
        Left::Continues(numbers) => {
            let places = setting.program.values(around.frame->Some_0.params);
            if numbers.len() == places.len() {
                let after = went->Some_0->Jumps_1;
                assert(is_steady(
                    setting,
                    mine,
                    state.locals,
                    after.locals,
                    touched.union(ir::order::among(places)),
                ));
            }
        },
        Left::Breaks(numbers) => {
            let places = setting.program.values(around.frame->Some_0.results);
            if numbers.len() == places.len() {
                let after = went->Some_0->Jumps_1;
                assert(is_steady(
                    setting,
                    mine,
                    state.locals,
                    after.locals,
                    touched.union(ir::order::among(places)),
                ));
            }
        },
        _ => {},
    }
}

/// Whether going round comes to what the program's does: it is broken out of,
/// or the function is left.
pub open spec fn round_meets(
    setting: Setting,
    mine: Set<ValueId>,
    around: Around,
    answers: nat,
    touched: Set<ValueId>,
    results: Range,
    left: Left,
    state: State,
    went: Option<Went>,
) -> bool {
    match left {
        Left::Breaks(numbers) => numbers.len() == setting.program.values(results).len() ==> (
        went matches Some(Went::Jumps(count, after)) && count == 0 && arrives(
            setting,
            mine,
            touched,
            state,
            after,
            setting.program.values(results),
            numbers,
        )),
        Left::Answers(_) => meets(setting, mine, around, answers, touched, left, state, went),
        Left::Asks(_, _) => meets(setting, mine, around, answers, touched, left, state, went),
        _ => false,
    }
}

/// Once round a loop.
proof fn once_round(
    setting: Setting,
    module: Module,
    mine: Set<ValueId>,
    around: Around,
    answers: nat,
    inner: Set<ValueId>,
    touched: Set<ValueId>,
    params: Range,
    results: Range,
    code: Seq<Code>,
    left: Left,
    state: State,
    fuel: nat,
)
    requires
        around.depth < u32::MAX - 1,
        !(left is Continues),
        !(left is Yields),
        inner.subset_of(touched),
        meets(
            setting,
            mine,
            Setting::inside_loop(around, params, results),
            answers,
            inner,
            left,
            state,
            module.all_run(code, state, fuel),
        ),
    ensures
        round_meets(
            setting,
            mine,
            around,
            answers,
            touched,
            results,
            left,
            state,
            module.goes_round(code, state, fuel),
        ),
{
    let went = module.all_run(code, state, fuel);
    match left {
        Left::Breaks(numbers) => {
            let places = setting.program.values(results);
            if numbers.len() == places.len() {
                let after = went->Some_0->Jumps_1;
                assert(is_steady(
                    setting,
                    mine,
                    state.locals,
                    after.locals,
                    touched.union(ir::order::among(places)),
                ));
            }
        },
        _ => {},
    }
}

/// Round a loop again.
proof fn round_again(
    setting: Setting,
    module: Module,
    mine: Set<ValueId>,
    around: Around,
    answers: nat,
    inner: Set<ValueId>,
    touched: Set<ValueId>,
    params: Range,
    results: Range,
    code: Seq<Code>,
    numbers: Seq<nat>,
    left: Left,
    state: State,
    mid: State,
    fuel: nat,
)
    requires
        around.depth < u32::MAX - 1,
        fuel > 0,
        inner.union(ir::order::among(setting.program.values(params))).subset_of(touched),
        module.all_run(code, state, fuel) == Some(Went::Jumps(0, mid)),
        arrives(
            setting,
            mine,
            inner,
            state,
            mid,
            setting.program.values(params),
            numbers,
        ),
        round_meets(
            setting,
            mine,
            around,
            answers,
            touched,
            results,
            left,
            mid,
            module.goes_round(code, mid, (fuel - 1) as nat),
        ),
    ensures
        round_meets(
            setting,
            mine,
            around,
            answers,
            touched,
            results,
            left,
            state,
            module.goes_round(code, state, fuel),
        ),
{
    let went = module.goes_round(code, mid, (fuel - 1) as nat);
    assert((State { stack: state.stack, ..mid }) =~= mid);
    match left {
        Left::Breaks(numbers) => {
            let places = setting.program.values(results);
            if numbers.len() == places.len() {
                let after = went->Some_0->Jumps_1;
                steadiness_chains(
                    setting,
                    mine,
                    state.locals,
                    mid.locals,
                    after.locals,
                    inner.union(ir::order::among(setting.program.values(params))),
                    touched.union(ir::order::among(places)),
                    touched.union(ir::order::among(places)),
                );
            }
        },
        _ => {},
    }
}

/// A loop is entered with what the program enters it with, and left as the
/// program leaves it.
proof fn a_whole_loop_is_met(
    setting: Setting,
    module: Module,
    mine: Set<ValueId>,
    around: Around,
    answers: nat,
    inner: Set<ValueId>,
    touched: Set<ValueId>,
    out: Emitted,
    initial: Seq<ValueId>,
    params: Seq<ValueId>,
    results: Range,
    code: Seq<Code>,
    held: Held,
    left: Left,
    step: Step,
    state: State,
    mid: State,
    fuel: nat,
)
    requires
        agrees(setting, held, state.locals),
        held.dom().subset_of(mine),
        held.dom().disjoint(touched),
        fuel > 0,
        setting.program.values(results).no_duplicates(),
        ir::order::among(params).subset_of(inner),
        inner.union(ir::order::among(setting.program.values(results))).subset_of(touched),
        machine::runs(
            machine::added(out, setting.transfer(out, initial, params)),
            state,
        ) == Some(mid),
        mid.stack == state.stack,
        is_steady(setting, mine, state.locals, mid.locals, ir::order::among(params)),
        round_meets(
            setting,
            mine,
            around,
            answers,
            inner,
            results,
            left,
            mid,
            module.goes_round(code, mid, (fuel - 1) as nat),
        ),
        match left {
            Left::Breaks(numbers) => {
                &&& numbers.len() == setting.program.values(results).len()
                &&& step == Step::Goes(
                    ir::machine::defined(held, setting.program.values(results), numbers),
                )
            },
            _ => step == Step::Leaves(left),
        },
    ensures
        does(
            setting,
            mine,
            around,
            answers,
            touched,
            held,
            step,
            state,
            module.all_run(
                seq![
                    Setting::between(out, setting.transfer(out, initial, params)),
                    Code::Block(seq![Code::Again(code)]),
                ],
                state,
                fuel,
            ),
        ),
{
    let entered = setting.transfer(out, initial, params);
    let again = Code::Again(code);
    let places = setting.program.values(results);
    two_run(
        module,
        Setting::between(out, entered),
        Code::Block(seq![again]),
        state,
        fuel,
    );
    one_runs_alone(module, again, mid, fuel);
    let went = module.goes_round(code, mid, (fuel - 1) as nat);
    assert(module.all_run(seq![again], mid, fuel) == went);
    match left {
        Left::Breaks(numbers) => {
            let after = went->Some_0->Jumps_1;
            assert((State { stack: mid.stack, ..after }) =~= after);
            steadiness_chains(
                setting,
                mine,
                state.locals,
                mid.locals,
                after.locals,
                ir::order::among(params),
                inner.union(ir::order::among(places)),
                touched,
            );
            agreement_stays(setting, mine, held, state.locals, after.locals, touched);
            what_is_defined_agrees(setting, held, places, numbers, after.locals);
            let next = ir::machine::defined(held, places, numbers);
            assert(next.dom().subset_of(held.dom().union(touched))) by {
                assert forall|v: ValueId| next.dom().contains(v) implies held.dom().union(
                    touched,
                ).contains(v) by {
                    if places.contains(v) {
                        assert(ir::order::among(places).contains(v));
                        assert(inner.union(ir::order::among(places)).contains(v));
                    }
                }
            }
        },
        _ => {},
    }
}

proof fn a_setting_is_its_programs(program: Parts, f: FunctionId)
    ensures
        setting_of(program, f).program == program,
        setting_of(program, f).in_entry == (f.0 == 0),
        setting_of(program, f).places == setting_of(program, FunctionId(0)).places,
        setting_of(program, f).exits == setting_of(program, FunctionId(0)).exits,
        setting_of(program, f).imports() == setting_of(program, FunctionId(0)).imports(),
{
    reveal(setting_of);
}

/// A function answers as many words as it says.
proof fn an_answer_is_as_long(program: Parts, f: FunctionId)
    requires
        program.wf(),
        f.0 < program.functions.len(),
    ensures
        program.function(f).answers.read(program.signature).len() == program.function(f).answers.len,
        program.values(program.function(f).params).len() == program.function(f).params.len,
        program.function(f).body.0 < program.regions.len(),
{
    assert(program.function_fits(program.functions[f.0 as int]));
}

proof fn vectors_chain(
    first: Seq<Option<(u32, u32)>>,
    second: Seq<Option<(u32, u32)>>,
    third: Seq<Option<(u32, u32)>>,
)
    requires
        first.is_prefix_of(second),
        second.is_prefix_of(third),
    ensures
        first.is_prefix_of(third),
{
    assert forall|i: int| 0 <= i < first.len() implies first[i] == third[i] by {
        assert(first[i] == second[i]);
    }
}

/// What is known of the vector of a write is what memory starts out with.
proof fn a_vector_is_found(
    program: Parts,
    module: Module,
    f: FunctionId,
    out: Emitted,
    platform: PlatformId,
    args: Range,
    results: Seq<ValueId>,
)
    requires
        vectors_stand(program, module),
        program.is_write(platform),
        ({
            let end = setting_of(program, f).simple(
                out,
                Op::PlatformCall { platform, args },
                results,
            );
            !end.failed && end.iovecs.is_prefix_of(vectors_of(program))
        }),
    ensures
        ({
            let end = setting_of(program, f).simple(
                out,
                Op::PlatformCall { platform, args },
                results,
            );
            end.iovecs[out.iovecs.len() as int] matches Some((base, length)) ==> module.vector(
                lower::IOVECS + lower::IOVEC_LEN * out.iovecs.len(),
            ) == (base as nat, length as nat)
        }),
{
    let setting = setting_of(program, f);
    let end = setting.simple(out, Op::PlatformCall { platform, args }, results);
    let index = out.iovecs.len() as int;
    a_setting_is_its_programs(program, f);
    assert(end == setting.write(out, program.values(args)));
    assert(index < setting.places.writes);
    assert(end.iovecs.len() == index + 1);
    assert(end.iovecs[index] == vectors_of(program)[index]);
}

/// An instruction does what the program says it does.
#[verifier::rlimit(40)]
#[verifier::spinoff_prover]
proof fn an_op_is_met(
    program: Parts,
    module: Module,
    f: FunctionId,
    out: Emitted,
    around: Around,
    region: RegionId,
    at: int,
    held: Held,
    step: Step,
    state: State,
    fuel: nat,
)
    requires
        program_stands(program, module),
        f.0 < program.functions.len(),
        region_stands(program, f, out, around, region, at),
        at < program.region_ops(region).len(),
        stays(program, module, f, held, state),
        held.dom().disjoint(program.given(region, at)),
        program.op_runs(
            host(program, module),
            program.region_ops(region)[at],
            program.values(program.region_results(region)[at]),
            held,
            fuel,
        ) == Some(step),
    ensures
        does(
            setting_of(program, f),
            program.function_given(f),
            around,
            program.function(f).answers.len as nat,
            program.op_given(region, at),
            held,
            step,
            state,
            module.all_run(
                setting_of(program, f).op_code(out, around, region, at).0,
                state,
                fuel,
            ),
        ),
    decreases fuel, 1nat, 0int,
{
    let setting = setting_of(program, f);
    let mine = program.function_given(f);
    let answers = program.function(f).answers.len as nat;
    let op = program.region_ops(region)[at];
    let run = program.region_results(region)[at];
    let results = program.values(run);
    let (code, next) = setting.op_code(out, around, region, at);
    a_setting_is_its_programs(program, f);
    assert(setting_of(program, f).imports() == module.imports);
    assert(function_stands(program, module, f));
    assert(program.op_is_single(region, at));
    ir::order::an_op_is_in_order(program, region, at);
    assert(setting.op_is_laid(region, at));
    ir::model::inside(program, region, at);
    flow::a_region_is_printed(setting, next, around, region, at + 1);
    assert(setting.region(out, around, region, at) == setting.region(
        next,
        around,
        region,
        at + 1,
    ));
    assert(!next.failed);
    vectors_chain(
        next.iovecs,
        setting.region(out, around, region, at).iovecs,
        vectors_of(program),
    );
    assert(program.op_given(region, at).subset_of(program.given(region, at)));
    assert(program.op_given(region, at).subset_of(mine));
    assert(held.dom().disjoint(program.op_given(region, at)));
    assert(ir::order::among(results).subset_of(program.op_given(region, at)));
    assert(ir::order::among(results).subset_of(mine));
    assert(ir::order::among(results).disjoint(held.dom()));
    match op {
        Op::If { .. } => {
            a_choice_follows(
                program,
                module,
                f,
                out,
                around,
                region,
                at,
                held,
                step,
                state,
                fuel,
            );
        },
        Op::Loop { .. } => {
            a_loop_follows(
                program,
                module,
                f,
                out,
                around,
                region,
                at,
                held,
                step,
                state,
                fuel,
            );
        },
        Op::Call { function, args } => {
            let numbers = ir::machine::read(held, program.values(args))->Some_0;
            let less = (fuel - 1) as nat;
            let left = program.function_runs(host(program, module), function, numbers, less)->Some_0;
            flow::sets_follow(
                setting,
                setting.push_all(out, program.values(args), 0).emit(
                    lower::indexed(super::CALL, setting.imports().len() + function.0 as nat),
                ),
                results,
                results.len() as int,
            );
            values_are_pushed(setting, out, program.values(args), held, numbers, state);
            a_function_is_met(program, module, function, numbers, left, less);
            a_setting_is_its_programs(program, function);
            assert(function_stands(program, module, function));
            a_call_is_met(
                setting,
                module,
                mine,
                around,
                answers,
                out,
                function,
                args,
                results,
                held,
                numbers,
                left,
                step,
                state,
                fuel,
            );
        },
        Op::PlatformCall { platform, args } => {
            if program.is_write(platform) {
                a_vector_is_found(program, module, f, out, platform, args, results);
            }
            a_platform_call_is_met(
                setting,
                module,
                mine,
                around,
                answers,
                program.op_given(region, at),
                out,
                platform,
                args,
                results,
                held,
                step,
                state,
                fuel,
            );
        },
        Op::AddressOf(data) => {
            a_setting_is_its_programs(program, FunctionId(0));
            assert(data.0 < program.spans.len());
            assert(host(program, module).places[data] == setting.address(data));
            assert(step == Step::Goes(
                ir::machine::defined(held, results, seq![setting.address(data)]),
            ));
            an_address_is_done(
                setting,
                module,
                mine,
                around,
                answers,
                out,
                data,
                results,
                held,
                state,
                fuel,
            );
        },
        Op::Load { .. } => {},
        Op::Store { .. } => {},
        _ => {
            a_simple_one_is_met(
                setting,
                module,
                mine,
                around,
                answers,
                out,
                op,
                results,
                held,
                step,
                state,
                fuel,
            );
        },
    }
}

#[verifier::spinoff_prover]
proof fn a_choice_follows(
    program: Parts,
    module: Module,
    f: FunctionId,
    out: Emitted,
    around: Around,
    region: RegionId,
    at: int,
    held: Held,
    step: Step,
    state: State,
    fuel: nat,
)
    requires
        program_stands(program, module),
        f.0 < program.functions.len(),
        region_stands(program, f, out, around, region, at),
        at < program.region_ops(region).len(),
        program.region_ops(region)[at] is If,
        stays(program, module, f, held, state),
        held.dom().disjoint(program.given(region, at)),
        program.op_runs(
            host(program, module),
            program.region_ops(region)[at],
            program.values(program.region_results(region)[at]),
            held,
            fuel,
        ) == Some(step),
        !setting_of(program, f).op_code(out, around, region, at).1.failed,
        setting_of(program, f).op_code(out, around, region, at).1.iovecs.is_prefix_of(
            vectors_of(program),
        ),
    ensures
        does(
            setting_of(program, f),
            program.function_given(f),
            around,
            program.function(f).answers.len as nat,
            program.op_given(region, at),
            held,
            step,
            state,
            module.all_run(
                setting_of(program, f).op_code(out, around, region, at).0,
                state,
                fuel,
            ),
        ),
    decreases fuel, 0nat, 0int,
{
    let setting = setting_of(program, f);
    let mine = program.function_given(f);
    let answers = program.function(f).answers.len as nat;
    let run = program.region_results(region)[at];
    let results = program.values(run);
    let given = program.op_given(region, at);
    a_setting_is_its_programs(program, f);
    assert(given.subset_of(program.given(region, at)));
    if let Op::If { condition, then_region, else_region } = program.region_ops(region)[at] {
        let within = Setting::inside_if(around, run);
        let asked = setting.push(out, condition);
        let opened = asked.emit(seq![lower::IF, lower::EMPTY]);
        let then = setting.region(opened, within, then_region, 0);
        let turned = then.emit(seq![lower::ELSE]);
        let closed = setting.region(turned, within, else_region, 0);
        assert(setting.op_is_laid(region, at));
        assert(program.op_is_single(region, at));
        flow::a_region_is_printed(setting, turned, within, else_region, 0);
        flow::a_region_is_printed(setting, opened, within, then_region, 0);
        vectors_chain(then.iovecs, closed.iovecs, vectors_of(program));
        let number = ir::machine::read(held, seq![condition])->Some_0[0];
        assert(held.dom().contains(seq![condition][0]));
        assert(number == held[condition]);
        let less = (fuel - 1) as nat;
        let taken = if number != 0 {
            then_region
        } else {
            else_region
        };
        let start = if number != 0 {
            opened
        } else {
            turned
        };
        let left = program.region_runs(host(program, module), taken, held, less)->Some_0;
        every_op_has_results(program, taken);
        ir::order::a_region_runs_from_its_start(program, host(program, module), taken, held, less);
        assert(program.entered(taken).subset_of(given));
        assert(program.given(taken, 0).subset_of(program.entered(taken)));
        assert(program.given(taken, 0).subset_of(mine));
        assert(ir::order::among(results).subset_of(given));
        assert(around_fits(setting, mine, within));
        assert(region_stands(program, f, start, within, taken, 0));
        a_region_is_met(
            program,
            module,
            f,
            start,
            within,
            taken,
            0,
            held,
            left,
            state,
            less,
        );
        assert(taken != program.functions[0].body) by {
            assert(!program.is_body(taken));
        }
        assert(program.given(taken, 0).union(ir::order::among(results)).subset_of(given));
        a_choice_is_met(
            setting,
            module,
            mine,
            around,
            answers,
            program.given(taken, 0),
            given,
            out,
            condition,
            setting.region_code(opened, within, then_region, 0),
            setting.region_code(turned, within, else_region, 0),
            run,
            held,
            left,
            step,
            state,
            fuel,
        );
    }
}

#[verifier::spinoff_prover]
proof fn a_loop_follows(
    program: Parts,
    module: Module,
    f: FunctionId,
    out: Emitted,
    around: Around,
    region: RegionId,
    at: int,
    held: Held,
    step: Step,
    state: State,
    fuel: nat,
)
    requires
        program_stands(program, module),
        f.0 < program.functions.len(),
        region_stands(program, f, out, around, region, at),
        at < program.region_ops(region).len(),
        program.region_ops(region)[at] is Loop,
        stays(program, module, f, held, state),
        held.dom().disjoint(program.given(region, at)),
        program.op_runs(
            host(program, module),
            program.region_ops(region)[at],
            program.values(program.region_results(region)[at]),
            held,
            fuel,
        ) == Some(step),
        !setting_of(program, f).op_code(out, around, region, at).1.failed,
        setting_of(program, f).op_code(out, around, region, at).1.iovecs.is_prefix_of(
            vectors_of(program),
        ),
    ensures
        does(
            setting_of(program, f),
            program.function_given(f),
            around,
            program.function(f).answers.len as nat,
            program.op_given(region, at),
            held,
            step,
            state,
            module.all_run(
                setting_of(program, f).op_code(out, around, region, at).0,
                state,
                fuel,
            ),
        ),
    decreases fuel, 0nat, 0int,
{
    let setting = setting_of(program, f);
    let mine = program.function_given(f);
    let answers = program.function(f).answers.len as nat;
    let run = program.region_results(region)[at];
    let results = program.values(run);
    let given = program.op_given(region, at);
    a_setting_is_its_programs(program, f);
    assert(function_stands(program, module, f));
    assert(given.subset_of(program.given(region, at)));
    if let Op::Loop { initial, body } = program.region_ops(region)[at] {
        let params = program.region(body).params;
        let places = program.values(params);
        let within = Setting::inside_loop(around, params, run);
        let entered = setting.transfer(out, program.values(initial), places);
        let opened = entered.emit(
            seq![lower::BLOCK, lower::EMPTY, lower::LOOP, lower::EMPTY],
        );
        assert(setting.op_is_laid(region, at));
        assert(program.op_is_single(region, at));
        ir::order::an_op_is_in_order(program, region, at);
        assert(program.inside_is_single(body));
        flow::a_region_is_printed(setting, opened, within, body, 0);
        let numbers = ir::machine::read(held, program.values(initial))->Some_0;
        let less = (fuel - 1) as nat;
        let left = program.loop_runs(host(program, module), body, held, numbers, less)->Some_0;
        let inner = program.entered(body);
        assert(inner.subset_of(given));
        assert(ir::order::among(places).subset_of(inner));
        assert(ir::order::among(places).subset_of(mine));
        assert(ir::order::among(results).subset_of(given));
        assert(program.given(body, 0).subset_of(inner));
        assert(around_fits(setting, mine, within));
        assert(region_stands(program, f, opened, within, body, 0));
        let mid = a_transfer_hands_over(
            setting,
            mine,
            out,
            program.values(initial),
            places,
            held,
            numbers,
            state,
        );
        agreement_stays(
            setting,
            mine,
            held,
            state.locals,
            mid.locals,
            ir::order::among(places),
        );
        a_loop_is_met(
            program,
            module,
            f,
            opened,
            around,
            body,
            run,
            held,
            numbers,
            left,
            mid,
            less,
        );
        assert(inner.union(ir::order::among(results)).subset_of(given));
        a_whole_loop_is_met(
            setting,
            module,
            mine,
            around,
            answers,
            inner,
            given,
            out,
            program.values(initial),
            places,
            run,
            setting.region_code(opened, within, body, 0),
            held,
            left,
            step,
            state,
            mid,
            fuel,
        );
    }
}

/// Going round does what the program says it does.
#[verifier::spinoff_prover]
proof fn a_loop_is_met(
    program: Parts,
    module: Module,
    f: FunctionId,
    opened: Emitted,
    around: Around,
    body: RegionId,
    run: Range,
    held: Held,
    numbers: Seq<nat>,
    left: Left,
    state: State,
    fuel: nat,
)
    requires
        program_stands(program, module),
        f.0 < program.functions.len(),
        around.depth < u32::MAX - 1,
        region_stands(
            program,
            f,
            opened,
            Setting::inside_loop(around, program.region(body).params, run),
            body,
            0,
        ),
        !program.is_body(body),
        program.inside_is_single(body),
        program.region(body).terminator.exit != Exit::Yield,
        program.entered(body).subset_of(program.function_given(f)),
        stays(program, module, f, held, state),
        held.dom().disjoint(program.entered(body)),
        all_right(
            setting_of(program, f),
            program.values(program.region(body).params),
            numbers,
            state.locals,
        ),
        program.loop_runs(host(program, module), body, held, numbers, fuel) == Some(left),
    ensures
        round_meets(
            setting_of(program, f),
            program.function_given(f),
            around,
            program.function(f).answers.len as nat,
            program.entered(body),
            run,
            left,
            state,
            module.goes_round(
                setting_of(program, f).region_code(
                    opened,
                    Setting::inside_loop(around, program.region(body).params, run),
                    body,
                    0,
                ),
                state,
                fuel,
            ),
        ),
    decreases fuel, 3nat, 0int,
{
    let setting = setting_of(program, f);
    let mine = program.function_given(f);
    let answers = program.function(f).answers.len as nat;
    let params = program.region(body).params;
    let places = program.values(params);
    let within = Setting::inside_loop(around, params, run);
    let code = setting.region_code(opened, within, body, 0);
    let inner = program.given(body, 0);
    let touched = program.entered(body);
    a_setting_is_its_programs(program, f);
    assert(inner.subset_of(touched));
    assert(ir::order::among(places).subset_of(touched));
    assert(inner.union(ir::order::among(places)).subset_of(touched));
    let here = ir::machine::defined(held, places, numbers);
    what_is_defined_agrees(setting, held, places, numbers, state.locals);
    assert(here.dom().subset_of(mine) && here.dom().disjoint(inner)) by {
        assert forall|v: ValueId| here.dom().contains(v) implies mine.contains(v)
            && !inner.contains(v) by {
            if places.contains(v) {
                assert(ir::order::among(places).contains(v));
            }
        }
    }
    every_op_has_results(program, body);
    ir::order::a_region_runs_from_its_start(program, host(program, module), body, here, fuel);
    let one = program.region_runs(host(program, module), body, here, fuel)->Some_0;
    a_region_is_met(program, module, f, opened, within, body, 0, here, one, state, fuel);
    assert(body != program.functions[0].body);
    match one {
        Left::Continues(more) => {
            let mid = module.all_run(code, state, fuel)->Some_0->Jumps_1;
            let less = (fuel - 1) as nat;
            assert(program.loop_runs(host(program, module), body, held, more, less) == Some(left));
            assert(more.len() == places.len());
            agreement_stays(
                setting,
                mine,
                held,
                state.locals,
                mid.locals,
                inner.union(ir::order::among(places)),
            );
            a_loop_is_met(
                program,
                module,
                f,
                opened,
                around,
                body,
                run,
                held,
                more,
                left,
                mid,
                less,
            );
            round_again(
                setting,
                module,
                mine,
                around,
                answers,
                inner,
                touched,
                params,
                run,
                code,
                more,
                left,
                state,
                mid,
                fuel,
            );
        },
        _ => {
            once_round(
                setting,
                module,
                mine,
                around,
                answers,
                inner,
                touched,
                params,
                run,
                code,
                left,
                state,
                fuel,
            );
        },
    }
}

/// A region ends as the program says it does.
#[verifier::spinoff_prover]
proof fn a_region_is_met(
    program: Parts,
    module: Module,
    f: FunctionId,
    out: Emitted,
    around: Around,
    region: RegionId,
    from: int,
    held: Held,
    left: Left,
    state: State,
    fuel: nat,
)
    requires
        program_stands(program, module),
        f.0 < program.functions.len(),
        region_stands(program, f, out, around, region, from),
        stays(program, module, f, held, state),
        held.dom().disjoint(program.given(region, from)),
        program.rest_runs(host(program, module), region, from, held, fuel) == Some(left),
    ensures
        left is Yields ==> program.region(region).terminator.exit == Exit::Yield,
        ends(
            setting_of(program, f),
            program.function_given(f),
            around,
            program.function(f).answers.len as nat,
            program.given(region, from),
            region,
            left,
            state,
            module.all_run(
                setting_of(program, f).region_code(out, around, region, from),
                state,
                fuel,
            ),
        ),
    decreases fuel, 2nat, program.region_ops(region).len() - from,
{
    let setting = setting_of(program, f);
    let mine = program.function_given(f);
    let answers = program.function(f).answers.len as nat;
    let ops = program.region_ops(region);
    a_setting_is_its_programs(program, f);
    assert(setting_of(program, f).imports() == module.imports);
    assert(function_stands(program, module, f));
    an_answer_is_as_long(program, f);
    if from >= ops.len() {
        an_end_is_met(
            setting,
            module,
            mine,
            out,
            around,
            answers,
            region,
            held,
            left,
            state,
            fuel,
        );
        assert(program.given(region, from) =~= Set::empty());
    } else {
        let (code, next) = setting.op_code(out, around, region, from);
        let rest = setting.region_code(next, around, region, from + 1);
        let one = program.op_given(region, from);
        let other = program.given(region, from + 1);
        let both = program.given(region, from);
        let step = program.op_runs(
            host(program, module),
            ops[from],
            program.values(program.region_results(region)[from]),
            held,
            fuel,
        )->Some_0;
        an_op_is_met(program, module, f, out, around, region, from, held, step, state, fuel);
        running_joins(module, code, rest, state, fuel);
        assert(one.subset_of(both) && other.subset_of(both));
        match step {
            Step::Goes(then) => {
                let mid = module.all_run(code, state, fuel)->Some_0->On_0;
                assert(setting.region(out, around, region, from) == setting.region(
                    next,
                    around,
                    region,
                    from + 1,
                ));
                assert(region_stands(program, f, next, around, region, from + 1));
                assert(then.dom().subset_of(mine) && then.dom().disjoint(other)) by {
                    assert forall|v: ValueId| then.dom().contains(v) implies mine.contains(v)
                        && !other.contains(v) by {
                        assert(held.dom().union(one).contains(v));
                    }
                }
                a_region_is_met(
                    program,
                    module,
                    f,
                    next,
                    around,
                    region,
                    from + 1,
                    then,
                    left,
                    mid,
                    fuel,
                );
                ending_chains(
                    setting,
                    mine,
                    around,
                    answers,
                    one,
                    other,
                    both,
                    region,
                    left,
                    state,
                    mid,
                    module.all_run(rest, mid, fuel),
                );
            },
            Step::Leaves(_) => {
                let went = module.all_run(code, state, fuel);
                ending_chains(
                    setting,
                    mine,
                    around,
                    answers,
                    Set::empty(),
                    one,
                    both,
                    region,
                    left,
                    state,
                    state,
                    went,
                );
            },
        }
    }
}

/// A function comes to what the program says it does.
#[verifier::spinoff_prover]
proof fn a_function_is_met(
    program: Parts,
    module: Module,
    f: FunctionId,
    numbers: Seq<nat>,
    left: Left,
    fuel: nat,
)
    requires
        program_stands(program, module),
        f.0 < program.functions.len(),
        forall|i: int| 0 <= i < numbers.len() ==> #[trigger] numbers[i] < machine::size(),
        program.function_runs(host(program, module), f, numbers, fuel) == Some(left),
    ensures
        call_meets(program, module, f, numbers, left, fuel),
        module.routines[f.0 as int].params == numbers.len(),
    decreases fuel, 3nat, 0int,
{
    let setting = setting_of(program, f);
    let mine = program.function_given(f);
    let params = program.values(program.function(f).params);
    let body = program.function(f).body;
    let routine = module.routines[f.0 as int];
    let out = writing(program, f.0 as int);
    a_setting_is_its_programs(program, f);
    an_answer_is_as_long(program, f);
    assert(function_stands(program, module, f));
    assert(program.function_is_single(f));
    assert(program.region_agrees(
        program.functions[f.0 as int].body,
        program.functions[f.0 as int].answers.read(program.signature),
        0,
    ));
    let start = State {
        stack: seq![],
        locals: numbers + Seq::new(routine.locals, |i: int| 0nat),
    };
    let held = ir::machine::defined(Map::empty(), params, numbers);
    assert(all_right(setting, params, numbers, start.locals)) by {
        assert forall|i: int| 0 <= i < params.len() implies #[trigger] is_right(
            setting,
            params[i],
            numbers[i],
            start.locals,
        ) by {
            assert(setting.local(params[i]) == Some(i as u32));
        }
    }
    what_is_defined_agrees(setting, Map::empty(), params, numbers, start.locals);
    assert(held.dom().subset_of(mine) && held.dom().disjoint(program.given(body, 0))) by {
        assert forall|v: ValueId| held.dom().contains(v) implies mine.contains(v)
            && !program.given(body, 0).contains(v) by {
            assert(ir::order::among(params).contains(v));
        }
    }
    every_op_has_results(program, body);
    ir::order::a_region_runs_from_its_start(program, host(program, module), body, held, fuel);
    assert(region_stands(program, f, out, nowhere(), body, 0));
    a_region_is_met(
        program,
        module,
        f,
        out,
        nowhere(),
        body,
        0,
        held,
        left,
        start,
        fuel,
    );
}

/// Whether a module is what a layout is the bytes of.
pub open spec fn reads_as(layout: Layout, module: Module) -> bool {
    &&& module.imports == layout.imports
    &&& module.data == layout.data
    &&& module.routines.len() == layout.bodies.len()
    &&& forall|f: int|
        0 <= f < layout.bodies.len() ==> {
            let body = #[trigger] layout.bodies[f];
            &&& module.routines[f].params == body.params
            &&& module.routines[f].locals == body.locals
            &&& module.routines[f].answers == body.answers
            &&& body.code == flow::printed_all(module.routines[f].code)
        }
}

/// Whether a module is what an engine finds in a file, with the first routine
/// to start at.
pub open spec fn is_found(file: Seq<u8>, module: Module) -> bool {
    &&& reader::read(file) matches Some(contents)
    &&& contents.imports.len() == module.imports.len()
    &&& forall|i: int|
        0 <= i < module.imports.len() ==> {
            let (place, name, shape) = contents.imports[i];
            &&& place == reader::said("wasi_snapshot_preview1"@)
            &&& name == reader::said((#[trigger] module.imports[i]).text())
            &&& Some(contents.types[shape as int]) == reader::system(name)
        }
    &&& contents.functions.len() == module.routines.len()
    &&& contents.code.len() == module.routines.len()
    &&& forall|f: int|
        0 <= f < module.routines.len() ==> {
            let routine = #[trigger] module.routines[f];
            &&& contents.types[contents.functions[f] as int] == (routine.params, routine.answers)
            &&& contents.code[f] == (routine.locals, flow::printed_all(routine.code))
        }
    &&& contents.data.len() == module.data.len()
    &&& forall|i: int|
        0 <= i < module.data.len() ==> contents.data[i] == (
            (#[trigger] module.data[i]).offset as nat,
            module.data[i].bytes,
        )
    &&& contents.exports.contains((reader::said("_start"@), 0u8, module.imports.len()))
    &&& module.imports.len() > 0 || module.data.len() > 0 ==> {
        &&& contents.memories.len() == 1
        &&& contents.exports.contains((reader::said("memory"@), 2u8, 0nat))
        &&& forall|i: int|
            0 <= i < module.data.len() ==> (#[trigger] module.data[i]).offset
                + module.data[i].bytes.len() <= 0x1_0000 * contents.memories[0]
    }
}

proof fn a_module_is_found(program: Parts, layout: Layout, module: Module)
    requires
        lower::lowered(program) == Some(layout),
        reads_as(layout, module),
    ensures
        is_found(layout.module(), module),
{
    let contents = reader::what_is_written_is_read(layout);
    assert forall|f: int| 0 <= f < module.routines.len() implies {
        let routine = #[trigger] module.routines[f];
        &&& contents.types[contents.functions[f] as int] == (routine.params, routine.answers)
        &&& contents.code[f] == (routine.locals, flow::printed_all(routine.code))
    } by {
        let body = layout.bodies[f];
    }
    assert forall|i: int| 0 <= i < module.imports.len() implies {
        let (place, name, shape) = contents.imports[i];
        &&& place == reader::said("wasi_snapshot_preview1"@)
        &&& name == reader::said((#[trigger] module.imports[i]).text())
        &&& Some(contents.types[shape as int]) == reader::system(name)
    } by {
        let import = layout.imports[i];
    }
}

/// The module a program is written as.
pub open spec fn module_of(
    program: Parts,
    layout: Layout,
    watch: spec_fn(nat, nat) -> bool,
) -> Module {
    Module {
        imports: layout.imports,
        data: layout.data,
        watch,
        routines: Seq::new(
            layout.bodies.len(),
            |f: int|
                Routine {
                    params: layout.bodies[f].params as nat,
                    locals: layout.bodies[f].locals as nat,
                    answers: layout.bodies[f].answers as nat,
                    code: setting_of(program, FunctionId(f as u32)).region_code(
                        writing(program, f),
                        nowhere(),
                        program.functions[f].body,
                        0,
                    ),
                },
        ),
    }
}

/// What is written of a function, and that nothing was amiss.
proof fn functions_are_written(program: Parts, count: int)
    requires
        0 <= count <= program.functions.len() <= u32::MAX,
        !lower::functions(program, count).1.failed,
    ensures
        lower::functions(program, count).0.len() == count,
        forall|f: int|
            0 <= f < count ==> is_written(
                program,
                f,
                #[trigger] lower::functions(program, count).0[f],
            ),
    decreases count,
{
    if count > 0 {
        let f = count - 1;
        let setting = setting_of(program, FunctionId(f as u32));
        let body = program.functions[f].body;
        reveal(setting_of);
        flow::a_region_is_printed(setting, writing(program, f), nowhere(), body, 0);
        let end = setting.region(writing(program, f), nowhere(), body, 0);
        assert(lower::functions(program, count).1 == end);
        functions_are_written(program, f);
        assert(machine::added(writing(program, f), end) =~= end.body);
        let all = lower::functions(program, count).0;
        assert forall|g: int| 0 <= g < count implies is_written(program, g, #[trigger] all[g]) by {
            if g < f {
                assert(all[g] == lower::functions(program, f).0[g]);
            }
        }
    }
}

/// Whether a body is what its function was written as.
spec fn is_written(program: Parts, f: int, body: super::Written) -> bool {
    let setting = setting_of(program, FunctionId(f as u32));
    let function = program.functions[f];
    let locals = Places::functions(program, f + 1).locals;
    let end = setting.region(writing(program, f), nowhere(), function.body, 0);
    &&& !end.failed
    &&& body.params == function.params.len
    &&& body.locals == if locals > function.params.len {
        (locals - function.params.len) as u32
    } else {
        0
    }
    &&& body.answers == if f == 0 {
        0
    } else {
        function.answers.len
    }
    &&& body.code == flow::printed_all(
        setting.region_code(writing(program, f), nowhere(), function.body, 0),
    )
}

/// A program that is in order is written as it was to be.
proof fn a_program_stands(program: Parts, layout: Layout, watch: spec_fn(nat, nat) -> bool)
    requires
        program.wf(),
        program.agrees(),
        program.orderly(),
        program.is_uncalled(FunctionId(0)),
        lower::lowered(program) == Some(layout),
        layout.fits(),
    ensures
        program_stands(program, module_of(program, layout, watch)),
        reads_as(layout, module_of(program, layout, watch)),
{
    let module = module_of(program, layout, watch);
    let count = program.functions.len() as int;
    let entry = setting_of(program, FunctionId(0));
    reveal(setting_of);
    assert(entry == lower::setting(program, true));
    let out = lower::functions(program, count).1;
    assert(layout.bodies == lower::functions(program, count).0);
    assert(!out.failed);
    bodies_are_as_many(program, count);
    assert(program.functions.len() <= u32::MAX);
    functions_are_written(program, count);
    assert forall|f: FunctionId| f.0 < program.functions.len() implies #[trigger] function_stands(
        program,
        module,
        f,
    ) by {
        a_setting_is_its_programs(program, f);
        super::placing::a_function_is_placed(program, f);
        an_answer_is_as_long(program, f);
        assert(is_written(program, f.0 as int, layout.bodies[f.0 as int]));
        assert(FunctionId(f.0 as int as u32) == f);
        let routine = module.routines[f.0 as int];
        assert(routine.params + routine.locals == Places::functions(program, f.0 + 1).locals);
        vectors_stay(program, f.0 + 1, count);
    }
    assert(vectors_stand(program, module)) by {
        assert forall|i: int|
            0 <= i < vectors_of(program).len() && i < entry.places.writes implies ((
        #[trigger] vectors_of(program)[i]) matches Some((base, length)) ==> module.vector(
            lower::IOVECS + lower::IOVEC_LEN * i,
        ) == (base as nat, length as nat)) by {
            super::memory::a_vector_is_shipped(
                program,
                vectors_of(program),
                entry.data_start(),
                i,
            );
        }
    }
    assert forall|f: FunctionId| f.0 < program.functions.len() implies module.imports
        == #[trigger] setting_of(program, f).imports() by {
        a_setting_is_its_programs(program, f);
    }
    assert forall|f: int| 0 <= f < layout.bodies.len() implies ({
        let body = #[trigger] layout.bodies[f];
        &&& module.routines[f].params == body.params
        &&& module.routines[f].locals == body.locals
        &&& module.routines[f].answers == body.answers
        &&& body.code == flow::printed_all(module.routines[f].code)
    }) by {
        assert(is_written(program, f, layout.bodies[f]));
    }
}

/// What is known of the vectors stays, whatever is written next.
proof fn vectors_stay(program: Parts, count: int, later: int)
    requires
        0 <= count <= later <= program.functions.len() <= u32::MAX,
    ensures
        lower::functions(program, count).1.iovecs.is_prefix_of(
            lower::functions(program, later).1.iovecs,
        ),
    decreases later - count,
{
    if count < later {
        let f = later - 1;
        let setting = setting_of(program, FunctionId(f as u32));
        vectors_stay(program, count, f);
        reveal(setting_of);
        flow::a_region_is_printed(
            setting,
            writing(program, f),
            nowhere(),
            program.functions[f].body,
            0,
        );
        let first = lower::functions(program, count).1.iovecs;
        let second = lower::functions(program, f).1.iovecs;
        assert(second.is_prefix_of(lower::functions(program, later).1.iovecs));
        assert forall|i: int| 0 <= i < first.len() implies first[i] == lower::functions(
            program,
            later,
        ).1.iovecs[i] by {
            assert(first[i] == second[i]);
        }
    }
}

proof fn bodies_are_as_many(program: Parts, count: int)
    requires
        0 <= count,
    ensures
        lower::functions(program, count).0.len() == count,
    decreases count,
{
    if count > 0 {
        bodies_are_as_many(program, count - 1);
    }
}

/// Whether a module, started, leaves with what the program does: the number
/// the entry answers, or the one it asks to stop with, or what it asks to
/// write.
pub open spec fn leaves_alike(program: Parts, module: Module, left: Left, fuel: nat) -> bool {
    match left {
        Left::Answers(numbers) => numbers.len() == 1 && module.started(0, fuel) == Some(
            numbers[0],
        ),
        Left::Asks(platform, numbers) => {
            &&& program.name(program.routine(platform).name) == "exit"@ ==> numbers.len() > 0
                && module.started(0, fuel) == Some(numbers[0])
            &&& program.is_write(platform) ==> numbers.len() > 1 && module.called(
                0,
                seq![],
                fuel,
            ) == Some(Called::Tells(numbers[0], numbers[1]))
        },
        _ => true,
    }
}

/// What is written does what the program does. Whatever a program that is in
/// order, and never calls its own entry, comes to on a machine of this width,
/// with its data where the module has them, the module an engine finds in the
/// file it is written as, started, leaves with: the number the entry answers, or the one it asks to
/// stop with. Whichever writes a run is followed up to, the first of them that
/// the program makes is the first that the module makes, with the same address
/// and length, and past the others both go on.
pub proof fn what_is_written_does_the_same(
    program: Parts,
    layout: Layout,
    watch: spec_fn(nat, nat) -> bool,
) -> (module: Module)
    requires
        program.wf(),
        program.agrees(),
        program.orderly(),
        program.is_uncalled(FunctionId(0)),
        lower::lowered(program) == Some(layout),
        layout.fits(),
    ensures
        reads_as(layout, module),
        is_found(layout.module(), module),
        module.watch == watch,
        forall|fuel: nat|
            (#[trigger] program.function_runs(
                host(program, module),
                FunctionId(0),
                seq![],
                fuel,
            )) matches Some(left) ==> leaves_alike(program, module, left, fuel),
{
    let module = module_of(program, layout, watch);
    a_program_stands(program, layout, watch);
    a_module_is_found(program, layout, module);
    assert forall|fuel: nat|
        (#[trigger] program.function_runs(
            host(program, module),
            FunctionId(0),
            seq![],
            fuel,
        )) is Some implies leaves_alike(
        program,
        module,
        program.function_runs(host(program, module), FunctionId(0), seq![], fuel)->Some_0,
        fuel,
    ) by {
        let left = program.function_runs(
            host(program, module),
            FunctionId(0),
            seq![],
            fuel,
        )->Some_0;
        a_function_is_met(program, module, FunctionId(0), seq![], left, fuel);
        a_setting_is_its_programs(program, FunctionId(0));
    }
    module
}

/// Whether a module leaves with what a program comes to, wherever a word here
/// is wide enough for it.
pub open spec fn is_left_with(
    parts: Parts,
    module: Module,
    left: Left,
    wide: nat,
    long: nat,
) -> bool {
    &&& ir::faithful::comes_to(parts, wide, long, left)
    &&& wide <= machine::size() ==> leaves_alike(parts, module, left, long)
}

/// What a program means is what its module leaves with. A program that is
/// typed, and that never calls its own entry, is lowered and written as a
/// module which, started, leaves with what the program comes to, wherever a
/// word is wide enough for it.
pub proof fn what_a_program_means_is_left_with(
    store: barb::Store,
    parts: Parts,
    layout: Layout,
    args: Seq<barb::constant::Tree>,
    steps: nat,
) -> (module: Module)
    requires
        store.wf(),
        store.typed(),
        ir::faithful::can_start(store),
        ir::lower::lowered(store, store.facts()) == Ok::<_, Seq<char>>(parts),
        parts.wf(),
        parts.is_uncalled(FunctionId(0)),
        lower::lowered(parts) == Some(layout),
        layout.fits(),
        barb::meaning::are_of(store, args, store.params(store.entry->Some_0)),
        store.meaning(store.function(store.entry->Some_0).body, args, steps) is Some,
    ensures
        reads_as(layout, module),
        is_found(layout.module(), module),
        exists|wide: nat, long: nat| #[trigger]
            is_left_with(
                parts,
                module,
                ir::faithful::leaves_with(
                    store,
                    store.meaning(
                        store.function(store.entry->Some_0).body,
                        args,
                        steps,
                    )->Some_0,
                ),
                wide,
                long,
            ),
{
    let outcome = store.meaning(
        store.function(store.entry->Some_0).body,
        args,
        steps,
    )->Some_0;
    let left = ir::faithful::leaves_with(store, outcome);
    ir::fresh::what_is_lowered_is_in_order(store, parts);
    ir::faithful::a_typed_program_is_lowered_faithfully(store, parts);
    ir::validate::a_program_agrees_when_nothing_is_wrong(parts);
    let module = what_is_written_does_the_same(parts, layout, |base: nat, length: nat| true);
    assert(ir::faithful::does_the_same(store, parts, outcome));
    let (wide, long) = choose|wide: nat, long: nat| #[trigger]
        ir::faithful::comes_to(parts, wide, long, left);
    if wide <= machine::size() {
        assert(parts.function_runs(host(parts, module), FunctionId(0), seq![], long) == Some(left));
    }
    assert(is_left_with(parts, module, left, wide, long));
    module
}

} // verus!
