//! Values have places of their own.
//!
//! A plan gives out slots, first to what a region defines itself and then to
//! what the regions inside it do, so where no value is defined twice, no two
//! of a function overlap.

use super::faithful;
use super::lower::{Machine, Source, Work};
use crate::ir;
use crate::ir::{Op, Parts, RegionId, ValueId};
use vstd::prelude::*;

verus! {

/// Whether one plan goes on from another, placing some values and no others,
/// each that takes a slot one of its own.
pub open spec fn goes_on(before: Work, after: Work, given: Set<ValueId>) -> bool {
    after.code.failed || {
        &&& after.code == before.code
        &&& after.source.len() == before.source.len()
        &&& before.frame <= after.frame
        &&& forall|v: ValueId|
            #![trigger after.source[v.0 as int]]
            #![trigger given.contains(v)]
            v.0 < before.source.len() && !given.contains(v) ==> after.source[v.0 as int]
                == before.source[v.0 as int]
        &&& forall|v: ValueId|
            #[trigger] given.contains(v) ==> v.0 < after.source.len() && (
            after.source[v.0 as int] matches Source::Slot(offset) ==> before.frame <= offset
                && offset + 2 <= after.frame)
        &&& forall|v: ValueId, w: ValueId|
            #[trigger] given.contains(v) && #[trigger] given.contains(w) && v != w
                ==> faithful::lie_apart(after.source, v, w)
    }
}

proof fn going_on_chains(
    first: Work,
    second: Work,
    third: Work,
    one: Set<ValueId>,
    other: Set<ValueId>,
    both: Set<ValueId>,
)
    requires
        goes_on(first, second, one),
        goes_on(second, third, other),
        second.code.failed ==> third.code.failed,
        one.disjoint(other),
        both == one.union(other),
    ensures
        goes_on(first, third, both),
{
    if !third.code.failed {
        assert forall|v: ValueId|
            #![trigger third.source[v.0 as int]]
            #![trigger both.contains(v)]
            v.0 < first.source.len() && !both.contains(v) implies third.source[v.0 as int]
            == first.source[v.0 as int] by {
            assert(!one.contains(v) && !other.contains(v));
        }
        assert forall|v: ValueId| #[trigger] both.contains(v) implies v.0 < third.source.len() && (
        third.source[v.0 as int] matches Source::Slot(offset) ==> first.frame <= offset && offset
            + 2 <= third.frame) by {
            if one.contains(v) {
                assert(!other.contains(v));
            }
        }
        assert forall|v: ValueId, w: ValueId|
            #[trigger] both.contains(v) && #[trigger] both.contains(w) && v != w implies
            faithful::lie_apart(third.source, v, w) by {
            if one.contains(v) {
                assert(!other.contains(v));
            }
            if one.contains(w) {
                assert(!other.contains(w));
            }
            if one.contains(v) && one.contains(w) {
                assert(faithful::lie_apart(second.source, v, w));
            }
        }
    }
}

proof fn a_slot_goes_on(work: Work, value: ValueId)
    requires
        value.0 < work.source.len(),
    ensures
        goes_on(work, work.give_slot(value), set![value]),
        work.code.failed ==> work.give_slot(value).code.failed,
{
    let after = work.give_slot(value);
    let given = set![value];
    if !after.code.failed {
        assert forall|v: ValueId|
            #![trigger after.source[v.0 as int]]
            #![trigger given.contains(v)]
            v.0 < work.source.len() && !given.contains(v) implies after.source[v.0 as int]
            == work.source[v.0 as int] by {
            assert(v.0 != value.0);
        }
    }
}

proof fn failing_gives(work: Work, values: Seq<ValueId>, from: int)
    ensures
        work.code.failed ==> work.give_slots(values, from).code.failed,
    decreases values.len() - from,
{
    if 0 <= from < values.len() {
        failing_gives(work.give_slot(values[from]), values, from + 1);
    }
}

proof fn slots_go_on(work: Work, values: Seq<ValueId>, from: int)
    requires
        0 <= from <= values.len(),
        values.no_duplicates(),
        forall|i: int| 0 <= i < values.len() ==> (#[trigger] values[i]).0 < work.source.len(),
    ensures
        goes_on(work, work.give_slots(values, from), ir::order::among(values.skip(from))),
    decreases values.len() - from,
{
    let end = work.give_slots(values, from);
    if from == values.len() {
        assert(ir::order::among(values.skip(from)) =~= Set::empty());
    } else {
        let value = values[from];
        let next = work.give_slot(value);
        a_slot_goes_on(work, value);
        failing_gives(next, values, from + 1);
        let rest = ir::order::among(values.skip(from + 1));
        let all = ir::order::among(values.skip(from));
        assert(!rest.contains(value)) by {
            if values.skip(from + 1).contains(value) {
                let i = values.skip(from + 1).index_of(value);
                assert(values[from + 1 + i] == value);
            }
        }
        assert(all =~= set![value].union(rest)) by {
            assert forall|v: ValueId| all.contains(v) <==> set![value].union(rest).contains(
                v,
            ) by {
                if all.contains(v) {
                    let i = values.skip(from).index_of(v);
                    if i > 0 {
                        assert(values.skip(from + 1)[i - 1] == v);
                    }
                }
                if rest.contains(v) {
                    let i = values.skip(from + 1).index_of(v);
                    assert(values.skip(from)[i + 1] == v);
                }
                assert(values.skip(from)[0] == value);
            }
        }
        if !end.code.failed {
            slots_go_on(next, values, from + 1);
            going_on_chains(work, next, end, set![value], rest, all);
        }
    }
}

proof fn failing_places(work: Work, op: Op, results: Seq<ValueId>)
    ensures
        work.code.failed ==> work.place(op, results).code.failed,
{
    failing_gives(work, results, 0);
}

/// What an instruction defines is placed.
proof fn placing_goes_on(work: Work, op: Op, results: Seq<ValueId>)
    requires
        results.no_duplicates(),
        op is Constant || op is AddressOf ==> results.len() == 1,
        forall|i: int| 0 <= i < results.len() ==> (#[trigger] results[i]).0 < work.source.len(),
    ensures
        goes_on(work, work.place(op, results), ir::order::among(results)),
        op matches Op::Constant { value, .. } ==> work.place(
            op,
            results,
        ).source[results[0].0 as int] == Source::Const(value),
        op matches Op::AddressOf(data) ==> work.place(op, results).source[results[0].0 as int]
            == Source::Addr(data),
{
    let after = work.place(op, results);
    let given = ir::order::among(results);
    slots_go_on(work, results, 0);
    assert(results.skip(0) =~= results);
    if op is Constant || op is AddressOf {
        assert(results[0].0 < work.source.len());
        assert(given =~= set![results[0]]) by {
            assert forall|v: ValueId| given.contains(v) <==> v == results[0] by {
                if given.contains(v) {
                    let i = results.index_of(v);
                }
                assert(results.contains(results[0]));
            }
        }
        assert forall|v: ValueId|
            #![trigger after.source[v.0 as int]]
            #![trigger given.contains(v)]
            v.0 < work.source.len() && !given.contains(v) implies after.source[v.0 as int]
            == work.source[v.0 as int] by {
            assert(v.0 != results[0].0);
        }
    }
}

/// The values a region's own instructions define from `from` on.
spec fn own(program: Parts, region: RegionId, from: int) -> Set<ValueId>
    decreases program.region_ops(region).len() - from,
{
    if from < 0 || from >= program.region_ops(region).len() {
        Set::empty()
    } else {
        ir::order::among(program.values(program.region_results(region)[from])).union(
            own(program, region, from + 1),
        )
    }
}

/// Those the regions inside one of them do.
spec fn held(program: Parts, region: RegionId, at: int) -> Set<ValueId> {
    match program.region_ops(region)[at] {
        Op::If { then_region, else_region, .. } => program.entered(then_region).union(
            program.entered(else_region),
        ),
        Op::Loop { body, .. } => program.entered(body),
        _ => Set::empty(),
    }
}

/// Those the regions inside them do.
spec fn nested(program: Parts, region: RegionId, from: int) -> Set<ValueId>
    decreases program.region_ops(region).len() - from,
{
    if from < 0 || from >= program.region_ops(region).len() {
        Set::empty()
    } else {
        held(program, region, from).union(nested(program, region, from + 1))
    }
}

/// What a region defines is what its own instructions do and what the regions
/// inside them do, and those are apart.
proof fn what_is_given(program: Parts, region: RegionId, from: int)
    requires
        0 <= from,
        program.is_single(region, from),
    ensures
        program.given(region, from) =~= own(program, region, from).union(
            nested(program, region, from),
        ),
        own(program, region, from).disjoint(nested(program, region, from)),
        from < program.region_ops(region).len() ==> {
            &&& ir::order::among(program.values(program.region_results(region)[from])).disjoint(
                own(program, region, from + 1),
            )
            &&& held(program, region, from).disjoint(nested(program, region, from + 1))
        },
    decreases program.region_ops(region).len() - from,
{
    if from < program.region_ops(region).len() {
        what_is_given(program, region, from + 1);
        assert(program.op_is_single(region, from));
        let results = ir::order::among(program.values(program.region_results(region)[from]));
        let inside = held(program, region, from);
        let one = program.op_given(region, from);
        let rest = program.given(region, from + 1);
        assert(one =~= results.union(inside));
        assert(results.disjoint(inside));
        assert(one.disjoint(rest));
        assert forall|v: ValueId| results.contains(v) || inside.contains(v) implies
            !#[trigger] own(program, region, from + 1).contains(v) && !nested(
            program,
            region,
            from + 1,
        ).contains(v) by {
            assert(one.contains(v));
            assert(!rest.contains(v));
        }
    }
}

proof fn failing_plans_results(machine: Machine, work: Work, region: RegionId, from: int)
    ensures
        work.code.failed ==> machine.plan_results(work, region, from).code.failed,
    decreases machine.program.region_ops(region).len() - from,
{
    let ops = machine.program.region_ops(region);
    if 0 <= from < ops.len() {
        let results = machine.program.values(machine.program.region_results(region)[from]);
        failing_places(work, ops[from], results);
        failing_plans_results(machine, work.place(ops[from], results), region, from + 1);
    }
}

/// What is planned inside one instruction.
spec fn planned_inside(machine: Machine, work: Work, region: RegionId, at: int) -> Work {
    match machine.program.region_ops(region)[at] {
        Op::If { then_region, else_region, .. } => machine.plan(
            machine.plan(work, then_region),
            else_region,
        ),
        Op::Loop { body, .. } => machine.plan(work, body),
        _ => work,
    }
}

proof fn failing_plans_nested(machine: Machine, work: Work, region: RegionId, from: int)
    ensures
        work.code.failed ==> machine.plan_nested(work, region, from).code.failed,
    decreases
            machine.program.rank(region),
            0int,
            machine.program.region_ops(region).len() - from,
{
    let ops = machine.program.region_ops(region);
    if 0 <= from < ops.len() && work.code.failed {
        let next = match ops[from] {
            Op::If { then_region, else_region, .. } => if machine.program.nests(
                region,
                then_region,
            ) && machine.program.nests(region, else_region) {
                failing_plans(machine, work, then_region);
                failing_plans(machine, machine.plan(work, then_region), else_region);
                machine.plan(machine.plan(work, then_region), else_region)
            } else {
                work
            },
            Op::Loop { body, .. } => if machine.program.nests(region, body) {
                failing_plans(machine, work, body);
                machine.plan(work, body)
            } else {
                work
            },
            _ => work,
        };
        failing_plans_nested(machine, next, region, from + 1);
    }
}

pub(super) proof fn failing_plans(machine: Machine, work: Work, region: RegionId)
    ensures
        work.code.failed ==> machine.plan(work, region).code.failed,
    decreases machine.program.rank(region), 1int, 0int,
{
    let params = machine.program.values(machine.program.region(region).params);
    let one = work.give_slots(params, 0);
    failing_gives(work, params, 0);
    failing_plans_results(machine, one, region, 0);
    failing_plans_nested(machine, machine.plan_results(one, region, 0), region, 0);
}

/// What a region's own instructions define is placed, and stays where it is.
proof fn results_are_planned(machine: Machine, work: Work, region: RegionId, from: int)
    requires
        machine.program.wf(),
        region.0 < machine.program.regions.len(),
        0 <= from <= machine.program.region_ops(region).len(),
        work.source.len() == machine.program.classes.len(),
        machine.program.is_single(region, from),
    ensures
        goes_on(
            work,
            machine.plan_results(work, region, from),
            own(machine.program, region, from),
        ),
        !machine.plan_results(work, region, from).code.failed ==> consts_are_laid(
            machine.program,
            machine.plan_results(work, region, from).source,
            region,
            from,
        ),
    decreases machine.program.region_ops(region).len() - from,
{
    let program = machine.program;
    let ops = program.region_ops(region);
    let end = machine.plan_results(work, region, from);
    if from < ops.len() {
        let run = program.region_results(region)[from];
        let results = program.values(run);
        let next = work.place(ops[from], results);
        ir::model::inside(program, region, from);
        ir::model::known_values(program, run);
        assert forall|i: int| 0 <= i < results.len() implies (#[trigger] results[i]).0
            < work.source.len() by {
            assert(program.known(results[i]));
        }
        assert(program.op_is_single(region, from));
        what_is_given(program, region, from);
        placing_goes_on(work, ops[from], results);
        failing_plans_results(machine, next, region, from + 1);
        if !end.code.failed {
            results_are_planned(machine, next, region, from + 1);
            going_on_chains(
                work,
                next,
                end,
                ir::order::among(results),
                own(program, region, from + 1),
                own(program, region, from),
            );
            if ops[from] is Constant || ops[from] is AddressOf {
                assert(results.len() == 1);
                assert(ir::order::among(results).contains(results[0]));
                assert(!own(program, region, from + 1).contains(results[0]));
                assert(end.source[results[0].0 as int] == next.source[results[0].0 as int]);
            }
        }
    }
}

/// Whether constants and addresses of a region are where they are read from.
spec fn consts_are_laid(program: Parts, source: Seq<Source>, region: RegionId, from: int) -> bool
    decreases program.region_ops(region).len() - from,
{
    if from < 0 || from >= program.region_ops(region).len() {
        true
    } else {
        &&& program.region_ops(region)[from] matches Op::Constant { value, .. } ==> source[
            program.values(program.region_results(region)[from])[0].0 as int] == Source::Const(
            value,
        )
        &&& program.region_ops(region)[from] matches Op::AddressOf(data) ==> source[
            program.values(program.region_results(region)[from])[0].0 as int] == Source::Addr(data)
        &&& consts_are_laid(program, source, region, from + 1)
    }
}

/// What a region takes and defines is placed.
proof fn a_plan_goes_on(machine: Machine, work: Work, region: RegionId)
    requires
        machine.program.wf(),
        region.0 < machine.program.regions.len(),
        work.source.len() == machine.program.classes.len(),
        machine.program.inside_is_single(region),
    ensures
        goes_on(work, machine.plan(work, region), machine.program.entered(region)),
    decreases machine.program.rank(region), 1int, 0int,
{
    let program = machine.program;
    let params = program.values(program.region(region).params);
    let one = work.give_slots(params, 0);
    let two = machine.plan_results(one, region, 0);
    let end = machine.plan(work, region);
    assert(program.region_fits(program.regions[region.0 as int]));
    ir::model::known_values(program, program.region(region).params);
    assert forall|i: int| 0 <= i < params.len() implies (#[trigger] params[i]).0
        < work.source.len() by {
        assert(program.known(params[i]));
    }
    failing_plans_nested(machine, two, region, 0);
    failing_plans_results(machine, one, region, 0);
    if !end.code.failed {
        slots_go_on(work, params, 0);
        assert(params.skip(0) =~= params);
        results_are_planned(machine, one, region, 0);
        nested_are_planned(machine, two, region, 0);
        what_is_given(program, region, 0);
        let mine = ir::order::among(params);
        going_on_chains(
            one,
            two,
            end,
            own(program, region, 0),
            nested(program, region, 0),
            program.given(region, 0),
        );
        going_on_chains(work, one, end, mine, program.given(region, 0), program.entered(region));
    }
}

/// What the regions inside a region's instructions define is placed.
proof fn nested_are_planned(machine: Machine, work: Work, region: RegionId, from: int)
    requires
        machine.program.wf(),
        region.0 < machine.program.regions.len(),
        0 <= from <= machine.program.region_ops(region).len(),
        work.source.len() == machine.program.classes.len(),
        machine.program.is_single(region, from),
    ensures
        goes_on(
            work,
            machine.plan_nested(work, region, from),
            nested(machine.program, region, from),
        ),
    decreases
            machine.program.rank(region),
            0int,
            machine.program.region_ops(region).len() - from,
{
    let program = machine.program;
    let ops = program.region_ops(region);
    let end = machine.plan_nested(work, region, from);
    if from < ops.len() {
        ir::model::inside(program, region, from);
        assert(program.op_is_single(region, from));
        what_is_given(program, region, from);
        let next = planned_inside(machine, work, region, from);
        assert(end == machine.plan_nested(next, region, from + 1));
        failing_plans_nested(machine, next, region, from + 1);
        if !end.code.failed {
            match ops[from] {
                Op::If { then_region, else_region, .. } => {
                    let mid = machine.plan(work, then_region);
                    failing_plans(machine, mid, else_region);
                    a_plan_goes_on(machine, work, then_region);
                    a_plan_goes_on(machine, mid, else_region);
                    going_on_chains(
                        work,
                        mid,
                        next,
                        program.entered(then_region),
                        program.entered(else_region),
                        held(program, region, from),
                    );
                },
                Op::Loop { body, .. } => {
                    a_plan_goes_on(machine, work, body);
                },
                _ => {},
            }
            nested_are_planned(machine, next, region, from + 1);
            going_on_chains(
                work,
                next,
                end,
                held(program, region, from),
                nested(program, region, from + 1),
                nested(program, region, from),
            );
        }
    }
}

/// Whether a plan has values where another does.
spec fn is_kept(source: Seq<Source>, later: Seq<Source>, given: Set<ValueId>) -> bool {
    forall|v: ValueId|
        #[trigger] given.contains(v) ==> later[v.0 as int] == source[v.0 as int]
}

/// What a plan placed is where it was to be.
proof fn a_plan_is_laid(machine: Machine, work: Work, region: RegionId, source: Seq<Source>)
    requires
        machine.program.wf(),
        region.0 < machine.program.regions.len(),
        work.source.len() == machine.program.classes.len(),
        machine.program.inside_is_single(region),
        !machine.plan(work, region).code.failed,
        is_kept(
            machine.plan(work, region).source,
            source,
            machine.program.given(region, 0),
        ),
    ensures
        faithful::is_laid(machine.program, source, region, 0),
    decreases machine.program.rank(region), 1int, 0int,
{
    let program = machine.program;
    let params = program.values(program.region(region).params);
    let one = work.give_slots(params, 0);
    let two = machine.plan_results(one, region, 0);
    let end = machine.plan(work, region);
    assert(program.region_fits(program.regions[region.0 as int]));
    ir::model::known_values(program, program.region(region).params);
    assert forall|i: int| 0 <= i < params.len() implies (#[trigger] params[i]).0
        < work.source.len() by {
        assert(program.known(params[i]));
    }
    failing_plans_nested(machine, two, region, 0);
    failing_plans_results(machine, one, region, 0);
    slots_go_on(work, params, 0);
    results_are_planned(machine, one, region, 0);
    nested_are_planned(machine, two, region, 0);
    what_is_given(program, region, 0);
    assert(is_kept(two.source, source, own(program, region, 0))) by {
        assert forall|v: ValueId| #[trigger] own(program, region, 0).contains(v) implies
            source[v.0 as int] == two.source[v.0 as int] by {
            assert(program.given(region, 0).contains(v));
            assert(!nested(program, region, 0).contains(v));
            assert(v.0 < two.source.len());
        }
    }
    assert(is_kept(end.source, source, nested(program, region, 0))) by {
        assert forall|v: ValueId| #[trigger] nested(program, region, 0).contains(v) implies
            source[v.0 as int] == end.source[v.0 as int] by {
            assert(program.given(region, 0).contains(v));
        }
    }
    the_rest_is_laid(machine, two.source, two, region, 0, source);
}

proof fn the_rest_is_laid(
    machine: Machine,
    own_source: Seq<Source>,
    work: Work,
    region: RegionId,
    from: int,
    source: Seq<Source>,
)
    requires
        machine.program.wf(),
        region.0 < machine.program.regions.len(),
        0 <= from <= machine.program.region_ops(region).len(),
        work.source.len() == machine.program.classes.len(),
        machine.program.is_single(region, from),
        !machine.plan_nested(work, region, from).code.failed,
        consts_are_laid(machine.program, own_source, region, from),
        is_kept(own_source, source, own(machine.program, region, from)),
        is_kept(
            machine.plan_nested(work, region, from).source,
            source,
            nested(machine.program, region, from),
        ),
    ensures
        faithful::is_laid(machine.program, source, region, from),
    decreases
            machine.program.rank(region),
            0int,
            machine.program.region_ops(region).len() - from,
{
    let program = machine.program;
    let ops = program.region_ops(region);
    let end = machine.plan_nested(work, region, from);
    if from < ops.len() {
        ir::model::inside(program, region, from);
        assert(program.op_is_single(region, from));
        what_is_given(program, region, from);
        let results = program.values(program.region_results(region)[from]);
        let next = planned_inside(machine, work, region, from);
        let rest = nested(program, region, from + 1);
        assert(end == machine.plan_nested(next, region, from + 1));
        failing_plans_nested(machine, next, region, from + 1);
        match ops[from] {
            Op::If { then_region, else_region, .. } => {
                failing_plans(machine, machine.plan(work, then_region), else_region);
                a_plan_goes_on(machine, work, then_region);
                a_plan_goes_on(machine, machine.plan(work, then_region), else_region);
            },
            Op::Loop { body, .. } => {
                a_plan_goes_on(machine, work, body);
            },
            _ => {},
        }
        nested_are_planned(machine, next, region, from + 1);
        assert(is_kept(next.source, source, held(program, region, from))) by {
            assert forall|v: ValueId| #[trigger] held(program, region, from).contains(v) implies
                source[v.0 as int] == next.source[v.0 as int] by {
                assert(nested(program, region, from).contains(v));
                assert(!rest.contains(v));
                assert(v.0 < next.source.len());
            }
        }
        assert(is_kept(own_source, source, own(program, region, from + 1))) by {
            assert forall|v: ValueId| #[trigger] own(program, region, from + 1).contains(v) implies
                source[v.0 as int] == own_source[v.0 as int] by {
                assert(own(program, region, from).contains(v));
            }
        }
        assert(is_kept(end.source, source, rest)) by {
            assert forall|v: ValueId| #[trigger] rest.contains(v) implies source[v.0 as int]
                == end.source[v.0 as int] by {
                assert(nested(program, region, from).contains(v));
            }
        }
        the_rest_is_laid(machine, own_source, next, region, from + 1, source);
        match ops[from] {
            Op::Constant { .. } => {
                assert(results.len() == 1);
                assert(ir::order::among(results).contains(results[0]));
                assert(own(program, region, from).contains(results[0]));
            },
            Op::AddressOf(_) => {
                assert(results.len() == 1);
                assert(ir::order::among(results).contains(results[0]));
                assert(own(program, region, from).contains(results[0]));
            },
            Op::If { then_region, else_region, .. } => {
                let mid = machine.plan(work, then_region);
                assert(is_kept(mid.source, source, program.given(then_region, 0))) by {
                    assert forall|v: ValueId| #[trigger]
                        program.given(then_region, 0).contains(v) implies source[v.0 as int]
                        == mid.source[v.0 as int] by {
                        assert(program.entered(then_region).contains(v));
                        assert(held(program, region, from).contains(v));
                        assert(!program.entered(else_region).contains(v));
                    }
                }
                assert(is_kept(next.source, source, program.given(else_region, 0))) by {
                    assert forall|v: ValueId| #[trigger]
                        program.given(else_region, 0).contains(v) implies source[v.0 as int]
                        == next.source[v.0 as int] by {
                        assert(program.entered(else_region).contains(v));
                        assert(held(program, region, from).contains(v));
                    }
                }
                a_plan_is_laid(machine, work, then_region, source);
                a_plan_is_laid(machine, mid, else_region, source);
            },
            Op::Loop { body, .. } => {
                assert(is_kept(next.source, source, program.given(body, 0))) by {
                    assert forall|v: ValueId| #[trigger]
                        program.given(body, 0).contains(v) implies source[v.0 as int]
                        == next.source[v.0 as int] by {
                        assert(program.entered(body).contains(v));
                        assert(held(program, region, from).contains(v));
                    }
                }
                a_plan_is_laid(machine, work, body, source);
            },
            _ => {},
        }
        assert(faithful::op_is_laid(program, source, region, from));
        assert(faithful::is_laid(program, source, region, from + 1));
    }
}

/// A function that was planned has its values where they belong.
pub proof fn a_function_is_placed(machine: Machine, work: Work, region: RegionId)
    requires
        machine.program.wf(),
        region.0 < machine.program.regions.len(),
        work.source.len() == machine.program.classes.len(),
        machine.program.inside_is_single(region),
        !machine.plan(work, region).code.failed,
    ensures
        machine.plan(work, region).code == work.code,
        machine.plan(work, region).source.len() == work.source.len(),
        work.frame == 0 ==> faithful::are_apart(
            machine.plan(work, region).source,
            machine.plan(work, region).frame,
            machine.program.entered(region),
        ),
        faithful::is_laid(machine.program, machine.plan(work, region).source, region, 0),
{
    a_plan_goes_on(machine, work, region);
    a_plan_is_laid(machine, work, region, machine.plan(work, region).source);
}

} // verus!
