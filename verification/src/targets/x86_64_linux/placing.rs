//! Values have places of their own.
//!
//! A walk gives out slots in the order values are defined, so where no value
//! is defined twice, no two of a function share one. What a function was
//! passed stays where its caller put it.

use super::faithful;
use super::lower::{Layout, Source, Stage};
use crate::ir;
use crate::ir::{FunctionId, Op, Parts, RegionId, ValueId};
use vstd::prelude::*;

verus! {

/// Whether one plan goes on from another, placing some values and no others,
/// each that takes a slot one of its own.
pub open spec fn goes_on(before: Layout, after: Layout, given: Set<ValueId>) -> bool {
    after.failed || {
        &&& !before.failed
        &&& after.source.len() == before.source.len()
        &&& before.slots <= after.slots
        &&& forall|v: ValueId|
            #![trigger after.source[v.0 as int]]
            #![trigger given.contains(v)]
            v.0 < before.source.len() && !given.contains(v) ==> after.source[v.0 as int]
                == before.source[v.0 as int]
        &&& forall|v: ValueId|
            #[trigger] given.contains(v) ==> v.0 < after.source.len() && (
            after.source[v.0 as int] matches Source::Slot(index) ==> before.slots <= index
                < after.slots)
        &&& forall|v: ValueId, w: ValueId|
            #[trigger] given.contains(v) && #[trigger] given.contains(w) && v != w
                && after.source[v.0 as int] is Slot ==> after.source[v.0 as int]
                != after.source[w.0 as int]
    }
}

proof fn going_on_chains(
    first: Layout,
    second: Layout,
    third: Layout,
    one: Set<ValueId>,
    other: Set<ValueId>,
    both: Set<ValueId>,
)
    requires
        goes_on(first, second, one),
        goes_on(second, third, other),
        one.disjoint(other),
        both == one.union(other),
    ensures
        goes_on(first, third, both),
{
    if !third.failed {
        assert forall|v: ValueId|
            #![trigger third.source[v.0 as int]]
            #![trigger both.contains(v)]
            v.0 < first.source.len() && !both.contains(v) implies third.source[v.0 as int] == first.source[v.0 as int] by {
            assert(!one.contains(v) && !other.contains(v));
        }
        assert forall|v: ValueId| #[trigger] both.contains(v) implies v.0 < third.source.len() && (
        third.source[v.0 as int] matches Source::Slot(index) ==> first.slots <= index
            < third.slots) by {
            if one.contains(v) {
                assert(!other.contains(v));
            }
        }
        assert forall|v: ValueId, w: ValueId|
            #[trigger] both.contains(v) && #[trigger] both.contains(w) && v != w
                && third.source[v.0 as int] is Slot implies third.source[v.0 as int]
            != third.source[w.0 as int] by {
            if one.contains(v) {
                assert(!other.contains(v));
            }
            if one.contains(w) {
                assert(!other.contains(w));
            }
        }
    }
}

proof fn staying_goes_on(layout: Layout)
    ensures
        goes_on(layout, layout, Set::empty()) || layout.failed,
{
}

/// One slot.
proof fn a_slot_goes_on(layout: Layout, value: ValueId)
    requires
        value.0 < layout.source.len(),
    ensures
        goes_on(layout, layout.give_slot(value), set![value]) || layout.failed,
        layout.failed ==> layout.give_slot(value).failed,
        !layout.give_slot(value).failed ==> layout.give_slot(value).source[value.0 as int]
            == Source::Slot(layout.slots as u32) && layout.give_slot(value).slots
            == layout.slots + 1,
{
    let after = layout.give_slot(value);
    let given = set![value];
    if !after.failed {
        assert forall|v: ValueId|
            #![trigger after.source[v.0 as int]]
            #![trigger given.contains(v)]
            v.0 < layout.source.len() && !given.contains(v) implies after.source[v.0 as int]
            == layout.source[v.0 as int] by {
            assert(v != value);
            assert(v.0 != value.0);
        }
    }
}

/// A slot each.
proof fn slots_go_on(layout: Layout, values: Seq<ValueId>, from: int)
    requires
        0 <= from <= values.len(),
        values.no_duplicates(),
        forall|i: int| 0 <= i < values.len() ==> (#[trigger] values[i]).0 < layout.source.len(),
    ensures
        layout.failed ==> layout.give_slots(values, from).failed,
        goes_on(
            layout,
            layout.give_slots(values, from),
            ir::order::among(values.skip(from)),
        ),
        !layout.give_slots(values, from).failed ==> forall|i: int|
            from <= i < values.len() ==> layout.give_slots(values, from).source[(
            #[trigger] values[i]).0 as int] == Source::Slot((layout.slots + i - from) as u32),
    decreases values.len() - from,
{
    let end = layout.give_slots(values, from);
    if from == values.len() {
        assert(ir::order::among(values.skip(from)) =~= Set::empty());
    } else {
        let value = values[from];
        let next = layout.give_slot(value);
        a_slot_goes_on(layout, value);
        slots_go_on(next, values, from + 1);
        let rest = ir::order::among(values.skip(from + 1));
        let all = ir::order::among(values.skip(from));
        assert(!rest.contains(value)) by {
            if values.skip(from + 1).contains(value) {
                let i = values.skip(from + 1).index_of(value);
                assert(values[from + 1 + i] == value);
            }
        }
        assert(all =~= set![value].union(rest)) by {
            assert forall|v: ValueId| all.contains(v) <==> set![value].union(rest).contains(
                v,
            ) by {
                if all.contains(v) {
                    let i = values.skip(from).index_of(v);
                    if i > 0 {
                        assert(values.skip(from + 1)[i - 1] == v);
                    }
                }
                if rest.contains(v) {
                    let i = values.skip(from + 1).index_of(v);
                    assert(values.skip(from)[i + 1] == v);
                }
                assert(values.skip(from)[0] == value);
            }
        }
        if !end.failed {
            going_on_chains(layout, next, end, set![value], rest, all);
            assert forall|i: int| from <= i < values.len() implies end.source[(
            #[trigger] values[i]).0 as int] == Source::Slot((layout.slots + i - from) as u32) by {
                if i == from {
                    assert(!rest.contains(value));
                }
            }
        }
    }
}

/// What an instruction defines is placed.
proof fn placing_goes_on(layout: Layout, op: Op, results: Seq<ValueId>)
    requires
        results.no_duplicates(),
        op is Constant || op is AddressOf ==> results.len() == 1,
        forall|i: int| 0 <= i < results.len() ==> (#[trigger] results[i]).0 < layout.source.len(),
    ensures
        goes_on(layout, layout.place(op, results), ir::order::among(results)),
        layout.failed ==> layout.place(op, results).failed,
        op matches Op::Constant { value, .. } ==> layout.place(op, results).source[results[0].0 as int] == Source::Const(value),
        op matches Op::AddressOf(data) ==> layout.place(op, results).source[results[0].0 as int]
            == Source::Addr(data),
{
    let after = layout.place(op, results);
    let given = ir::order::among(results);
    slots_go_on(layout, results, 0);
    assert(results.skip(0) =~= results);
    if op is Constant || op is AddressOf {
        assert(results[0].0 < layout.source.len());
        assert(given =~= set![results[0]]) by {
            assert forall|v: ValueId| given.contains(v) <==> v == results[0] by {
                if given.contains(v) {
                    let i = results.index_of(v);
                }
                assert(results.contains(results[0]));
            }
        }
        assert forall|v: ValueId|
            #![trigger after.source[v.0 as int]]
            #![trigger given.contains(v)]
            v.0 < layout.source.len() && !given.contains(v) implies after.source[v.0 as int]
            == layout.source[v.0 as int] by {
            assert(v.0 != results[0].0);
        }
    }
}

/// What a region takes is placed.
proof fn entering_goes_on(layout: Layout, program: Parts, region: RegionId)
    requires
        program.wf(),
        region.0 < program.regions.len(),
        layout.source.len() == program.classes.len(),
        program.values(program.region(region).params).no_duplicates(),
    ensures
        goes_on(
            layout,
            layout.enter(program, region),
            ir::order::among(program.values(program.region(region).params)),
        ),
        layout.failed ==> layout.enter(program, region).failed,
{
    let params = program.values(program.region(region).params);
    assert(program.region_fits(program.regions[region.0 as int]));
    ir::model::known_values(program, program.region(region).params);
    assert forall|i: int| 0 <= i < params.len() implies (#[trigger] params[i]).0
        < layout.source.len() by {
        assert(program.known(params[i]));
    }
    slots_go_on(layout, params, 0);
    assert(params.skip(0) =~= params);
}

/// One instruction of a walk, with the regions inside it.
pub open spec fn op_walked(in_entry: bool, layout: Layout, program: Parts, region: RegionId, at: int) -> Layout {
    let results = program.values(program.region_results(region)[at]);
    let op = program.region_ops(region)[at];
    let placed = layout.place(op, results);
    match op {
        Op::If { then_region, else_region, .. } => if program.nests(region, then_region)
            && program.nests(region, else_region) {
            placed.enter(program, then_region).walk(program, then_region, 0, in_entry).enter(
                program,
                else_region,
            ).walk(program, else_region, 0, in_entry)
        } else {
            placed
        },
        Op::Loop { body, .. } => if program.nests(region, body) {
            placed.enter(program, body).walk(program, body, 0, in_entry)
        } else {
            placed
        },
        _ => placed,
    }
}

/// An instruction, and what is inside it, layout what it defines.
proof fn an_op_goes_on(in_entry: bool, layout: Layout, program: Parts, region: RegionId, at: int)
    requires
        program.wf(),
        region.0 < program.regions.len(),
        0 <= at < program.region_ops(region).len(),
        layout.source.len() == program.classes.len(),
        program.op_is_single(region, at),
    ensures
        goes_on(layout, op_walked(in_entry, layout, program, region, at), program.op_given(region, at)),
        layout.failed ==> op_walked(in_entry, layout, program, region, at).failed,
    decreases program.rank(region), 0nat, 0int,
{
    let run = program.region_results(region)[at];
    let results = program.values(run);
    let op = program.region_ops(region)[at];
    let placed = layout.place(op, results);
    let own = ir::order::among(results);
    ir::model::inside(program, region, at);
    ir::model::known_values(program, run);
    assert forall|i: int| 0 <= i < results.len() implies (#[trigger] results[i]).0
        < layout.source.len() by {
        assert(program.known(results[i]));
    }
    placing_goes_on(layout, op, results);
    match op {
        Op::If { then_region, else_region, .. } => {
            let one = placed.enter(program, then_region);
            let two = one.walk(program, then_region, 0, in_entry);
            let end = two.enter(program, else_region).walk(program, else_region, 0, in_entry);
            an_inside_goes_on(in_entry, placed, program, then_region);
            if !two.failed {
                an_inside_goes_on(in_entry, two, program, else_region);
            } else {
                failing_walks(in_entry, two.enter(program, else_region), program, else_region, 0);
                failing_enters(two, program, else_region);
            }
            if !end.failed {
                going_on_chains(
                    layout,
                    placed,
                    two,
                    own,
                    program.entered(then_region),
                    own.union(program.entered(then_region)),
                );
                going_on_chains(
                    layout,
                    two,
                    end,
                    own.union(program.entered(then_region)),
                    program.entered(else_region),
                    program.op_given(region, at),
                );
            }
        },
        Op::Loop { body, .. } => {
            let end = placed.enter(program, body).walk(program, body, 0, in_entry);
            an_inside_goes_on(in_entry, placed, program, body);
            if !end.failed {
                going_on_chains(
                    layout,
                    placed,
                    end,
                    own,
                    program.entered(body),
                    program.op_given(region, at),
                );
            }
        },
        _ => {},
    }
}

proof fn failing_enters(layout: Layout, program: Parts, region: RegionId)
    ensures
        layout.failed ==> layout.enter(program, region).failed,
{
    failing_gives(layout, program.values(program.region(region).params), 0);
}

proof fn failing_gives(layout: Layout, values: Seq<ValueId>, from: int)
    ensures
        layout.failed ==> layout.give_slots(values, from).failed,
    decreases values.len() - from,
{
    if 0 <= from < values.len() {
        failing_gives(layout.give_slot(values[from]), values, from + 1);
    }
}

proof fn failing_walks(in_entry: bool, layout: Layout, program: Parts, region: RegionId, from: int)
    ensures
        layout.failed ==> layout.walk(program, region, from, in_entry).failed,
    decreases program.rank(region), program.region_ops(region).len() - from,
{
    let ops = program.region_ops(region);
    if 0 <= from < ops.len() && layout.failed {
        let results = program.values(program.region_results(region)[from]);
        let placed = layout.place(ops[from], results);
        failing_gives(layout, results, 0);
        assert(placed.failed);
        match ops[from] {
            Op::If { then_region, else_region, .. } => {
                if program.nests(region, then_region) && program.nests(region, else_region) {
                    let one = placed.enter(program, then_region);
                    let two = one.walk(program, then_region, 0, in_entry);
                    let three = two.enter(program, else_region);
                    failing_enters(placed, program, then_region);
                    failing_walks(in_entry, one, program, then_region, 0);
                    failing_enters(two, program, else_region);
                    failing_walks(in_entry, three, program, else_region, 0);
                }
            },
            Op::Loop { body, .. } => {
                if program.nests(region, body) {
                    let one = placed.enter(program, body);
                    failing_enters(placed, program, body);
                    failing_walks(in_entry, one, program, body, 0);
                }
            },
            _ => {},
        }
        failing_walks(in_entry, op_walked(in_entry, layout, program, region, from), program, region, from + 1);
    }
}

/// A region that is entered layout what it takes and what it defines.
proof fn an_inside_goes_on(in_entry: bool, layout: Layout, program: Parts, region: RegionId)
    requires
        program.wf(),
        region.0 < program.regions.len(),
        layout.failed || layout.source.len() == program.classes.len(),
        program.inside_is_single(region),
    ensures
        goes_on(
            layout,
            layout.enter(program, region).walk(program, region, 0, in_entry),
            program.entered(region),
        ),
        layout.failed ==> layout.enter(program, region).walk(program, region, 0, in_entry).failed,
    decreases program.rank(region), 2nat, 0int,
{
    let inside = layout.enter(program, region);
    let end = inside.walk(program, region, 0, in_entry);
    let params = ir::order::among(program.values(program.region(region).params));
    failing_enters(layout, program, region);
    failing_walks(in_entry, inside, program, region, 0);
    if !end.failed {
        entering_goes_on(layout, program, region);
        a_walk_goes_on(in_entry, inside, program, region, 0);
        going_on_chains(
            layout,
            inside,
            end,
            params,
            program.given(region, 0),
            program.entered(region),
        );
    }
}

/// A walk layout what the instructions it passes define.
proof fn a_walk_goes_on(in_entry: bool, layout: Layout, program: Parts, region: RegionId, from: int)
    requires
        program.wf(),
        region.0 < program.regions.len(),
        0 <= from <= program.region_ops(region).len(),
        layout.source.len() == program.classes.len(),
        program.is_single(region, from),
    ensures
        goes_on(
            layout,
            layout.walk(program, region, from, in_entry),
            program.given(region, from),
        ),
    decreases program.rank(region), 1nat, program.region_ops(region).len() - from,
{
    let end = layout.walk(program, region, from, in_entry);
    failing_walks(in_entry, layout, program, region, from);
    if from < program.region_ops(region).len() {
        let next = op_walked(in_entry, layout, program, region, from);
        assert(end == next.walk(program, region, from + 1, in_entry));
        failing_walks(in_entry, next, program, region, from + 1);
        if !end.failed {
            an_op_goes_on(in_entry, layout, program, region, from);
            a_walk_goes_on(in_entry, next, program, region, from + 1);
            going_on_chains(
                layout,
                next,
                end,
                program.op_given(region, from),
                program.given(region, from + 1),
                program.given(region, from),
            );
        }
    }
}

/// Whether a stage has values where a plan has them.
spec fn is_settled(stage: Stage, layout: Layout, given: Set<ValueId>) -> bool {
    forall|v: ValueId|
        #[trigger] given.contains(v) ==> stage.layout.source[v.0 as int]
            == layout.source[v.0 as int]
}

/// What a walk placed is where it was to be.
proof fn a_walk_is_laid(in_entry: bool, stage: Stage, layout: Layout, region: RegionId, from: int)
    requires
        stage.program.wf(),
        region.0 < stage.program.regions.len(),
        0 <= from <= stage.program.region_ops(region).len(),
        layout.source.len() == stage.program.classes.len(),
        stage.program.is_single(region, from),
        !layout.walk(stage.program, region, from, in_entry).failed,
        is_settled(
            stage,
            layout.walk(stage.program, region, from, in_entry),
            stage.program.given(region, from),
        ),
    ensures
        stage.is_laid(region, from),
    decreases
            stage.program.rank(region),
            1nat,
            stage.program.region_ops(region).len() - from,
{
    let program = stage.program;
    if from < program.region_ops(region).len() {
        let next = op_walked(in_entry, layout, program, region, from);
        let end = next.walk(program, region, from + 1, in_entry);
        assert(layout.walk(program, region, from, in_entry) == end);
        failing_walks(in_entry, next, program, region, from + 1);
        an_op_goes_on(in_entry, layout, program, region, from);
        a_walk_goes_on(in_entry, next, program, region, from + 1);
        let own = program.op_given(region, from);
        let later = program.given(region, from + 1);
        assert(is_settled(stage, next, own)) by {
            assert forall|v: ValueId| #[trigger] own.contains(v) implies
                stage.layout.source[v.0 as int] == next.source[v.0 as int] by {
                assert(program.given(region, from).contains(v));
                assert(!later.contains(v));
            }
        }
        assert(is_settled(stage, end, later)) by {
            assert forall|v: ValueId| #[trigger] later.contains(v) implies
                stage.layout.source[v.0 as int] == end.source[v.0 as int] by {
                assert(program.given(region, from).contains(v));
            }
        }
        a_walk_is_laid(in_entry, stage, next, region, from + 1);
        an_op_is_laid(in_entry, stage, layout, region, from);
    }
}

proof fn an_op_is_laid(in_entry: bool, stage: Stage, layout: Layout, region: RegionId, at: int)
    requires
        stage.program.wf(),
        region.0 < stage.program.regions.len(),
        0 <= at < stage.program.region_ops(region).len(),
        layout.source.len() == stage.program.classes.len(),
        stage.program.op_is_single(region, at),
        !op_walked(in_entry, layout, stage.program, region, at).failed,
        is_settled(
            stage,
            op_walked(in_entry, layout, stage.program, region, at),
            stage.program.op_given(region, at),
        ),
    ensures
        stage.op_is_laid(region, at),
    decreases stage.program.rank(region), 0nat, 0int,
{
    let program = stage.program;
    let run = program.region_results(region)[at];
    let results = program.values(run);
    let op = program.region_ops(region)[at];
    let placed = layout.place(op, results);
    let next = op_walked(in_entry, layout, program, region, at);
    let own = ir::order::among(results);
    ir::model::inside(program, region, at);
    ir::model::known_values(program, run);
    assert forall|i: int| 0 <= i < results.len() implies (#[trigger] results[i]).0
        < layout.source.len() by {
        assert(program.known(results[i]));
    }
    placing_goes_on(layout, op, results);
    match op {
        Op::Constant { .. } => {
            assert(results.len() == 1);
            assert(results.contains(results[0]));
            assert(program.op_given(region, at).contains(results[0]));
        },
        Op::AddressOf(_) => {
            assert(results.len() == 1);
            assert(results.contains(results[0]));
            assert(program.op_given(region, at).contains(results[0]));
        },
        Op::If { then_region, else_region, .. } => {
            let one = placed.enter(program, then_region);
            let two = one.walk(program, then_region, 0, in_entry);
            let three = two.enter(program, else_region);
            failing_walks(in_entry, three, program, else_region, 0);
            failing_enters(two, program, else_region);
            failing_walks(in_entry, one, program, then_region, 0);
            failing_enters(placed, program, then_region);
            an_inside_goes_on(in_entry, placed, program, then_region);
            an_inside_goes_on(in_entry, two, program, else_region);
            entering_goes_on(placed, program, then_region);
            entering_goes_on(two, program, else_region);
            a_walk_goes_on(in_entry, one, program, then_region, 0);
            a_walk_goes_on(in_entry, three, program, else_region, 0);
            let inner = program.given(then_region, 0);
            assert(is_settled(stage, two, inner)) by {
                assert forall|v: ValueId| #[trigger] inner.contains(v) implies
                    stage.layout.source[v.0 as int] == two.source[v.0 as int] by {
                    assert(program.entered(then_region).contains(v));
                    assert(program.op_given(region, at).contains(v));
                    assert(!program.entered(else_region).contains(v));
                }
            }
            let other = program.given(else_region, 0);
            assert(is_settled(stage, next, other)) by {
                assert forall|v: ValueId| #[trigger] other.contains(v) implies
                    stage.layout.source[v.0 as int] == next.source[v.0 as int] by {
                    assert(program.entered(else_region).contains(v));
                    assert(program.op_given(region, at).contains(v));
                }
            }
            a_walk_is_laid(in_entry, stage, one, then_region, 0);
            a_walk_is_laid(in_entry, stage, three, else_region, 0);
        },
        Op::Loop { body, .. } => {
            let one = placed.enter(program, body);
            failing_walks(in_entry, one, program, body, 0);
            failing_enters(placed, program, body);
            entering_goes_on(placed, program, body);
            let inner = program.given(body, 0);
            assert(is_settled(stage, next, inner)) by {
                assert forall|v: ValueId| #[trigger] inner.contains(v) implies
                    stage.layout.source[v.0 as int] == next.source[v.0 as int] by {
                    assert(program.entered(body).contains(v));
                    assert(program.op_given(region, at).contains(v));
                }
            }
            a_walk_is_laid(in_entry, stage, one, body, 0);
        },
        _ => {},
    }
}

/// What a function was passed is where its caller put it.
proof fn params_are_passed(layout: Layout, values: Seq<ValueId>, from: int)
    requires
        0 <= from <= values.len() <= u32::MAX,
        values.no_duplicates(),
        forall|i: int| 0 <= i < values.len() ==> (#[trigger] values[i]).0 < layout.source.len(),
    ensures
        ({
            let end = layout.give_params(values, from);
            &&& end.source.len() == layout.source.len()
            &&& end.failed == layout.failed
            &&& end.slots == layout.slots
            &&& forall|i: int|
                from <= i < values.len() ==> end.source[(#[trigger] values[i]).0 as int]
                    == Source::Param(i as u32)
            &&& forall|i: int|
                0 <= i < from ==> end.source[(#[trigger] values[i]).0 as int]
                    == layout.source[values[i].0 as int]
        }),
    decreases values.len() - from,
{
    if from < values.len() {
        let next = layout.put(values[from], Source::Param(from as u32));
        assert(values[from].0 < layout.source.len());
        assert forall|i: int| 0 <= i < values.len() implies (#[trigger] values[i]).0
            < next.source.len() by {}
        params_are_passed(next, values, from + 1);
        let end = layout.give_params(values, from);
        assert forall|i: int| from <= i < values.len() implies end.source[(
        #[trigger] values[i]).0 as int] == Source::Param(i as u32) by {
            if i == from {
                assert(end.source[values[from].0 as int] == next.source[values[from].0 as int]);
            }
        }
        assert forall|i: int| 0 <= i < from implies end.source[(#[trigger] values[i]).0 as int]
            == layout.source[values[i].0 as int] by {
            assert(values[i] != values[from]);
            assert(values[i].0 != values[from].0);
            assert(end.source[values[i].0 as int] == next.source[values[i].0 as int]);
        }
    }
}

/// A function that has a frame has its values where they belong.
pub proof fn a_function_is_placed(program: Parts, f: FunctionId)
    requires
        program.wf(),
        program.orderly(),
        f.0 < program.functions.len(),
        !faithful::stage_of(program, f).layout.failed,
    ensures
        faithful::are_apart(faithful::stage_of(program, f), program.function_given(f)),
        faithful::stage_of(program, f).is_laid(program.function(f).body, 0),
        forall|i: int|
            0 <= i < program.values(program.function(f).params).len()
                ==> faithful::stage_of(program, f).layout.source[(
            #[trigger] program.values(program.function(f).params)[i]).0 as int] == Source::Param(
                i as u32,
            ),
{
    reveal(faithful::stage_of);
    let in_entry = f.0 == 0;
    let stage = faithful::stage_of(program, f);
    let function = program.function(f);
    let params = program.values(function.params);
    let body = function.body;
    let start = Layout::start(program.classes.len());
    let taken = start.give_params(params, 0);
    let end = taken.walk(program, body, 0, in_entry);
    let own = ir::order::among(params);
    let given = program.given(body, 0);
    assert(program.function_fits(program.functions[f.0 as int]));
    assert(program.function_is_single(f));
    ir::model::known_values(program, function.params);
    assert forall|i: int| 0 <= i < params.len() implies (#[trigger] params[i]).0
        < start.source.len() by {
        assert(program.known(params[i]));
    }
    params_are_passed(start, params, 0);
    a_walk_goes_on(in_entry, taken, program, body, 0);
    assert(stage.layout == end);
    assert forall|i: int| 0 <= i < params.len() implies end.source[(
    #[trigger] params[i]).0 as int] == Source::Param(i as u32) by {
        assert(own.contains(params[i]));
        assert(!given.contains(params[i]));
    }
    a_walk_is_laid(in_entry, stage, taken, body, 0);
    let mine = program.function_given(f);
    assert forall|v: ValueId| #[trigger] mine.contains(v) implies v.0 < end.source.len() && (
    end.source[v.0 as int] matches Source::Slot(index) ==> index < end.slots) by {
        if own.contains(v) {
            let i = params.index_of(v);
            assert(end.source[params[i].0 as int] == Source::Param(i as u32));
        } else {
            assert(given.contains(v));
        }
    }
    assert forall|v: ValueId, w: ValueId|
        #[trigger] mine.contains(v) && #[trigger] mine.contains(w) && v != w
            && end.source[v.0 as int] is Slot implies end.source[v.0 as int]
        != end.source[w.0 as int] by {
        if own.contains(v) {
            let i = params.index_of(v);
            assert(end.source[params[i].0 as int] == Source::Param(i as u32));
        } else if own.contains(w) {
            let i = params.index_of(w);
            assert(end.source[params[i].0 as int] == Source::Param(i as u32));
        } else {
            assert(given.contains(v) && given.contains(w));
        }
    }
}

} // verus!
