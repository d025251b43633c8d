//! Values have places of their own.
//!
//! A walk gives out locals in the order values are defined, so where no value
//! is defined twice, no two of a function share one, and what a function was
//! given is never given away again.

use super::faithful;
use super::lower::{Places, Setting, Source};
use super::lower;
use crate::ir;
use crate::ir::{FunctionId, Op, Parts, RegionId, ValueId};
use vstd::prelude::*;

verus! {

/// Whether one plan goes on from another, placing some values and no others,
/// each that takes a local one of its own.
pub open spec fn goes_on(before: Places, after: Places, given: Set<ValueId>) -> bool {
    after.failed || {
        &&& !before.failed
        &&& after.source.len() == before.source.len()
        &&& before.locals <= after.locals
        &&& before.locals <= u32::MAX ==> after.locals <= u32::MAX
        &&& before.exits ==> after.exits
        &&& before.returns_inside ==> after.returns_inside
        &&& forall|v: ValueId|
            #![trigger after.source[v.0 as int]]
            #![trigger given.contains(v)]
            v.0 < before.source.len() && !given.contains(v) ==> after.source[v.0 as int]
                == before.source[v.0 as int]
        &&& forall|v: ValueId|
            #[trigger] given.contains(v) ==> v.0 < after.source.len() && (
            after.source[v.0 as int] matches Source::Local(index) ==> before.locals <= index
                < after.locals)
        &&& forall|v: ValueId, w: ValueId|
            #[trigger] given.contains(v) && #[trigger] given.contains(w) && v != w
                && after.source[v.0 as int] is Local ==> after.source[v.0 as int]
                != after.source[w.0 as int]
    }
}

proof fn going_on_chains(
    first: Places,
    second: Places,
    third: Places,
    one: Set<ValueId>,
    other: Set<ValueId>,
    both: Set<ValueId>,
)
    requires
        goes_on(first, second, one),
        goes_on(second, third, other),
        one.disjoint(other),
        both == one.union(other),
    ensures
        goes_on(first, third, both),
{
    if !third.failed {
        assert forall|v: ValueId|
            #![trigger third.source[v.0 as int]]
            #![trigger both.contains(v)]
            v.0 < first.source.len() && !both.contains(v) implies third.source[v.0 as int] == first.source[v.0 as int] by {
            assert(!one.contains(v) && !other.contains(v));
        }
        assert forall|v: ValueId| #[trigger] both.contains(v) implies v.0 < third.source.len() && (
        third.source[v.0 as int] matches Source::Local(index) ==> first.locals <= index
            < third.locals) by {
            if one.contains(v) {
                assert(!other.contains(v));
            }
        }
        assert forall|v: ValueId, w: ValueId|
            #[trigger] both.contains(v) && #[trigger] both.contains(w) && v != w
                && third.source[v.0 as int] is Local implies third.source[v.0 as int]
            != third.source[w.0 as int] by {
            if one.contains(v) {
                assert(!other.contains(v));
            }
            if one.contains(w) {
                assert(!other.contains(w));
            }
        }
    }
}

proof fn staying_goes_on(places: Places)
    ensures
        goes_on(places, places, Set::empty()) || places.failed,
{
}

/// One local.
proof fn a_local_goes_on(places: Places, value: ValueId)
    requires
        value.0 < places.source.len(),
    ensures
        goes_on(places, places.give_local(value), set![value]) || places.failed,
        places.failed ==> places.give_local(value).failed,
        !places.give_local(value).failed ==> places.give_local(value).source[value.0 as int]
            == Source::Local(places.locals as u32) && places.give_local(value).locals
            == places.locals + 1,
{
    let after = places.give_local(value);
    let given = set![value];
    if !after.failed {
        assert forall|v: ValueId|
            #![trigger after.source[v.0 as int]]
            #![trigger given.contains(v)]
            v.0 < places.source.len() && !given.contains(v) implies after.source[v.0 as int]
            == places.source[v.0 as int] by {
            assert(v != value);
            assert(v.0 != value.0);
        }
    }
}

/// A local each.
proof fn locals_go_on(places: Places, values: Seq<ValueId>, from: int)
    requires
        0 <= from <= values.len(),
        values.no_duplicates(),
        forall|i: int| 0 <= i < values.len() ==> (#[trigger] values[i]).0 < places.source.len(),
    ensures
        places.failed ==> places.give_locals(values, from).failed,
        goes_on(
            places,
            places.give_locals(values, from),
            ir::order::among(values.skip(from)),
        ),
        !places.give_locals(values, from).failed ==> forall|i: int|
            from <= i < values.len() ==> places.give_locals(values, from).source[(
            #[trigger] values[i]).0 as int] == Source::Local((places.locals + i - from) as u32),
    decreases values.len() - from,
{
    let end = places.give_locals(values, from);
    if from == values.len() {
        assert(ir::order::among(values.skip(from)) =~= Set::empty());
    } else {
        let value = values[from];
        let next = places.give_local(value);
        a_local_goes_on(places, value);
        locals_go_on(next, values, from + 1);
        let rest = ir::order::among(values.skip(from + 1));
        let all = ir::order::among(values.skip(from));
        assert(!rest.contains(value)) by {
            if values.skip(from + 1).contains(value) {
                let i = values.skip(from + 1).index_of(value);
                assert(values[from + 1 + i] == value);
            }
        }
        assert(all =~= set![value].union(rest)) by {
            assert forall|v: ValueId| all.contains(v) <==> set![value].union(rest).contains(
                v,
            ) by {
                if all.contains(v) {
                    let i = values.skip(from).index_of(v);
                    if i > 0 {
                        assert(values.skip(from + 1)[i - 1] == v);
                    }
                }
                if rest.contains(v) {
                    let i = values.skip(from + 1).index_of(v);
                    assert(values.skip(from)[i + 1] == v);
                }
                assert(values.skip(from)[0] == value);
            }
        }
        if !end.failed {
            going_on_chains(places, next, end, set![value], rest, all);
            assert forall|i: int| from <= i < values.len() implies end.source[(
            #[trigger] values[i]).0 as int] == Source::Local((places.locals + i - from) as u32) by {
                if i == from {
                    assert(!rest.contains(value));
                }
            }
        }
    }
}

/// What an instruction defines is placed.
proof fn placing_goes_on(places: Places, program: Parts, op: Op, results: Seq<ValueId>)
    requires
        results.no_duplicates(),
        op is Constant || op is AddressOf ==> results.len() == 1,
        forall|i: int| 0 <= i < results.len() ==> (#[trigger] results[i]).0 < places.source.len(),
    ensures
        goes_on(places, places.place(program, op, results), ir::order::among(results)),
        places.failed ==> places.place(program, op, results).failed,
        op matches Op::Constant { value, .. } ==> places.place(
            program,
            op,
            results,
        ).source[results[0].0 as int] == Source::Const(value),
        op matches Op::AddressOf(data) ==> places.place(
            program,
            op,
            results,
        ).source[results[0].0 as int] == Source::Addr(data),
        op matches Op::PlatformCall { platform, .. } && program.name(
            program.routine(platform).name,
        ) == "exit"@ ==> places.place(program, op, results).exits,
{
    let after = places.place(program, op, results);
    let given = ir::order::among(results);
    locals_go_on(places, results, 0);
    assert(results.skip(0) =~= results);
    super::flow::the_two_routines_differ();
    if op is Constant || op is AddressOf {
        assert(results[0].0 < places.source.len());
        assert(given =~= set![results[0]]) by {
            assert forall|v: ValueId| given.contains(v) <==> v == results[0] by {
                if given.contains(v) {
                    let i = results.index_of(v);
                }
                assert(results.contains(results[0]));
            }
        }
        assert forall|v: ValueId|
            #![trigger after.source[v.0 as int]]
            #![trigger given.contains(v)]
            v.0 < places.source.len() && !given.contains(v) implies after.source[v.0 as int]
            == places.source[v.0 as int] by {
            assert(v.0 != results[0].0);
        }
    }
}

/// What a region takes is placed.
proof fn entering_goes_on(places: Places, program: Parts, region: RegionId)
    requires
        program.wf(),
        region.0 < program.regions.len(),
        places.source.len() == program.classes.len(),
        program.values(program.region(region).params).no_duplicates(),
    ensures
        goes_on(
            places,
            places.enter(program, region),
            ir::order::among(program.values(program.region(region).params)),
        ),
        places.failed ==> places.enter(program, region).failed,
{
    let params = program.values(program.region(region).params);
    assert(program.region_fits(program.regions[region.0 as int]));
    ir::model::known_values(program, program.region(region).params);
    assert forall|i: int| 0 <= i < params.len() implies (#[trigger] params[i]).0
        < places.source.len() by {
        assert(program.known(params[i]));
    }
    locals_go_on(places, params, 0);
    assert(params.skip(0) =~= params);
}

/// One instruction of a walk, with the regions inside it.
pub open spec fn op_walked(places: Places, program: Parts, region: RegionId, at: int) -> Places {
    let results = program.values(program.region_results(region)[at]);
    let op = program.region_ops(region)[at];
    let placed = places.place(program, op, results);
    match op {
        Op::If { then_region, else_region, .. } => if program.nests(region, then_region)
            && program.nests(region, else_region) {
            placed.enter(program, then_region).walk(program, then_region, 0).enter(
                program,
                else_region,
            ).walk(program, else_region, 0)
        } else {
            placed
        },
        Op::Loop { body, .. } => if program.nests(region, body) {
            placed.enter(program, body).walk(program, body, 0)
        } else {
            placed
        },
        _ => placed,
    }
}

/// An instruction, and what is inside it, places what it defines.
proof fn an_op_goes_on(places: Places, program: Parts, region: RegionId, at: int)
    requires
        program.wf(),
        region.0 < program.regions.len(),
        0 <= at < program.region_ops(region).len(),
        places.source.len() == program.classes.len(),
        program.op_is_single(region, at),
    ensures
        goes_on(places, op_walked(places, program, region, at), program.op_given(region, at)),
        places.failed ==> op_walked(places, program, region, at).failed,
    decreases program.rank(region), 0nat, 0int,
{
    let run = program.region_results(region)[at];
    let results = program.values(run);
    let op = program.region_ops(region)[at];
    let placed = places.place(program, op, results);
    let own = ir::order::among(results);
    ir::model::inside(program, region, at);
    ir::model::known_values(program, run);
    assert forall|i: int| 0 <= i < results.len() implies (#[trigger] results[i]).0
        < places.source.len() by {
        assert(program.known(results[i]));
    }
    placing_goes_on(places, program, op, results);
    match op {
        Op::If { then_region, else_region, .. } => {
            let one = placed.enter(program, then_region);
            let two = one.walk(program, then_region, 0);
            let end = two.enter(program, else_region).walk(program, else_region, 0);
            an_inside_goes_on(placed, program, then_region);
            if !two.failed {
                an_inside_goes_on(two, program, else_region);
            } else {
                failing_walks(two.enter(program, else_region), program, else_region, 0);
                failing_enters(two, program, else_region);
            }
            if !end.failed {
                going_on_chains(
                    places,
                    placed,
                    two,
                    own,
                    program.entered(then_region),
                    own.union(program.entered(then_region)),
                );
                going_on_chains(
                    places,
                    two,
                    end,
                    own.union(program.entered(then_region)),
                    program.entered(else_region),
                    program.op_given(region, at),
                );
            }
        },
        Op::Loop { body, .. } => {
            let end = placed.enter(program, body).walk(program, body, 0);
            an_inside_goes_on(placed, program, body);
            if !end.failed {
                going_on_chains(
                    places,
                    placed,
                    end,
                    own,
                    program.entered(body),
                    program.op_given(region, at),
                );
            }
        },
        _ => {},
    }
}

proof fn failing_enters(places: Places, program: Parts, region: RegionId)
    ensures
        places.failed ==> places.enter(program, region).failed,
{
    failing_gives(places, program.values(program.region(region).params), 0);
}

proof fn failing_gives(places: Places, values: Seq<ValueId>, from: int)
    ensures
        places.failed ==> places.give_locals(values, from).failed,
    decreases values.len() - from,
{
    if 0 <= from < values.len() {
        failing_gives(places.give_local(values[from]), values, from + 1);
    }
}

proof fn failing_walks(places: Places, program: Parts, region: RegionId, from: int)
    ensures
        places.failed ==> places.walk(program, region, from).failed,
    decreases program.rank(region), program.region_ops(region).len() - from,
{
    let ops = program.region_ops(region);
    if 0 <= from < ops.len() && places.failed {
        let results = program.values(program.region_results(region)[from]);
        let placed = places.place(program, ops[from], results);
        failing_gives(places, results, 0);
        assert(placed.failed);
        match ops[from] {
            Op::If { then_region, else_region, .. } => {
                if program.nests(region, then_region) && program.nests(region, else_region) {
                    let one = placed.enter(program, then_region);
                    let two = one.walk(program, then_region, 0);
                    let three = two.enter(program, else_region);
                    failing_enters(placed, program, then_region);
                    failing_walks(one, program, then_region, 0);
                    failing_enters(two, program, else_region);
                    failing_walks(three, program, else_region, 0);
                }
            },
            Op::Loop { body, .. } => {
                if program.nests(region, body) {
                    let one = placed.enter(program, body);
                    failing_enters(placed, program, body);
                    failing_walks(one, program, body, 0);
                }
            },
            _ => {},
        }
        failing_walks(op_walked(places, program, region, from), program, region, from + 1);
    }
}

/// A region that is entered places what it takes and what it defines.
proof fn an_inside_goes_on(places: Places, program: Parts, region: RegionId)
    requires
        program.wf(),
        region.0 < program.regions.len(),
        places.failed || places.source.len() == program.classes.len(),
        program.inside_is_single(region),
    ensures
        goes_on(
            places,
            places.enter(program, region).walk(program, region, 0),
            program.entered(region),
        ),
        places.failed ==> places.enter(program, region).walk(program, region, 0).failed,
    decreases program.rank(region), 2nat, 0int,
{
    let inside = places.enter(program, region);
    let end = inside.walk(program, region, 0);
    let params = ir::order::among(program.values(program.region(region).params));
    failing_enters(places, program, region);
    failing_walks(inside, program, region, 0);
    if !end.failed {
        entering_goes_on(places, program, region);
        a_walk_goes_on(inside, program, region, 0);
        going_on_chains(
            places,
            inside,
            end,
            params,
            program.given(region, 0),
            program.entered(region),
        );
    }
}

/// A walk places what the instructions it passes define.
proof fn a_walk_goes_on(places: Places, program: Parts, region: RegionId, from: int)
    requires
        program.wf(),
        region.0 < program.regions.len(),
        0 <= from <= program.region_ops(region).len(),
        places.source.len() == program.classes.len(),
        program.is_single(region, from),
    ensures
        goes_on(
            places,
            places.walk(program, region, from),
            program.given(region, from),
        ),
    decreases program.rank(region), 1nat, program.region_ops(region).len() - from,
{
    let end = places.walk(program, region, from);
    failing_walks(places, program, region, from);
    if from < program.region_ops(region).len() {
        let next = op_walked(places, program, region, from);
        assert(end == next.walk(program, region, from + 1));
        failing_walks(next, program, region, from + 1);
        if !end.failed {
            an_op_goes_on(places, program, region, from);
            a_walk_goes_on(next, program, region, from + 1);
            going_on_chains(
                places,
                next,
                end,
                program.op_given(region, from),
                program.given(region, from + 1),
                program.given(region, from),
            );
        }
    }
}

/// Whether a setting has values where a plan has them, and heeds what the
/// plan found.
spec fn is_settled(setting: Setting, places: Places, given: Set<ValueId>) -> bool {
    &&& forall|v: ValueId|
        #[trigger] given.contains(v) ==> setting.places.source[v.0 as int]
            == places.source[v.0 as int]
    &&& places.exits ==> setting.exits
    &&& setting.in_entry && places.returns_inside ==> setting.exits
}

/// What a walk placed is where it was to be.
proof fn a_walk_is_laid(setting: Setting, places: Places, region: RegionId, from: int)
    requires
        setting.program.wf(),
        region.0 < setting.program.regions.len(),
        0 <= from <= setting.program.region_ops(region).len(),
        places.source.len() == setting.program.classes.len(),
        setting.program.is_single(region, from),
        !places.walk(setting.program, region, from).failed,
        is_settled(
            setting,
            places.walk(setting.program, region, from),
            setting.program.given(region, from),
        ),
        setting.in_entry && setting.program.is_body(region) ==> region
            == setting.program.functions[0].body,
    ensures
        setting.is_laid(region, from),
    decreases
            setting.program.rank(region),
            1nat,
            setting.program.region_ops(region).len() - from,
{
    let program = setting.program;
    if from < program.region_ops(region).len() {
        let next = op_walked(places, program, region, from);
        let end = next.walk(program, region, from + 1);
        assert(places.walk(program, region, from) == end);
        failing_walks(next, program, region, from + 1);
        an_op_goes_on(places, program, region, from);
        a_walk_goes_on(next, program, region, from + 1);
        let own = program.op_given(region, from);
        let later = program.given(region, from + 1);
        assert(is_settled(setting, next, own)) by {
            assert forall|v: ValueId| #[trigger] own.contains(v) implies
                setting.places.source[v.0 as int] == next.source[v.0 as int] by {
                assert(program.given(region, from).contains(v));
                assert(!later.contains(v));
            }
        }
        assert(is_settled(setting, end, later)) by {
            assert forall|v: ValueId| #[trigger] later.contains(v) implies
                setting.places.source[v.0 as int] == end.source[v.0 as int] by {
                assert(program.given(region, from).contains(v));
            }
        }
        a_walk_is_laid(setting, next, region, from + 1);
        an_op_is_laid(setting, places, region, from);
    }
}

proof fn an_op_is_laid(setting: Setting, places: Places, region: RegionId, at: int)
    requires
        setting.program.wf(),
        region.0 < setting.program.regions.len(),
        0 <= at < setting.program.region_ops(region).len(),
        places.source.len() == setting.program.classes.len(),
        setting.program.op_is_single(region, at),
        !op_walked(places, setting.program, region, at).failed,
        is_settled(
            setting,
            op_walked(places, setting.program, region, at),
            setting.program.op_given(region, at),
        ),
    ensures
        setting.op_is_laid(region, at),
    decreases setting.program.rank(region), 0nat, 0int,
{
    let program = setting.program;
    let run = program.region_results(region)[at];
    let results = program.values(run);
    let op = program.region_ops(region)[at];
    let placed = places.place(program, op, results);
    let next = op_walked(places, program, region, at);
    let own = ir::order::among(results);
    ir::model::inside(program, region, at);
    ir::model::known_values(program, run);
    assert forall|i: int| 0 <= i < results.len() implies (#[trigger] results[i]).0
        < places.source.len() by {
        assert(program.known(results[i]));
    }
    placing_goes_on(places, program, op, results);
    match op {
        Op::Constant { .. } => {
            assert(results.len() == 1);
            assert(results.contains(results[0]));
            assert(program.op_given(region, at).contains(results[0]));
        },
        Op::AddressOf(_) => {
            assert(results.len() == 1);
            assert(results.contains(results[0]));
            assert(program.op_given(region, at).contains(results[0]));
        },
        Op::If { then_region, else_region, .. } => {
            let one = placed.enter(program, then_region);
            let two = one.walk(program, then_region, 0);
            let three = two.enter(program, else_region);
            failing_walks(three, program, else_region, 0);
            failing_enters(two, program, else_region);
            failing_walks(one, program, then_region, 0);
            failing_enters(placed, program, then_region);
            an_inside_goes_on(placed, program, then_region);
            an_inside_goes_on(two, program, else_region);
            entering_goes_on(placed, program, then_region);
            entering_goes_on(two, program, else_region);
            a_walk_goes_on(one, program, then_region, 0);
            a_walk_goes_on(three, program, else_region, 0);
            let inner = program.given(then_region, 0);
            assert(is_settled(setting, two, inner)) by {
                assert forall|v: ValueId| #[trigger] inner.contains(v) implies
                    setting.places.source[v.0 as int] == two.source[v.0 as int] by {
                    assert(program.entered(then_region).contains(v));
                    assert(program.op_given(region, at).contains(v));
                    assert(!program.entered(else_region).contains(v));
                }
            }
            let other = program.given(else_region, 0);
            assert(is_settled(setting, next, other)) by {
                assert forall|v: ValueId| #[trigger] other.contains(v) implies
                    setting.places.source[v.0 as int] == next.source[v.0 as int] by {
                    assert(program.entered(else_region).contains(v));
                    assert(program.op_given(region, at).contains(v));
                }
            }
            a_walk_is_laid(setting, one, then_region, 0);
            a_walk_is_laid(setting, three, else_region, 0);
        },
        Op::Loop { body, .. } => {
            let one = placed.enter(program, body);
            failing_walks(one, program, body, 0);
            failing_enters(placed, program, body);
            entering_goes_on(placed, program, body);
            let inner = program.given(body, 0);
            assert(is_settled(setting, next, inner)) by {
                assert forall|v: ValueId| #[trigger] inner.contains(v) implies
                    setting.places.source[v.0 as int] == next.source[v.0 as int] by {
                    assert(program.entered(body).contains(v));
                    assert(program.op_given(region, at).contains(v));
                }
            }
            a_walk_is_laid(setting, one, body, 0);
        },
        _ => {},
    }
}

/// A plan as a function begins with it.
spec fn begun(program: Parts, f: int) -> Places {
    Places { locals: 0, returns_inside: false, ..Places::functions(program, f) }
}

/// A function places what it defines, and what it takes comes first.
proof fn a_function_goes_on(program: Parts, f: FunctionId)
    requires
        program.wf(),
        program.orderly(),
        f.0 < program.functions.len(),
        Places::functions(program, f.0 as int).source.len() == program.classes.len(),
        !Places::functions(program, f.0 + 1).failed,
    ensures
        !Places::functions(program, f.0 as int).failed,
        goes_on(
            begun(program, f.0 as int),
            Places::functions(program, f.0 + 1),
            program.function_given(f),
        ),
        ({
            let taken = begun(program, f.0 as int).give_locals(
                program.values(program.function(f).params),
                0,
            );
            &&& taken.source.len() == program.classes.len()
            &&& Places::functions(program, f.0 + 1) == taken.walk(
                program,
                program.function(f).body,
                0,
            )
            &&& program.values(program.function(f).params).len() <= Places::functions(
                program,
                f.0 + 1,
            ).locals
        }),
        forall|i: int|
            0 <= i < program.values(program.function(f).params).len() ==> Places::functions(
                program,
                f.0 + 1,
            ).source[(#[trigger] program.values(program.function(f).params)[i]).0 as int]
                == Source::Local(i as u32),
{
    let start = begun(program, f.0 as int);
    let function = program.functions[f.0 as int];
    let params = program.values(function.params);
    let taken = start.give_locals(params, 0);
    let end = taken.walk(program, function.body, 0);
    let own = ir::order::among(params);
    let given = program.given(function.body, 0);
    assert(program.function_fits(program.functions[f.0 as int]));
    assert(program.function_is_single(f));
    ir::model::known_values(program, function.params);
    assert forall|i: int| 0 <= i < params.len() implies (#[trigger] params[i]).0
        < start.source.len() by {
        assert(program.known(params[i]));
    }
    assert(Places::functions(program, f.0 + 1) == start.function(program, function)) by {
        assert(Places::functions(program, f.0 as int).function(program, function)
            == start.function(program, function));
    }
    assert(start.function(program, function) == end);
    failing_gives(start, params, 0);
    failing_walks(taken, program, function.body, 0);
    locals_go_on(start, params, 0);
    assert(params.skip(0) =~= params);
    a_walk_goes_on(taken, program, function.body, 0);
    going_on_chains(start, taken, end, own, given, program.function_given(f));
    assert forall|i: int| 0 <= i < params.len() implies end.source[(
    #[trigger] params[i]).0 as int] == Source::Local(i as u32) by {
        assert(own.contains(params[i]));
        assert(!given.contains(params[i]));
    }
    assert(params.len() <= end.locals) by {
        if params.len() > 0 {
            let last = params[params.len() - 1];
            assert(own.contains(last));
            enough_are_given(start, params, 0);
        }
    }
}

proof fn enough_are_given(places: Places, values: Seq<ValueId>, from: int)
    requires
        0 <= from <= values.len(),
        !places.give_locals(values, from).failed,
    ensures
        places.give_locals(values, from).locals == places.locals + values.len() - from,
    decreases values.len() - from,
{
    if from < values.len() {
        let next = places.give_local(values[from]);
        failing_gives(next, values, from + 1);
        enough_are_given(next, values, from + 1);
    }
}

/// Nothing that is placed later gives away what was placed before.
proof fn functions_go_on(program: Parts, count: int)
    requires
        program.wf(),
        program.orderly(),
        0 <= count <= program.functions.len() <= u32::MAX,
        !Places::functions(program, count).failed,
    ensures
        Places::functions(program, count).source.len() == program.classes.len(),
        forall|f: FunctionId|
            f.0 < count ==> is_kept(program, #[trigger] Places::functions(program, f.0 + 1), f, count),
    decreases count,
{
    if count > 0 {
        let g = FunctionId((count - 1) as u32);
        let before = Places::functions(program, count - 1);
        let after = Places::functions(program, count);
        let function = program.functions[count - 1];
        let start = Places { locals: 0, returns_inside: false, ..before };
        let taken = start.give_locals(program.values(function.params), 0);
        failing_gives(start, program.values(function.params), 0);
        failing_walks(taken, program, function.body, 0);
        functions_go_on(program, count - 1);
        a_function_goes_on(program, g);
        assert forall|f: FunctionId| f.0 < count implies is_kept(
            program,
            #[trigger] Places::functions(program, f.0 + 1),
            f,
            count,
        ) by {
            let then = Places::functions(program, f.0 + 1);
            if f.0 < count - 1 {
                assert(is_kept(program, then, f, count - 1));
                assert forall|v: ValueId| #[trigger] program.function_given(f).contains(
                    v,
                ) implies after.source[v.0 as int] == then.source[v.0 as int] && v.0
                    < after.source.len() by {
                    assert(program.function_given(f).disjoint(program.function_given(g)));
                    assert(!program.function_given(g).contains(v));
                    assert(start.source[v.0 as int] == then.source[v.0 as int]);
                }
            } else {
                assert(f == g);
            }
        }
    }
}

/// Whether what a function was given is still its own.
spec fn is_kept(program: Parts, then: Places, f: FunctionId, count: int) -> bool {
    let now = Places::functions(program, count);
    &&& !then.failed
    &&& then.exits ==> now.exits
    &&& forall|v: ValueId|
        #[trigger] program.function_given(f).contains(v) ==> now.source[v.0 as int]
            == then.source[v.0 as int] && v.0 < now.source.len()
}

/// A function of a program that was placed has its values where they belong.
pub proof fn a_function_is_placed(program: Parts, f: FunctionId)
    requires
        program.wf(),
        program.orderly(),
        program.functions.len() <= u32::MAX,
        f.0 < program.functions.len(),
        !faithful::setting_of(program, f).places.failed,
    ensures
        faithful::are_apart(
            faithful::setting_of(program, f),
            program.function_given(f),
            Places::functions(program, f.0 + 1).locals,
        ),
        faithful::setting_of(program, f).is_laid(program.function(f).body, 0),
        Places::functions(program, f.0 + 1).locals <= u32::MAX,
        program.values(program.function(f).params).len() <= Places::functions(
            program,
            f.0 + 1,
        ).locals,
        forall|i: int|
            0 <= i < program.values(program.function(f).params).len()
                ==> faithful::setting_of(program, f).local(
                #[trigger] program.values(program.function(f).params)[i],
            ) == Some(i as u32),
{
    reveal(faithful::setting_of);
    let setting = faithful::setting_of(program, f);
    let count = program.functions.len() as int;
    let now = Places::functions(program, count);
    let then = Places::functions(program, f.0 + 1);
    let given = program.function_given(f);
    let body = program.function(f).body;
    let params = program.values(program.function(f).params);
    functions_go_on(program, count);
    assert(is_kept(program, then, f, count));
    earlier_is_sound(program, f.0 + 1, count);
    functions_go_on(program, f.0 as int);
    a_function_goes_on(program, f);
    assert(setting.places == now);
    let taken = begun(program, f.0 as int).give_locals(params, 0);
    assert(is_settled(setting, then, program.given(body, 0))) by {
        assert forall|v: ValueId| #[trigger] program.given(body, 0).contains(v) implies
            setting.places.source[v.0 as int] == then.source[v.0 as int] by {
            assert(given.contains(v));
        }
    }
    assert(program.function_fits(program.functions[f.0 as int]));
    assert(program.function_is_single(f));
    a_walk_is_laid(setting, taken, body, 0);
    assert forall|i: int| 0 <= i < params.len() implies setting.local(#[trigger] params[i])
        == Some(i as u32) by {
        assert(ir::order::among(params).contains(params[i]));
        assert(given.contains(params[i]));
    }
}

proof fn earlier_is_sound(program: Parts, earlier: int, later: int)
    requires
        0 <= earlier <= later,
        !Places::functions(program, later).failed,
    ensures
        !Places::functions(program, earlier).failed,
        earlier > 0 ==> !Places::functions(program, earlier - 1).failed,
    decreases later,
{
    if later > 0 {
        let function = program.functions[later - 1];
        let before = Places::functions(program, later - 1);
        let start = Places { locals: 0, returns_inside: false, ..before };
        let taken = start.give_locals(program.values(function.params), 0);
        failing_gives(start, program.values(function.params), 0);
        failing_walks(taken, program, function.body, 0);
        if earlier < later {
            earlier_is_sound(program, earlier, later - 1);
        }
    }
}

} // verus!
