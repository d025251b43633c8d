//! What this target cannot write.

use super::assembler::Label;
use super::flow;
use super::lower;
use super::lower::{Around, Machine, Work};
use crate::ir::{FunctionId, Op, Parts, RegionId};
use vstd::prelude::*;

verus! {

/// A region that calls a routine this target lacks is not written.
proof fn a_lacking_region_fails(
    machine: Machine,
    work: Work,
    around: Around,
    region: RegionId,
    from: int,
)
    requires
        machine.program.region_lacks(region, from) is Some,
    ensures
        machine.region(work, around, region, from).code.failed,
    decreases machine.program.rank(region), machine.program.region_ops(region).len() - from,
{
    let program = machine.program;
    let run = program.region_results(region)[from];
    let next = flow::op_work(machine, work, around, region, from);
    assert(machine.region(work, around, region, from) == machine.region(
        next,
        around,
        region,
        from + 1,
    ));
    match program.region_ops(region)[from] {
        Op::If { condition, then_region, else_region } => {
            if program.nests(region, then_region) && program.nests(region, else_region) {
                let within = flow::inside_if(work, around, run);
                let tested = flow::asked(machine, work, condition);
                let then = machine.region(tested, within, then_region, 0);
                let turn = flow::turned(work, then);
                if program.region_lacks(then_region, 0) is Some {
                    a_lacking_region_fails(machine, tested, within, then_region, 0);
                    flow::a_region_grows(machine, turn, within, else_region, 0);
                } else if program.region_lacks(else_region, 0) is Some {
                    a_lacking_region_fails(machine, turn, within, else_region, 0);
                }
            }
        },
        Op::Loop { initial, body } => {
            if program.nests(region, body) && program.region_lacks(body, 0) is Some {
                a_lacking_region_fails(
                    machine,
                    flow::entered(machine, work, initial, body),
                    flow::inside_loop(machine, work, around, run, body),
                    body,
                    0,
                );
            }
        },
        _ => {},
    }
    if next.code.failed {
        flow::a_region_grows(machine, next, around, region, from + 1);
    } else {
        a_lacking_region_fails(machine, next, around, region, from + 1);
    }
}

/// A function that calls such a routine is not written, nor is one after
/// something that could not be.
proof fn a_lacking_function_fails(machine: Machine, work: Work, id: FunctionId)
    requires
        machine.program.region_lacks(machine.program.function(id).body, 0) is Some
            || work.code.failed,
    ensures
        machine.function(work, id).code.failed,
{
    reveal(Machine::function);
    let function = machine.program.function(id);
    let bound = Work { code: work.code.bind(Label(id.0 as usize)), frame: 0, ..work };
    let planned = machine.plan(bound, function.body);
    let opened = if planned.frame > 0 {
        Work { code: planned.code.open_frame(planned.frame), ..planned }
    } else {
        planned
    };
    let params = machine.program.values(function.params);
    let taken = machine.take_args(opened, params, 0);
    let nowhere = Around { branch: None, repeat: None };
    if machine.program.region_lacks(function.body, 0) is Some {
        a_lacking_region_fails(machine, taken, nowhere, function.body, 0);
    } else {
        super::placing::failing_plans(machine, bound, function.body);
        flow::a_frame_grows(planned.code, planned.frame);
        flow::taking_extends(machine, opened, params, 0);
        flow::a_region_grows(machine, taken, nowhere, function.body, 0);
    }
}

proof fn lacking_functions_fail(machine: Machine, work: Work, from: int)
    requires
        0 <= from <= machine.program.functions.len() <= u32::MAX,
        machine.program.lacks(from) is Some || machine.functions(work, from).code.failed,
    ensures
        machine.functions(work, machine.program.functions.len() as int).code.failed,
    decreases machine.program.functions.len() - from,
{
    if from < machine.program.functions.len() {
        let id = FunctionId(from as u32);
        let before = machine.functions(work, from);
        if before.code.failed || machine.program.region_lacks(
            machine.program.functions[from].body,
            0,
        ) is Some {
            a_lacking_function_fails(machine, before, id);
            assert(machine.functions(work, from + 1).code.failed);
        }
        lacking_functions_fail(machine, work, from + 1);
    }
}

proof fn a_lacking_program_never_settles(program: Parts, heap: u16, far: Seq<bool>)
    requires
        program.lacks(0) is Some,
    ensures
        lower::settled(program, heap, far) is None,
{
    if program.functions.len() <= u32::MAX {
        let machine = Machine { program, data: super::LOAD };
        let work = super::faithful::started(program, heap, far);
        reveal(lower::assembled);
        lacking_functions_fail(machine, work, 0);
    }
}

/// A program that calls a routine this target lacks is not written.
pub proof fn what_is_lacking_is_refused(program: Parts)
    requires
        program.lacks(0) is Some,
    ensures
        super::image(program) is None,
{
    a_lacking_program_never_settles(program, super::LOAD, seq![]);
}

} // verus!
