//! What this target cannot write.

use super::flow;
use super::lower;
use super::lower::{Around, Label, Stage, Work};
use crate::ir::{FunctionId, Op, Parts, RegionId};
use vstd::prelude::*;

verus! {

/// A region that calls a routine this target lacks is not written.
proof fn a_lacking_region_fails(
    stage: Stage,
    work: Work,
    around: Around,
    region: RegionId,
    from: int,
)
    requires
        stage.program.region_lacks(region, from) is Some,
    ensures
        stage.region(work, around, region, from).failed,
    decreases stage.program.rank(region), stage.program.region_ops(region).len() - from,
{
    let program = stage.program;
    let run = program.region_results(region)[from];
    let next = flow::op_work(stage, work, around, region, from);
    assert(stage.region(work, around, region, from) == stage.region(
        next,
        around,
        region,
        from + 1,
    ));
    match program.region_ops(region)[from] {
        Op::If { condition, then_region, else_region } => {
            if program.nests(region, then_region) && program.nests(region, else_region) {
                let within = flow::inside_if(work, around, run);
                let tested = flow::asked(stage, work, condition);
                let then = stage.region(tested, within, then_region, 0);
                let turned = then.bind(work.next());
                if program.region_lacks(then_region, 0) is Some {
                    a_lacking_region_fails(stage, tested, within, then_region, 0);
                    flow::a_region_grows(stage, turned, within, else_region, 0);
                } else if program.region_lacks(else_region, 0) is Some {
                    a_lacking_region_fails(stage, turned, within, else_region, 0);
                }
            }
        },
        Op::Loop { initial, body } => {
            if program.nests(region, body) && program.region_lacks(body, 0) is Some {
                a_lacking_region_fails(
                    stage,
                    flow::entered(stage, work, initial, body),
                    flow::inside_loop(stage, work, around, run, body),
                    body,
                    0,
                );
            }
        },
        _ => {},
    }
    if next.failed {
        flow::a_region_grows(stage, next, around, region, from + 1);
    } else {
        a_lacking_region_fails(stage, next, around, region, from + 1);
    }
}

/// What could not be written stays so, whatever follows.
proof fn a_failure_is_final(program: Parts, count: int)
    requires
        0 < count <= program.functions.len(),
        lower::functions(program, count - 1).failed,
    ensures
        lower::functions(program, count).failed,
{
    reveal(lower::function);
    let work = lower::functions(program, count - 1);
    let id = FunctionId((count - 1) as u32);
    let declared = program.function(id);
    let layout = lower::Layout::of(program, declared, id.0 == 0);
    let stage = Stage { program, layout, in_entry: id.0 == 0 };
    let bound = work.bind(Label(id.0 as usize));
    let opened = if layout.frame() > 0 {
        bound.emit(super::encode::open_frame(layout.frame() as u32))
    } else {
        bound
    };
    flow::a_region_grows(
        stage,
        opened,
        Around { branch: None, repeat: None },
        declared.body,
        0,
    );
}

proof fn lacking_functions_fail(program: Parts, from: int)
    requires
        0 <= from <= program.functions.len() <= u32::MAX,
        program.lacks(from) is Some || lower::functions(program, from).failed,
    ensures
        lower::functions(program, program.functions.len() as int).failed,
    decreases program.functions.len() - from,
{
    if from < program.functions.len() {
        let id = FunctionId(from as u32);
        if lower::functions(program, from).failed {
            a_failure_is_final(program, from + 1);
        } else if program.region_lacks(program.functions[from].body, 0) is Some {
            reveal(lower::function);
            let declared = program.function(id);
            let layout = lower::Layout::of(program, declared, id.0 == 0);
            let stage = Stage { program, layout, in_entry: id.0 == 0 };
            let bound = lower::functions(program, from).bind(Label(id.0 as usize));
            let opened = if layout.frame() > 0 {
                bound.emit(super::encode::open_frame(layout.frame() as u32))
            } else {
                bound
            };
            a_lacking_region_fails(
                stage,
                opened,
                Around { branch: None, repeat: None },
                declared.body,
                0,
            );
            assert(lower::functions(program, from + 1).failed);
        }
        lacking_functions_fail(program, from + 1);
    }
}

/// A program that calls a routine this target lacks is not written.
pub proof fn what_is_lacking_is_refused(program: Parts)
    requires
        program.lacks(0) is Some,
    ensures
        super::image(program) is None,
{
    if program.functions.len() <= u32::MAX {
        lacking_functions_fail(program, 0);
    }
}

} // verus!
