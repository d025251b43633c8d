//! What this target cannot write.

use super::flow;
use super::lower;
use super::lower::{Around, Emitted, Setting};
use crate::ir::{Op, Parts, RegionId};
use vstd::prelude::*;

verus! {

/// A region that calls a routine this target lacks is not written.
proof fn a_lacking_region_fails(
    setting: Setting,
    out: Emitted,
    around: Around,
    region: RegionId,
    from: int,
)
    requires
        setting.program.region_lacks(region, from) is Some,
    ensures
        setting.region(out, around, region, from).failed,
    decreases setting.program.rank(region), setting.program.region_ops(region).len() - from,
{
    let program = setting.program;
    let run = program.region_results(region)[from];
    let next = setting.op_code(out, around, region, from).1;
    assert(setting.region(out, around, region, from) == setting.region(
        next,
        around,
        region,
        from + 1,
    ));
    match program.region_ops(region)[from] {
        Op::If { condition, then_region, else_region } => {
            if program.nests(region, then_region) && program.nests(region, else_region)
                && around.depth < u32::MAX {
                let within = Setting::inside_if(around, run);
                let opened = setting.push(out, condition).emit(seq![lower::IF, lower::EMPTY]);
                let then = setting.region(opened, within, then_region, 0);
                let turned = then.emit(seq![lower::ELSE]);
                if program.region_lacks(then_region, 0) is Some {
                    a_lacking_region_fails(setting, opened, within, then_region, 0);
                    flow::emitting_follows(then, seq![lower::ELSE]);
                    flow::a_region_is_printed(setting, turned, within, else_region, 0);
                } else if program.region_lacks(else_region, 0) is Some {
                    a_lacking_region_fails(setting, turned, within, else_region, 0);
                }
            }
        },
        Op::Loop { initial, body } => {
            if program.nests(region, body) && around.depth < u32::MAX - 1
                && program.region_lacks(body, 0) is Some {
                let params = program.region(body).params;
                let entered = setting.transfer(
                    out,
                    program.values(initial),
                    program.values(params),
                );
                a_lacking_region_fails(
                    setting,
                    entered.emit(seq![lower::BLOCK, lower::EMPTY, lower::LOOP, lower::EMPTY]),
                    Setting::inside_loop(around, params, run),
                    body,
                    0,
                );
            }
        },
        _ => {},
    }
    if next.failed {
        flow::a_region_is_printed(setting, next, around, region, from + 1);
    } else {
        a_lacking_region_fails(setting, next, around, region, from + 1);
    }
}

proof fn lacking_functions_fail(program: Parts, from: int)
    requires
        0 <= from <= program.functions.len(),
        program.lacks(from) is Some || lower::functions(program, from).1.failed,
    ensures
        lower::functions(program, program.functions.len() as int).1.failed,
    decreases program.functions.len() - from,
{
    if from < program.functions.len() {
        let before = lower::functions(program, from).1;
        let setting = lower::setting(program, from == 0);
        let start = Emitted { body: seq![], ..before };
        let nowhere = Around { depth: 0, yields: None, frame: None };
        let body = program.functions[from].body;
        if before.failed {
            flow::a_region_is_printed(setting, start, nowhere, body, 0);
            assert(lower::functions(program, from + 1).1.failed);
        } else if program.region_lacks(body, 0) is Some {
            a_lacking_region_fails(setting, start, nowhere, body, 0);
            assert(lower::functions(program, from + 1).1.failed);
        }
        lacking_functions_fail(program, from + 1);
    }
}

/// A program that calls a routine this target lacks is not written.
pub proof fn what_is_lacking_is_refused(program: Parts)
    requires
        program.lacks(0) is Some,
    ensures
        super::image(program) is None,
{
    lacking_functions_fail(program, 0);
}

} // verus!
