//! How code grows, and where its jumps lead.
//!
//! Code is written from front to back. What is written stays, but for the
//! holes left for distances, and every one of those lies in what was written
//! when it was left. So a run of code with no hole in it is in the end what it
//! was, and a jump leads to where its label landed.

use super::encode;
use super::encode::Reg;
use super::lower::{self, Around, Label, Source, Stage, Work};
use super::machine::{self, Ground, Inst, State, Went};
use crate::ir::{Class, Exit, FunctionId, Op, PlatformId, RegionId, Terminator, ValueId, Width};
use crate::targets::bytes;
use vstd::prelude::*;

verus! {

/// Whether one piece of writing goes on from another.
pub open spec fn grows(before: Work, after: Work) -> bool {
    &&& before.code.is_prefix_of(after.code)
    &&& before.jumps.is_prefix_of(after.jumps)
    &&& before.relocs.is_prefix_of(after.relocs)
    &&& before.labels.len() <= after.labels.len()
    &&& before.failed ==> after.failed
    &&& forall|j: int|
        before.jumps.len() <= j < after.jumps.len() ==> before.code.len() <= (
        #[trigger] after.jumps[j]).0 && after.jumps[j].0 + 4 <= after.code.len()
    &&& after.code.len() <= usize::MAX ==> forall|j: int|
        before.relocs.len() <= j < after.relocs.len() ==> before.code.len() <= (
        #[trigger] after.relocs[j]).offset && after.relocs[j].offset + 4 <= after.code.len()
    &&& are_spaced(after, before.jumps.len() as int, before.relocs.len() as int)
}

/// Whether distances to fill in lie apart, from some of them on.
pub open spec fn are_spaced(work: Work, jumps: int, relocs: int) -> bool {
    &&& forall|i: int, j: int|
        jumps <= i < j < work.jumps.len() ==> (#[trigger] work.jumps[i]).0 + 4 <= (
        #[trigger] work.jumps[j]).0
    &&& work.code.len() <= usize::MAX ==> forall|i: int, j: int|
        jumps <= i < work.jumps.len() && relocs <= j < work.relocs.len() ==> (
        #[trigger] work.jumps[i]).0 + 4 <= (#[trigger] work.relocs[j]).offset
            || work.relocs[j].offset + 4 <= work.jumps[i].0
    &&& work.code.len() <= usize::MAX ==> forall|i: int, j: int|
        relocs <= i < j < work.relocs.len() ==> (#[trigger] work.relocs[i]).offset + 4 <= (
        #[trigger] work.relocs[j]).offset
}

/// Whether it does, and binds no label.
pub open spec fn extends(before: Work, after: Work) -> bool {
    &&& grows(before, after)
    &&& after.labels == before.labels
}

/// Whether the first labels are where they were.
pub open spec fn keeps_labels(before: Work, after: Work, count: nat) -> bool {
    &&& count <= before.labels.len()
    &&& forall|l: int| 0 <= l < count ==> #[trigger] after.labels[l] == before.labels[l]
}

pub(super) proof fn growth_chains(first: Work, second: Work, third: Work)
    requires
        grows(first, second),
        grows(second, third),
    ensures
        grows(first, third),
{
    assert forall|i: int| 0 <= i < first.code.len() implies first.code[i] == third.code[i] by {
        assert(first.code[i] == second.code[i]);
    }
    assert forall|i: int| 0 <= i < first.jumps.len() implies first.jumps[i] == third.jumps[i] by {
        assert(first.jumps[i] == second.jumps[i]);
    }
    assert forall|i: int| 0 <= i < first.relocs.len() implies first.relocs[i]
        == third.relocs[i] by {
        assert(first.relocs[i] == second.relocs[i]);
    }
    assert forall|j: int| first.jumps.len() <= j < third.jumps.len() implies first.code.len() <= (
    #[trigger] third.jumps[j]).0 && third.jumps[j].0 + 4 <= third.code.len() by {
        if j < second.jumps.len() {
            assert(second.jumps[j] == third.jumps[j]);
        }
    }
    if third.code.len() <= usize::MAX {
        assert forall|j: int| first.relocs.len() <= j < third.relocs.len() implies first.code.len()
            <= (#[trigger] third.relocs[j]).offset && third.relocs[j].offset + 4
            <= third.code.len() by {
            if j < second.relocs.len() {
                assert(second.relocs[j] == third.relocs[j]);
            }
        }
    }
    spacing_chains(
        second,
        third,
        first.jumps.len() as int,
        first.relocs.len() as int,
    );
}

/// What was apart stays apart, and from what is added.
proof fn spacing_chains(before: Work, after: Work, jumps: int, relocs: int)
    requires
        0 <= jumps <= before.jumps.len(),
        0 <= relocs <= before.relocs.len(),
        grows(before, after),
        are_spaced(before, jumps, relocs),
        forall|j: int|
            jumps <= j < before.jumps.len() ==> (#[trigger] before.jumps[j]).0 + 4
                <= before.code.len(),
        before.code.len() <= usize::MAX ==> forall|j: int|
            relocs <= j < before.relocs.len() ==> (#[trigger] before.relocs[j]).offset + 4
                <= before.code.len(),
    ensures
        are_spaced(after, jumps, relocs),
{
    assert forall|i: int, j: int| jumps <= i < j < after.jumps.len() implies (
    #[trigger] after.jumps[i]).0 + 4 <= (#[trigger] after.jumps[j]).0 by {
        if i < before.jumps.len() {
            assert(before.jumps[i] == after.jumps[i]);
        }
        if j < before.jumps.len() {
            assert(before.jumps[j] == after.jumps[j]);
        }
    }
    if after.code.len() <= usize::MAX {
        assert forall|i: int, j: int|
            jumps <= i < after.jumps.len() && relocs <= j < after.relocs.len() implies (
        #[trigger] after.jumps[i]).0 + 4 <= (#[trigger] after.relocs[j]).offset
            || after.relocs[j].offset + 4 <= after.jumps[i].0 by {
            if i < before.jumps.len() {
                assert(before.jumps[i] == after.jumps[i]);
            }
            if j < before.relocs.len() {
                assert(before.relocs[j] == after.relocs[j]);
            }
        }
        assert forall|i: int, j: int| relocs <= i < j < after.relocs.len() implies (
        #[trigger] after.relocs[i]).offset + 4 <= (#[trigger] after.relocs[j]).offset by {
            if i < before.relocs.len() {
                assert(before.relocs[i] == after.relocs[i]);
            }
            if j < before.relocs.len() {
                assert(before.relocs[j] == after.relocs[j]);
            }
        }
    }
}

pub(super) proof fn extending_chains(first: Work, second: Work, third: Work)
    requires
        extends(first, second),
        extends(second, third),
    ensures
        extends(first, third),
{
    growth_chains(first, second, third);
}

pub(super) proof fn writing_extends(work: Work, code: Seq<u8>)
    ensures
        extends(work, work.emit(code)),
{
}

pub(super) proof fn a_hole_is_four()
    ensures
        encode::hole().len() == 4,
        encode::jump().len() == 5,
        encode::call().len() == 5,
        forall|cc: u8| (#[trigger] encode::jump_if(cc)).len() == 6,
{
    bytes::little_endian_length(0, 4);
}

/// A jump, or a call, of whatever kind.
pub(super) proof fn going_toward_extends(work: Work, code: Seq<u8>, label: Label)
    requires
        code.len() >= 4,
    ensures
        extends(work, work.toward(code, label)),
{
}

pub(super) proof fn a_constant_extends(work: Work, dst: Reg, value: u64)
    ensures
        extends(work, work.load_const(dst, value)),
{
}

proof fn an_address_extends(work: Work, dst: Reg, data: crate::ir::DataId)
    ensures
        extends(work, work.load_addr(dst, data)),
{
    a_hole_is_four();
    assert(encode::lea_rip(dst).len() >= 4);
}

pub(super) proof fn reading_extends(stage: Stage, work: Work, dst: Reg, value: ValueId)
    ensures
        extends(work, stage.read(work, dst, value)),
{
    match stage.layout.source[value.0 as int] {
        Source::Const(word) => {
            a_constant_extends(work, dst, word);
        },
        Source::Addr(data) => {
            an_address_extends(work, dst, data);
        },
        _ => {},
    }
}

pub(super) proof fn keeping_extends(stage: Stage, work: Work, value: ValueId)
    ensures
        extends(work, stage.keep(work, value)),
{
}

pub(super) proof fn a_pair_extends(stage: Stage, work: Work, left: ValueId, right: ValueId)
    ensures
        extends(work, stage.pair(work, left, right)),
{
    let half = stage.read(work, Reg::Rax, left);
    reading_extends(stage, work, Reg::Rax, left);
    reading_extends(stage, half, Reg::Rcx, right);
    extending_chains(work, half, stage.pair(work, left, right));
}

pub(super) proof fn a_stash_extends(stage: Stage, work: Work, sources: Seq<ValueId>, from: int)
    ensures
        extends(work, stage.stash(work, sources, from)),
    decreases sources.len() - from,
{
    if 0 <= from < sources.len() && from < stage.layout.widest {
        let held = stage.read(work, Reg::Rax, sources[from]);
        let next = held.store_slot(stage.layout.scratch(from as nat));
        reading_extends(stage, work, Reg::Rax, sources[from]);
        extending_chains(work, held, next);
        a_stash_extends(stage, next, sources, from + 1);
        extending_chains(work, next, stage.stash(work, sources, from));
    }
}

pub(super) proof fn an_unstash_extends(stage: Stage, work: Work, values: Seq<ValueId>, from: int)
    ensures
        extends(work, stage.unstash(work, values, from)),
    decreases values.len() - from,
{
    if 0 <= from < values.len() && from < stage.layout.widest {
        let held = work.load_slot(Reg::Rax, stage.layout.scratch(from as nat));
        let next = stage.keep(held, values[from]);
        keeping_extends(stage, held, values[from]);
        extending_chains(work, held, next);
        an_unstash_extends(stage, next, values, from + 1);
        extending_chains(work, next, stage.unstash(work, values, from));
    }
}

pub(super) proof fn a_transfer_extends(
    stage: Stage,
    work: Work,
    sources: Seq<ValueId>,
    destinations: Seq<ValueId>,
)
    ensures
        extends(work, stage.transfer(work, sources, destinations)),
{
    let mid = stage.stash(work, sources, 0);
    a_stash_extends(stage, work, sources, 0);
    an_unstash_extends(stage, mid, destinations, 0);
    extending_chains(work, mid, stage.unstash(mid, destinations, 0));
}

pub(super) proof fn answering_extends(stage: Stage, work: Work, count: nat, from: int)
    ensures
        extends(work, stage.answer(work, count, from)),
    decreases count - from,
{
    if 0 <= from < count && from < stage.layout.widest && stage.passed(from as nat) is Some {
        let held = work.load_slot(Reg::Rax, stage.layout.scratch(from as nat));
        let next = held.store_slot(stage.layout.passed(from as nat));
        extending_chains(work, held, next);
        answering_extends(stage, next, count, from + 1);
        extending_chains(work, next, stage.answer(work, count, from));
    }
}

pub(super) proof fn passing_extends(stage: Stage, work: Work, args: Seq<ValueId>, from: int)
    ensures
        extends(work, stage.pass(work, args, from)),
    decreases args.len() - from,
{
    if 0 <= from < args.len() && from < stage.layout.outgoing {
        let held = stage.read(work, Reg::Rax, args[from]);
        let next = held.store_slot(8 * from as nat);
        reading_extends(stage, work, Reg::Rax, args[from]);
        extending_chains(work, held, next);
        passing_extends(stage, next, args, from + 1);
        extending_chains(work, next, stage.pass(work, args, from));
    }
}

pub(super) proof fn taking_extends(stage: Stage, work: Work, results: Seq<ValueId>, from: int)
    ensures
        extends(work, stage.take(work, results, from)),
    decreases results.len() - from,
{
    if 0 <= from < results.len() && from < stage.layout.outgoing {
        let held = work.load_slot(Reg::Rax, 8 * from as nat);
        let next = stage.keep(held, results[from]);
        keeping_extends(stage, held, results[from]);
        extending_chains(work, held, next);
        taking_extends(stage, next, results, from + 1);
        extending_chains(work, next, stage.take(work, results, from));
    }
}

pub(super) proof fn a_call_extends(
    stage: Stage,
    work: Work,
    function: FunctionId,
    args: Seq<ValueId>,
    results: Seq<ValueId>,
)
    ensures
        extends(work, stage.call(work, function, args, results)),
{
    let passed = stage.pass(work, args, 0);
    let called = passed.call(Label(function.0 as usize)).forget();
    passing_extends(stage, work, args, 0);
    a_hole_is_four();
    going_toward_extends(passed, encode::call(), Label(function.0 as usize));
    assert(extends(passed, called));
    extending_chains(work, passed, called);
    taking_extends(stage, called, results, 0);
    extending_chains(work, called, stage.call(work, function, args, results));
}

proof fn a_load_extends(
    stage: Stage,
    work: Work,
    width: Width,
    address: ValueId,
    offset: crate::ir::Offset,
    result: ValueId,
)
    ensures
        extends(work, stage.load_at(work, width, address, offset, result)),
{
    let held = stage.read(work, Reg::Rcx, address);
    reading_extends(stage, work, Reg::Rcx, address);
    if lower::reachable(offset) {
        let disp = lower::distance(offset) as i32;
        let loaded = match width {
            Width::Byte => held.emit(encode::load_byte(disp)),
            Width::Word => held.emit(encode::load_word(disp)),
        };
        assert(extends(held, loaded));
        extending_chains(work, held, loaded);
        keeping_extends(stage, loaded, result);
        extending_chains(work, loaded, stage.keep(loaded, result));
    } else {
        extending_chains(work, held, held.fail());
    }
}

proof fn a_store_extends(
    stage: Stage,
    work: Work,
    width: Width,
    address: ValueId,
    offset: crate::ir::Offset,
    value: ValueId,
)
    ensures
        extends(work, stage.store_at(work, width, address, offset, value)),
{
    let held = stage.pair(work, value, address);
    let end = stage.store_at(work, width, address, offset, value);
    a_pair_extends(stage, work, value, address);
    assert(extends(held, end));
    extending_chains(work, held, end);
}

pub(super) proof fn asking_extends(work: Work)
    ensures
        extends(work, work.syscall()),
{
}

proof fn growing_extends(stage: Stage, work: Work, size: ValueId, result: ValueId)
    ensures
        extends(work, stage.grow(work, size, result)),
{
    let one = work.load_const(Reg::Rax, lower::SYS_BRK);
    let two = one.load_const(Reg::Rdi, 0);
    let three = two.syscall();
    let found = stage.keep(three, result);
    let four = stage.read(found, Reg::Rdi, size);
    let five = four.alu(0x01, Reg::Rdi, Reg::Rax);
    let six = five.load_const(Reg::Rax, lower::SYS_BRK);
    a_constant_extends(work, Reg::Rax, lower::SYS_BRK);
    a_constant_extends(one, Reg::Rdi, 0);
    extending_chains(work, one, two);
    asking_extends(two);
    extending_chains(work, two, three);
    keeping_extends(stage, three, result);
    extending_chains(work, three, found);
    reading_extends(stage, found, Reg::Rdi, size);
    extending_chains(work, found, four);
    assert(extends(four, five));
    extending_chains(work, four, five);
    a_constant_extends(five, Reg::Rax, lower::SYS_BRK);
    extending_chains(work, five, six);
    asking_extends(six);
    extending_chains(work, six, six.syscall());
}

pub(super) proof fn stopping_extends(stage: Stage, work: Work, value: ValueId)
    ensures
        extends(
            work,
            stage.read(work.load_const(Reg::Rax, lower::SYS_EXIT), Reg::Rdi, value).syscall(),
        ),
{
    let one = work.load_const(Reg::Rax, lower::SYS_EXIT);
    let two = stage.read(one, Reg::Rdi, value);
    a_constant_extends(work, Reg::Rax, lower::SYS_EXIT);
    reading_extends(stage, one, Reg::Rdi, value);
    extending_chains(work, one, two);
    asking_extends(two);
    extending_chains(work, two, two.syscall());
}

proof fn a_platform_call_extends(
    stage: Stage,
    work: Work,
    platform: PlatformId,
    args: Seq<ValueId>,
    results: Seq<ValueId>,
)
    ensures
        extends(work, stage.platform_call(work, platform, args, results)),
{
    let one = work.load_const(Reg::Rax, lower::SYS_WRITE);
    let two = one.load_const(Reg::Rdi, lower::STDOUT);
    let three = stage.read(two, Reg::Rsi, args[0]);
    let four = stage.read(three, Reg::Rdx, args[1]);
    a_constant_extends(work, Reg::Rax, lower::SYS_WRITE);
    a_constant_extends(one, Reg::Rdi, lower::STDOUT);
    extending_chains(work, one, two);
    reading_extends(stage, two, Reg::Rsi, args[0]);
    extending_chains(work, two, three);
    reading_extends(stage, three, Reg::Rdx, args[1]);
    extending_chains(work, three, four);
    asking_extends(four);
    extending_chains(work, four, four.syscall());
    stopping_extends(stage, work, args[0]);
    growing_extends(stage, work, args[0], results[0]);
}

pub(super) proof fn narrowing_extends(work: Work, class: Class)
    ensures
        extends(work, work.narrow(class)),
{
    match class {
        Class::Fixed { bits } => {
            if bits < 64 {
                let half = work.load_const(
                    Reg::Rcx,
                    crate::ir::model::wrapped(class, u64::MAX),
                );
                a_constant_extends(
                    work,
                    Reg::Rcx,
                    crate::ir::model::wrapped(class, u64::MAX),
                );
                assert(extends(half, half.alu(0x21, Reg::Rax, Reg::Rcx)));
                extending_chains(work, half, half.alu(0x21, Reg::Rax, Reg::Rcx));
            }
        },
        _ => {},
    }
}

/// An instruction that holds no regions.
pub(super) proof fn a_simple_one_extends(
    stage: Stage,
    work: Work,
    op: Op,
    results: Seq<ValueId>,
)
    ensures
        extends(work, stage.simple(work, op, results)),
{
    match op {
        Op::Binary { op: how, left, right } => {
            let both = stage.pair(work, left, right);
            let made = both.alu(Stage::opcode(how), Reg::Rax, Reg::Rcx);
            let class = stage.program.class(results[0]);
            let last = made.narrow(class);
            a_pair_extends(stage, work, left, right);
            assert(extends(both, made));
            extending_chains(work, both, made);
            narrowing_extends(made, class);
            extending_chains(work, made, last);
            keeping_extends(stage, last, results[0]);
            extending_chains(work, last, stage.keep(last, results[0]));
        },
        Op::Compare { relation, left, right } => {
            let both = stage.pair(work, left, right);
            let one = both.emit(encode::alu(0x39, Reg::Rax, Reg::Rcx));
            let last = one.emit(encode::set_if(Stage::condition(relation), Reg::Rax));
            a_pair_extends(stage, work, left, right);
            extending_chains(work, both, one);
            extending_chains(work, one, last);
            keeping_extends(stage, last, results[0]);
            extending_chains(work, last, stage.keep(last, results[0]));
        },
        Op::Load { width, address, offset } => {
            a_load_extends(stage, work, width, address, offset, results[0]);
        },
        Op::Store { width, address, offset, value } => {
            a_store_extends(stage, work, width, address, offset, value);
        },
        Op::Convert { class, value } => {
            let held = stage.read(work, Reg::Rax, value);
            let last = held.narrow(class);
            reading_extends(stage, work, Reg::Rax, value);
            narrowing_extends(held, class);
            extending_chains(work, held, last);
            keeping_extends(stage, last, results[0]);
            extending_chains(work, last, stage.keep(last, results[0]));
        },
        Op::PlatformCall { platform, args } => {
            a_platform_call_extends(stage, work, platform, stage.program.values(args), results);
        },
        Op::Call { function, args } => {
            a_call_extends(stage, work, function, stage.program.values(args), results);
        },
        _ => {},
    }
}

pub(super) proof fn leaving_extends(stage: Stage, work: Work, values: Seq<ValueId>)
    ensures
        extends(work, stage.leave(work, values)),
{
    if stage.in_entry {
        let called = work.load_const(Reg::Rax, lower::SYS_EXIT);
        if values.len() > 0 {
            stopping_extends(stage, work, values[0]);
        } else {
            let told = called.load_const(Reg::Rdi, 0);
            a_constant_extends(work, Reg::Rax, lower::SYS_EXIT);
            a_constant_extends(called, Reg::Rdi, 0);
            extending_chains(work, called, told);
            asking_extends(told);
            extending_chains(work, told, told.syscall());
        }
    } else {
        let stashed = stage.stash(work, values, 0);
        let answered = stage.answer(stashed, values.len(), 0);
        a_stash_extends(stage, work, values, 0);
        answering_extends(stage, stashed, values.len(), 0);
        extending_chains(work, stashed, answered);
        let closed = if stage.layout.frame() > 0 {
            answered.emit(encode::close_frame(stage.layout.frame() as u32))
        } else {
            answered
        };
        assert(extends(answered, closed));
        extending_chains(work, answered, closed);
        extending_chains(work, closed, closed.emit(encode::ret()));
    }
}

pub(super) proof fn an_end_extends(stage: Stage, work: Work, around: Around, end: Terminator)
    ensures
        extends(work, stage.terminator(work, around, end)),
{
    let values = stage.program.values(end.values);
    match end.exit {
        Exit::Yield => {
            if let Some((results, after)) = around.branch {
                a_handing_over_extends(stage, work, values, stage.program.values(results), after);
            }
        },
        Exit::Continue => {
            if let Some((params, head, _, _)) = around.repeat {
                a_handing_over_extends(stage, work, values, stage.program.values(params), head);
            }
        },
        Exit::Break => {
            if let Some((_, _, results, after)) = around.repeat {
                a_handing_over_extends(stage, work, values, stage.program.values(results), after);
            }
        },
        Exit::Return => {
            leaving_extends(stage, work, values);
        },
        Exit::Unreachable => {},
    }
}

pub(super) proof fn a_handing_over_extends(
    stage: Stage,
    work: Work,
    values: Seq<ValueId>,
    destinations: Seq<ValueId>,
    label: Label,
)
    ensures
        extends(work, stage.transfer(work, values, destinations).jump(label)),
{
    let moved = stage.transfer(work, values, destinations);
    a_transfer_extends(stage, work, values, destinations);
    a_hole_is_four();
    going_toward_extends(moved, encode::jump(), label);
    extending_chains(work, moved, moved.jump(label));
}


/// One instruction of a region, with the regions inside it.
pub open spec fn op_work(stage: Stage, work: Work, around: Around, region: RegionId, at: int)
    -> Work {
    let results = stage.program.region_results(region)[at];
    match stage.program.region_ops(region)[at] {
        Op::If { condition, then_region, else_region } => if stage.program.nests(
            region,
            then_region,
        ) && stage.program.nests(region, else_region) {
            let then = stage.region(
                asked(stage, work, condition),
                inside_if(work, around, results),
                then_region,
                0,
            );
            stage.region(
                then.bind(work.next()),
                inside_if(work, around, results),
                else_region,
                0,
            ).bind(work.label().next())
        } else {
            work.fail()
        },
        Op::Loop { initial, body } => if stage.program.nests(region, body) {
            stage.region(
                entered(stage, work, initial, body),
                inside_loop(stage, work, around, results, body),
                body,
                0,
            ).bind(work.label().next())
        } else {
            work.fail()
        },
        op => stage.simple(work, op, stage.program.values(results)),
    }
}

/// What the arms of a choice stand in.
pub open spec fn inside_if(work: Work, around: Around, results: crate::ir::Range) -> Around {
    Around { branch: Some((results, work.label().next())), ..around }
}

/// A choice, up to where its first arm begins.
pub open spec fn asked(stage: Stage, work: Work, condition: ValueId) -> Work {
    stage.read(work.label().label(), Reg::Rax, condition).emit(
        encode::alu(0x85, Reg::Rax, Reg::Rax),
    ).jump_if(lower::EQUAL, work.next())
}

/// What the body of a loop stands in.
pub open spec fn inside_loop(
    stage: Stage,
    work: Work,
    around: Around,
    results: crate::ir::Range,
    body: RegionId,
) -> Around {
    Around {
        repeat: Some(
            (stage.program.region(body).params, work.next(), results, work.label().next()),
        ),
        ..around
    }
}

/// A loop, up to where its body begins.
pub open spec fn entered(
    stage: Stage,
    work: Work,
    initial: crate::ir::Range,
    body: RegionId,
) -> Work {
    stage.transfer(
        work.label().label(),
        stage.program.values(initial),
        stage.program.values(stage.program.region(body).params),
    ).bind(work.next())
}

/// Whether writing goes on, and labels there were are where they were.
pub open spec fn goes_further(before: Work, after: Work) -> bool {
    &&& grows(before, after)
    &&& after.labels.len() <= usize::MAX ==> keeps_labels(before, after, before.labels.len())
}

/// A label that was made lately lands here.
pub(super) proof fn binding_grows(start: Work, work: Work, label: Label, index: nat)
    requires
        goes_further(start, work),
        start.labels.len() <= index < work.labels.len(),
        label.0 == index as usize,
    ensures
        goes_further(start, work.bind(label)),
        grows(work, work.bind(label)),
        work.bind(label).labels.len() == work.labels.len(),
        work.labels.len() <= usize::MAX ==> label.0 == index && work.bind(label).labels[index as int]
            == Some(work.code.len()),
{
    assert(label.0 < work.labels.len()) by {
        if index <= usize::MAX {
            assert(index as usize == index);
        }
    }
    let after = work.bind(label);
    assert(grows(work, after));
    growth_chains(start, work, after);
    if after.labels.len() <= usize::MAX {
        assert(label.0 == index);
        assert forall|l: int| 0 <= l < start.labels.len() implies #[trigger] after.labels[l]
            == start.labels[l] by {
            assert(work.labels[l] == start.labels[l]);
        }
    }
}

pub(super) proof fn going_further_chains(first: Work, second: Work, third: Work)
    requires
        goes_further(first, second),
        goes_further(second, third),
    ensures
        goes_further(first, third),
{
    growth_chains(first, second, third);
    if third.labels.len() <= usize::MAX {
        assert forall|l: int| 0 <= l < first.labels.len() implies #[trigger] third.labels[l]
            == first.labels[l] by {
            assert(second.labels[l] == first.labels[l]);
        }
    }
}

/// Two labels more.
pub(super) proof fn labels_go_further(work: Work)
    ensures
        goes_further(work, work.label().label()),
        work.label().label().labels.len() == work.labels.len() + 2,
{
}

/// A choice, up to where its first arm begins.
pub(super) proof fn asking_grows(stage: Stage, work: Work, condition: ValueId)
    ensures
        goes_further(work, asked(stage, work, condition)),
        extends(work.label().label(), asked(stage, work, condition)),
        asked(stage, work, condition).labels.len() == work.labels.len() + 2,
{
    let start = work.label().label();
    let held = stage.read(start, Reg::Rax, condition);
    let tested = held.emit(encode::alu(0x85, Reg::Rax, Reg::Rax));
    labels_go_further(work);
    a_hole_is_four();
    reading_extends(stage, start, Reg::Rax, condition);
    extending_chains(start, held, tested);
    going_toward_extends(tested, encode::jump_if(lower::EQUAL), work.next());
    extending_chains(start, tested, asked(stage, work, condition));
    going_further_chains(work, start, asked(stage, work, condition));
}

/// A loop, up to where its body begins.
pub(super) proof fn entering_grows(
    stage: Stage,
    work: Work,
    initial: crate::ir::Range,
    body: RegionId,
)
    ensures
        goes_further(work, entered(stage, work, initial, body)),
        grows(work.label().label(), entered(stage, work, initial, body)),
        entered(stage, work, initial, body).labels.len() == work.labels.len() + 2,
        work.labels.len() + 2 <= usize::MAX ==> entered(
            stage,
            work,
            initial,
            body,
        ).labels[work.labels.len() as int] == Some(entered(stage, work, initial, body).code.len()),
{
    let start = work.label().label();
    let sources = stage.program.values(initial);
    let params = stage.program.values(stage.program.region(body).params);
    let moved = stage.transfer(start, sources, params);
    labels_go_further(work);
    a_transfer_extends(stage, start, sources, params);
    going_further_chains(work, start, moved);
    binding_grows(work, moved, work.next(), work.labels.len());
    growth_chains(start, moved, entered(stage, work, initial, body));
}

/// An instruction is written after what is there.
pub(super) proof fn an_op_grows(
    stage: Stage,
    work: Work,
    around: Around,
    region: RegionId,
    at: int,
)
    ensures
        goes_further(work, op_work(stage, work, around, region, at)),
    decreases stage.program.rank(region), 0nat, 0int,
{
    let run = stage.program.region_results(region)[at];
    let next = op_work(stage, work, around, region, at);
    let n = work.labels.len();
    match stage.program.region_ops(region)[at] {
        Op::If { condition, then_region, else_region } => {
            if stage.program.nests(region, then_region) && stage.program.nests(
                region,
                else_region,
            ) {
                let within = inside_if(work, around, run);
                let tested = asked(stage, work, condition);
                let then = stage.region(tested, within, then_region, 0);
                let turned = then.bind(work.next());
                let other = stage.region(turned, within, else_region, 0);
                asking_grows(stage, work, condition);
                a_region_grows(stage, tested, within, then_region, 0);
                going_further_chains(work, tested, then);
                binding_grows(work, then, work.next(), n);
                a_region_grows(stage, turned, within, else_region, 0);
                going_further_chains(work, turned, other);
                binding_grows(work, other, work.label().next(), n + 1);
            }
        },
        Op::Loop { initial, body } => {
            if stage.program.nests(region, body) {
                let within = inside_loop(stage, work, around, run, body);
                let start = entered(stage, work, initial, body);
                let done = stage.region(start, within, body, 0);
                entering_grows(stage, work, initial, body);
                a_region_grows(stage, start, within, body, 0);
                going_further_chains(work, start, done);
                binding_grows(work, done, work.label().next(), n + 1);
            }
        },
        op => {
            a_simple_one_extends(stage, work, op, stage.program.values(run));
        },
    }
}

/// A region is written after what is there.
pub(super) proof fn a_region_grows(
    stage: Stage,
    work: Work,
    around: Around,
    region: RegionId,
    from: int,
)
    ensures
        goes_further(work, stage.region(work, around, region, from)),
    decreases stage.program.rank(region), 1nat, stage.program.region_ops(region).len() - from,
{
    let end = stage.region(work, around, region, from);
    if from < 0 || from >= stage.program.region_ops(region).len() {
        an_end_extends(stage, work, around, stage.program.region(region).terminator);
    } else {
        let next = op_work(stage, work, around, region, from);
        an_op_grows(stage, work, around, region, from);
        assert(end == stage.region(next, around, region, from + 1));
        a_region_grows(stage, next, around, region, from + 1);
        going_further_chains(work, next, end);
    }
}

/// Whether every distance to fill in lies in what is written.
pub open spec fn is_within(work: Work) -> bool {
    &&& forall|j: int|
        0 <= j < work.jumps.len() ==> (#[trigger] work.jumps[j]).0 + 4 <= work.code.len()
    &&& work.code.len() <= usize::MAX ==> forall|j: int|
        0 <= j < work.relocs.len() ==> (#[trigger] work.relocs[j]).offset + 4 <= work.code.len()
    &&& are_spaced(work, 0, 0)
}

pub(super) proof fn what_grows_stays_within(before: Work, after: Work)
    requires
        is_within(before),
        grows(before, after),
    ensures
        is_within(after),
{
    assert forall|j: int| 0 <= j < after.jumps.len() implies (#[trigger] after.jumps[j]).0 + 4
        <= after.code.len() by {
        if j < before.jumps.len() {
            assert(before.jumps[j] == after.jumps[j]);
        }
    }
    if after.code.len() <= usize::MAX {
        assert forall|j: int| 0 <= j < after.relocs.len() implies (
        #[trigger] after.relocs[j]).offset + 4 <= after.code.len() by {
            if j < before.relocs.len() {
                assert(before.relocs[j] == after.relocs[j]);
            }
        }
    }
    spacing_chains(before, after, 0, 0);
}

/// Whether a byte belongs to a distance that is filled in later.
pub open spec fn is_hole(work: Work, i: int) -> bool {
    ||| exists|j: int|
        0 <= j < work.jumps.len() && (#[trigger] work.jumps[j]).0 <= i < work.jumps[j].0 + 4
    ||| exists|j: int|
        0 <= j < work.relocs.len() && (#[trigger] work.relocs[j]).offset <= i
            < work.relocs[j].offset + 4
}

/// Whether code is what was written, with its jumps filled in, and what else
/// there is to fill in filled in somehow.
pub open spec fn fills(done: Work, whole: Seq<u8>) -> bool {
    &&& done.resolved(whole)
    &&& forall|i: int|
        0 <= i < whole.len() && !is_hole(done, i) ==> #[trigger] whole[i] == done.code[i]
}

/// Whether all of it is written and can be loaded.
pub open spec fn is_loaded(done: Work, whole: Seq<u8>, origin: int) -> bool {
    &&& done.closes()
    &&& fills(done, whole)
    &&& done.labels.len() <= usize::MAX
    &&& done.code.len() <= usize::MAX
    &&& 0 <= origin
    &&& origin + done.code.len() <= u64::MAX
}

proof fn between_there_are_no_holes(before: Work, after: Work, done: Work, i: int)
    requires
        is_within(before),
        grows(before, after),
        grows(after, done),
        done.code.len() <= usize::MAX,
        !machine::is_open(after.relocs, before.relocs.len(), i),
        before.code.len() <= i < after.code.len(),
        forall|j: int|
            before.jumps.len() <= j < after.jumps.len() ==> i < (#[trigger] after.jumps[j]).0,
    ensures
        !is_hole(done, i),
        done.code[i] == after.code[i],
{
    assert forall|j: int| 0 <= j < done.jumps.len() implies !((#[trigger] done.jumps[j]).0 <= i
        < done.jumps[j].0 + 4) by {
        if j < before.jumps.len() {
            assert(before.jumps[j] == after.jumps[j]);
            assert(after.jumps[j] == done.jumps[j]);
        } else if j < after.jumps.len() {
            assert(after.jumps[j] == done.jumps[j]);
        }
    }
    assert forall|j: int| 0 <= j < done.relocs.len() implies !((
    #[trigger] done.relocs[j]).offset <= i < done.relocs[j].offset + 4) by {
        if j < before.relocs.len() {
            assert(before.relocs[j] == after.relocs[j]);
            assert(after.relocs[j] == done.relocs[j]);
        } else if j < after.relocs.len() {
            assert(after.relocs[j] == done.relocs[j]);
        }
    }
}

/// Whether code that is loaded stands on the ground it is run on: it begins
/// there, and its addresses lead to the data.
pub open spec fn is_grounded(done: Work, whole: Seq<u8>, origin: int, ground: Ground) -> bool {
    &&& ground.origin == origin
    &&& forall|j: int|
        0 <= j < done.relocs.len() ==> machine::is_filled(
            whole,
            #[trigger] done.relocs[j],
            ground.places,
        )
}

/// Straight code leads on, in the end.
pub(super) proof fn straight_code_reaches(
    before: Work,
    after: Work,
    done: Work,
    whole: Seq<u8>,
    origin: int,
    from: State,
    to: State,
)
    requires
        is_loaded(done, whole, origin),
        is_within(before),
        grows(before, after),
        grows(after, done),
        machine::goes_on(before, after, from, to),
        is_grounded(done, whole, origin, from.ground),
    ensures
        machine::reaches(
            whole,
            origin,
            before.code.len() as int,
            from,
            after.code.len() as int,
            to,
        ),
{
    let start = before.code.len();
    let settled = before.relocs.len();
    assert forall|i: int|
        start <= i < after.code.len() && !machine::is_open(
            after.relocs,
            settled,
            i,
        ) implies #[trigger] whole[i] == after.code[i] by {
        between_there_are_no_holes(before, after, done, i);
    }
    assert forall|j: int| settled <= j < after.relocs.len() implies machine::is_filled(
        whole,
        #[trigger] after.relocs[j],
        from.ground.places,
    ) by {
        assert(after.relocs[j] == done.relocs[j]);
    }
    assert(machine::conveys(whole, start, settled, after.code, after.relocs, from, to));
}

/// A jump stands as it was written, with the distance to its label.
proof fn a_jump_stands(
    before: Work,
    code: Seq<u8>,
    label: Label,
    done: Work,
    whole: Seq<u8>,
    origin: int,
)
    requires
        is_loaded(done, whole, origin),
        is_within(before),
        code.len() >= 4,
        grows(before.toward(code, label), done),
    ensures
        ({
            let after = before.toward(code, label);
            let hole = (after.code.len() - 4) as nat;
            &&& done.target(label) is Some
            &&& i32::MIN <= encode::away(hole, done.target(label)->0) <= i32::MAX
            &&& machine::stands_at(
                whole,
                before.code.len() as int,
                code.take(code.len() - 4) + bytes::little_endian(
                    (encode::away(hole, done.target(label)->0) % 0x1_0000_0000) as nat,
                    4,
                ),
            )
        }),
{
    let after = before.toward(code, label);
    let hole = (after.code.len() - 4) as nat;
    let at = before.code.len() as int;
    let which = before.jumps.len() as int;
    going_toward_extends(before, code, label);
    assert(after.jumps[which] == (hole, label));
    assert(done.jumps[which] == (hole, label));
    assert(done.lands(done.jumps[which]));
    let distance = (encode::away(hole, done.target(label)->0) % 0x1_0000_0000) as nat;
    bytes::little_endian_length(distance, 4);
    let filling = bytes::little_endian(distance, 4);
    let short = code.take(code.len() - 4);
    assert(whole.subrange(hole as int, hole as int + 4) == filling);
    assert(whole.subrange(at, at + code.len() as int) =~= short + filling) by {
        assert forall|i: int| 0 <= i < code.len() implies whole[at + i] == (short + filling)[i] by {
            if i < short.len() {
                between_there_are_no_holes(before, after, done, at + i);
            } else {
                assert(whole.subrange(hole as int, hole as int + 4)[i - short.len()]
                    == filling[i - short.len()]);
            }
        }
    }
}

proof fn a_distance_reads_back(distance: int, rest: Seq<u8>)
    requires
        i32::MIN <= distance <= i32::MAX,
    ensures
        ({
            let number = (distance % 0x1_0000_0000) as nat;
            &&& bytes::little_endian(number, 4).len() == 4
            &&& machine::extended(
                machine::number(bytes::little_endian(number, 4) + rest, 4),
                0x1_0000_0000,
            ) == distance
        }),
{
    let number = (distance % 0x1_0000_0000) as nat;
    if distance >= 0 {
        assert(distance % 0x1_0000_0000 == distance);
    } else {
        assert(distance % 0x1_0000_0000 == distance + 0x1_0000_0000);
    }
    machine::a_number_reads_back(number, 4, rest);
}

proof fn going_decodes(opcode: u8, distance: int, rest: Seq<u8>)
    requires
        i32::MIN <= distance <= i32::MAX,
        opcode == 0xE9 || opcode == 0xE8,
    ensures
        machine::decoded(
            seq![opcode] + bytes::little_endian((distance % 0x1_0000_0000) as nat, 4) + rest,
        ) == Some(
            (
                if opcode == 0xE9 {
                    Inst::Jump { away: distance }
                } else {
                    Inst::Call { away: distance }
                },
                5nat,
            ),
        ),
{
    reveal(machine::decoded);
    let filling = bytes::little_endian((distance % 0x1_0000_0000) as nat, 4);
    let code = seq![opcode] + filling + rest;
    a_distance_reads_back(distance, rest);
    assert(code.skip(1) =~= filling + rest);
}

proof fn branching_decodes(cc: u8, distance: int, rest: Seq<u8>)
    requires
        i32::MIN <= distance <= i32::MAX,
        cc < 16,
    ensures
        machine::decoded(
            seq![0x0Fu8, (0x80 + cc) as u8] + bytes::little_endian(
                (distance % 0x1_0000_0000) as nat,
                4,
            ) + rest,
        ) == Some((Inst::JumpIf { cc, away: distance }, 6nat)),
{
    reveal(machine::decoded);
    let filling = bytes::little_endian((distance % 0x1_0000_0000) as nat, 4);
    let code = seq![0x0Fu8, (0x80 + cc) as u8] + filling + rest;
    a_distance_reads_back(distance, rest);
    assert(code.skip(1) =~= seq![(0x80 + cc) as u8] + (filling + rest));
    assert(code.skip(1).skip(1) =~= filling + rest);
}

/// Where a label landed.
pub open spec fn place_of(done: Work, label: Label) -> int {
    done.target(label)->0 as int
}

/// A jump leads to its label.
pub(super) proof fn a_jump_reaches(
    before: Work,
    label: Label,
    done: Work,
    whole: Seq<u8>,
    origin: int,
    state: State,
)
    requires
        is_loaded(done, whole, origin),
        is_within(before),
        grows(before.jump(label), done),
    ensures
        machine::reaches(
            whole,
            origin,
            before.code.len() as int,
            state,
            place_of(done, label),
            state,
        ),
{
    a_hole_is_four();
    a_jump_stands(before, encode::jump(), label, done, whole, origin);
    let at = before.code.len() as int;
    let distance = encode::away((at + 1) as nat, done.target(label)->0);
    let filling = bytes::little_endian((distance % 0x1_0000_0000) as nat, 4);
    let code = seq![0xE9u8] + filling;
    let inst = Inst::Jump { away: distance };
    assert(encode::jump().take(1) =~= seq![0xE9u8]);
    assert forall|rest: Seq<u8>| #[trigger] machine::decoded(code + rest) == Some(
        (inst, code.len()),
    ) by {
        a_distance_reads_back(distance, rest);
        going_decodes(0xE9, distance, rest);
    }
    a_distance_reads_back(distance, seq![]);
    machine::what_stands_is_decoded(whole, at, code, inst);
    machine::a_step_reaches(whole, origin, at, state, place_of(done, label), state);
}

/// A call leads to its label, with where to come back to on the stack.
pub(super) proof fn a_call_reaches(
    before: Work,
    label: Label,
    done: Work,
    whole: Seq<u8>,
    origin: int,
    state: State,
)
    requires
        is_loaded(done, whole, origin),
        is_within(before),
        grows(before.call(label), done),
    ensures
        machine::reaches(
            whole,
            origin,
            before.code.len() as int,
            state,
            place_of(done, label),
            state.push(lower::word(origin + before.call(label).code.len() as int)),
        ),
        lower::word(origin + before.call(label).code.len() as int) == origin + before.call(
            label,
        ).code.len(),
{
    a_hole_is_four();
    a_jump_stands(before, encode::call(), label, done, whole, origin);
    let at = before.code.len() as int;
    let distance = encode::away((at + 1) as nat, done.target(label)->0);
    let filling = bytes::little_endian((distance % 0x1_0000_0000) as nat, 4);
    let code = seq![0xE8u8] + filling;
    let inst = Inst::Call { away: distance };
    assert(encode::call().take(1) =~= seq![0xE8u8]);
    assert forall|rest: Seq<u8>| #[trigger] machine::decoded(code + rest) == Some(
        (inst, code.len()),
    ) by {
        a_distance_reads_back(distance, rest);
        going_decodes(0xE8, distance, rest);
    }
    a_distance_reads_back(distance, seq![]);
    machine::what_stands_is_decoded(whole, at, code, inst);
    machine::a_step_reaches(
        whole,
        origin,
        at,
        state,
        place_of(done, label),
        state.push(lower::word(origin + before.call(label).code.len() as int)),
    );
}

/// A branch leads to its label where two words were found equal, and on where
/// they were not.
pub(super) proof fn a_branch_reaches(
    before: Work,
    label: Label,
    done: Work,
    whole: Seq<u8>,
    origin: int,
    state: State,
)
    requires
        is_loaded(done, whole, origin),
        is_within(before),
        grows(before.jump_if(lower::EQUAL, label), done),
    ensures
        machine::reaches(
            whole,
            origin,
            before.code.len() as int,
            state,
            if state.equal {
                place_of(done, label)
            } else {
                before.jump_if(lower::EQUAL, label).code.len() as int
            },
            state,
        ),
{
    a_hole_is_four();
    let cc = lower::EQUAL;
    a_jump_stands(before, encode::jump_if(cc), label, done, whole, origin);
    let at = before.code.len() as int;
    let distance = encode::away((at + 2) as nat, done.target(label)->0);
    let filling = bytes::little_endian((distance % 0x1_0000_0000) as nat, 4);
    let code = seq![0x0Fu8, (0x80 + cc) as u8] + filling;
    let inst = Inst::JumpIf { cc, away: distance };
    assert(encode::jump_if(cc).take(2) =~= seq![0x0Fu8, (0x80 + cc) as u8]);
    assert forall|rest: Seq<u8>| #[trigger] machine::decoded(code + rest) == Some(
        (inst, code.len()),
    ) by {
        a_distance_reads_back(distance, rest);
        branching_decodes(cc, distance, rest);
    }
    a_distance_reads_back(distance, seq![]);
    machine::what_stands_is_decoded(whole, at, code, inst);
    let next = if state.equal {
        place_of(done, label)
    } else {
        at + 6
    };
    machine::a_step_reaches(whole, origin, at, state, next, state);
}

/// One instruction stands as it was written.
proof fn one_stands(
    before: Work,
    code: Seq<u8>,
    inst: Inst,
    done: Work,
    whole: Seq<u8>,
    origin: int,
)
    requires
        is_loaded(done, whole, origin),
        is_within(before),
        grows(before.emit(code), done),
        code.len() > 0,
        forall|rest: Seq<u8>| #[trigger] machine::decoded(code + rest) == Some((inst, code.len())),
    ensures
        machine::decoded(whole.skip(before.code.len() as int)) == Some((inst, code.len())),
        before.code.len() < whole.len(),
{
    let at = before.code.len() as int;
    let after = before.emit(code);
    assert(whole.subrange(at, at + code.len() as int) =~= code) by {
        assert forall|i: int| 0 <= i < code.len() implies whole[at + i] == code[i] by {
            between_there_are_no_holes(before, after, done, at + i);
        }
    }
    machine::what_stands_is_decoded(whole, at, code, inst);
}

/// Asking the system to stop stops, with the status asked for.
pub(super) proof fn asking_stops(
    before: Work,
    done: Work,
    whole: Seq<u8>,
    origin: int,
    state: State,
)
    requires
        is_loaded(done, whole, origin),
        is_within(before),
        grows(before.syscall(), done),
        state.regs[0] == lower::SYS_EXIT,
    ensures
        machine::stops(whole, origin, before.code.len() as int, state, state.regs[7]),
{
    let code = encode::syscall();
    let at = before.code.len() as int;
    assert forall|rest: Seq<u8>| #[trigger] machine::decoded(code + rest) == Some(
        (Inst::Ask, code.len()),
    ) by {
        reveal(machine::decoded);
        assert((code + rest).skip(1) =~= seq![0x05u8] + rest);
    }
    assert(grows(before.emit(code), done));
    one_stands(before, code, Inst::Ask, done, whole, origin);
    assert(machine::step(whole, origin, at, state) == Some(Went::Stops(state.regs[7])));
    assert(machine::goes(whole, origin, at, state, 1) == Some(Went::Stops(state.regs[7])));
}

/// Asking to write what is watched for is followed no further.
pub(super) proof fn asking_writes(
    before: Work,
    done: Work,
    whole: Seq<u8>,
    origin: int,
    state: State,
)
    requires
        is_loaded(done, whole, origin),
        is_within(before),
        grows(before.syscall(), done),
        state.asks_to_write(),
        (state.ground.watch)(state.regs[6], state.regs[2]),
    ensures
        machine::writes(
            whole,
            origin,
            before.code.len() as int,
            state,
            state.regs[6],
            state.regs[2],
        ),
{
    let code = encode::syscall();
    let at = before.code.len() as int;
    let went = Went::Writes(state.regs[6], state.regs[2]);
    assert forall|rest: Seq<u8>| #[trigger] machine::decoded(code + rest) == Some(
        (Inst::Ask, code.len()),
    ) by {
        reveal(machine::decoded);
        assert((code + rest).skip(1) =~= seq![0x05u8] + rest);
    }
    assert(grows(before.emit(code), done));
    one_stands(before, code, Inst::Ask, done, whole, origin);
    assert(machine::step(whole, origin, at, state) == Some(went));
    assert(machine::goes(whole, origin, at, state, 1) == Some(went));
}

/// Leaving leads back to where the top of the stack says.
pub(super) proof fn leaving_reaches(
    before: Work,
    done: Work,
    whole: Seq<u8>,
    origin: int,
    state: State,
)
    requires
        is_loaded(done, whole, origin),
        is_within(before),
        grows(before.emit(encode::ret()), done),
    ensures
        machine::reaches(
            whole,
            origin,
            before.code.len() as int,
            state,
            state.word(0) - origin,
            (State { top: state.top + 1, ..state }),
        ),
{
    let code = encode::ret();
    let at = before.code.len() as int;
    assert forall|rest: Seq<u8>| #[trigger] machine::decoded(code + rest) == Some(
        (Inst::Leave, code.len()),
    ) by {
        reveal(machine::decoded);
        assert((code + rest).skip(1) =~= rest);
    }
    one_stands(before, code, Inst::Leave, done, whole, origin);
    machine::a_step_reaches(
        whole,
        origin,
        at,
        state,
        state.word(0) - origin,
        State { top: state.top + 1, ..state },
    );
}

/// Opening or closing a frame moves the top of the stack.
pub(super) proof fn a_frame_shifts(work: Work, words: nat, opens: bool, state: State) -> (
    after: State)
    requires
        words <= lower::MOST_WORDS,
    ensures
        machine::goes_on(
            work,
            work.emit(
                if opens {
                    encode::open_frame((8 * words) as u32)
                } else {
                    encode::close_frame((8 * words) as u32)
                },
            ),
            state,
            after,
        ),
        after.regs == state.regs,
        after.stack == state.stack,
        after.top == if opens {
            state.top - words
        } else {
            state.top + words
        },
{
    let size = (8 * words) as u32;
    let byte = if opens {
        0xECu8
    } else {
        0xC4u8
    };
    let code = if opens {
        encode::open_frame(size)
    } else {
        encode::close_frame(size)
    };
    let inst = Inst::Shift {
        words: if opens {
            -(words as int)
        } else {
            words as int
        },
    };
    let filling = bytes::little_endian(size as nat, 4);
    assert forall|rest: Seq<u8>| #[trigger] machine::decoded(code + rest) == Some(
        (inst, code.len()),
    ) by {
        reveal(machine::decoded);
        machine::a_number_reads_back(size as nat, 4, rest);
        assert(code + rest =~= seq![0x48u8, 0x81u8, byte] + (filling + rest));
        assert((code + rest).skip(1) =~= seq![0x81u8, byte] + (filling + rest));
        assert((code + rest).skip(1).skip(1) =~= seq![byte] + (filling + rest));
        assert((code + rest).skip(1).skip(1).skip(1) =~= filling + rest);
    }
    machine::one_leads(code, inst, state);
    let after = state.does(inst)->Some_0;
    machine::what_is_written_leads(work, code, state, after);
    after
}

/// A word is tested for nothing.
pub(super) proof fn a_test_tells(work: Work, state: State)
    requires
        state.wf(),
    ensures
        machine::goes_on(
            work,
            work.emit(encode::alu(0x85, Reg::Rax, Reg::Rax)),
            state,
            state.found(state.regs[0] == 0, false),
        ),
{
    let code = encode::alu(0x85, Reg::Rax, Reg::Rax);
    let inst = Inst::Test { reg: 0 };
    assert forall|rest: Seq<u8>| #[trigger] machine::decoded(code + rest) == Some(
        (inst, code.len()),
    ) by {
        reveal(machine::decoded);
        assert(code + rest =~= seq![0x48u8, 0x85u8, 0xC0u8] + rest);
        assert((code + rest).skip(1) =~= seq![0x85u8, 0xC0u8] + rest);
        assert((code + rest).skip(1).skip(1) =~= seq![0xC0u8] + rest);
    }
    machine::one_leads(code, inst, state);
    machine::what_is_written_leads(work, code, state, state.does(inst)->Some_0);
}

/// Whether labels made lately are, in the end, where they are.
pub open spec fn labels_settle(work: Work, end: Work, done: Work) -> bool {
    forall|l: int|
        work.labels.len() <= l < end.labels.len() ==> #[trigger] done.labels[l] == end.labels[l]
}

/// Whether a piece of writing is, in the end, there.
pub open spec fn is_settled(work: Work, end: Work, done: Work) -> bool {
    &&& is_within(work)
    &&& grows(work, end)
    &&& grows(end, done)
    &&& done.labels.len() <= usize::MAX
    &&& labels_settle(work, end, done)
}

/// What comes first of what is settled is settled, and so is the rest.
pub(super) proof fn settling_splits(work: Work, next: Work, end: Work, done: Work)
    requires
        is_settled(work, end, done),
        goes_further(work, next),
        goes_further(next, end),
    ensures
        is_settled(work, next, done),
        is_settled(next, end, done),
        end.failed || !next.failed,
{
    what_grows_stays_within(work, next);
    growth_chains(next, end, done);
    assert forall|l: int| work.labels.len() <= l < next.labels.len() implies #[trigger] done.labels[l]
        == next.labels[l] by {
        assert(done.labels[l] == end.labels[l]);
        assert(end.labels[l] == next.labels[l]);
    }
}

/// The arms of a choice are there, and so are its labels.
pub(super) proof fn a_choice_is_laid(
    stage: Stage,
    work: Work,
    around: Around,
    region: RegionId,
    at: int,
    done: Work,
)
    requires
        stage.program.region_ops(region)[at] is If,
        stage.program.nests(region, stage.program.region_ops(region)[at]->then_region),
        stage.program.nests(region, stage.program.region_ops(region)[at]->else_region),
        is_settled(work, op_work(stage, work, around, region, at), done),
        !op_work(stage, work, around, region, at).failed,
    ensures
        ({
            let run = stage.program.region_results(region)[at];
            let condition = stage.program.region_ops(region)[at]->condition;
            let then_region = stage.program.region_ops(region)[at]->then_region;
            let else_region = stage.program.region_ops(region)[at]->else_region;
            let within = inside_if(work, around, run);
            let tested = asked(stage, work, condition);
            let then = stage.region(tested, within, then_region, 0);
            let turned = then.bind(work.next());
            let other = stage.region(turned, within, else_region, 0);
            &&& grows(tested, done)
            &&& is_settled(tested, then, done)
            &&& !then.failed
            &&& is_settled(turned, other, done)
            &&& !other.failed
            &&& place_of(done, work.next()) == turned.code.len()
            &&& place_of(done, work.label().next()) == op_work(
                stage,
                work,
                around,
                region,
                at,
            ).code.len()
            &&& turned.known == lower::nothing_known()
            &&& op_work(stage, work, around, region, at).known == lower::nothing_known()
        }),
{
    let run = stage.program.region_results(region)[at];
    let condition = stage.program.region_ops(region)[at]->condition;
    let then_region = stage.program.region_ops(region)[at]->then_region;
    let else_region = stage.program.region_ops(region)[at]->else_region;
    let n = work.labels.len();
    let within = inside_if(work, around, run);
    let tested = asked(stage, work, condition);
    let then = stage.region(tested, within, then_region, 0);
    let turned = then.bind(work.next());
    let other = stage.region(turned, within, else_region, 0);
    let next = op_work(stage, work, around, region, at);
    asking_grows(stage, work, condition);
    a_region_grows(stage, tested, within, then_region, 0);
    going_further_chains(work, tested, then);
    binding_grows(work, then, work.next(), n);
    a_region_grows(stage, turned, within, else_region, 0);
    going_further_chains(work, turned, other);
    binding_grows(work, other, work.label().next(), n + 1);
    growth_chains(other, next, done);
    growth_chains(turned, other, done);
    growth_chains(then, turned, done);
    growth_chains(tested, then, done);
    what_grows_stays_within(work, tested);
    what_grows_stays_within(work, turned);
    assert forall|l: int|
        n <= l < other.labels.len() && l != n + 1 implies #[trigger] done.labels[l]
        == other.labels[l] by {
        assert(done.labels[l] == next.labels[l]);
    }
    assert forall|l: int|
        n <= l < then.labels.len() && l != n + 1 && l != n implies #[trigger] done.labels[l]
        == then.labels[l] by {
        assert(done.labels[l] == other.labels[l]);
        assert(other.labels[l] == turned.labels[l]);
    }
    assert(done.labels[n as int] == other.labels[n as int]);
    assert(other.labels[n as int] == turned.labels[n as int]);
    assert(done.labels[n as int + 1] == next.labels[n as int + 1]);
}

/// The body of a loop is there, and so are its labels.
pub(super) proof fn a_loop_is_laid(
    stage: Stage,
    work: Work,
    around: Around,
    region: RegionId,
    at: int,
    done: Work,
)
    requires
        stage.program.region_ops(region)[at] is Loop,
        stage.program.nests(region, stage.program.region_ops(region)[at]->body),
        is_settled(work, op_work(stage, work, around, region, at), done),
        !op_work(stage, work, around, region, at).failed,
    ensures
        ({
            let run = stage.program.region_results(region)[at];
            let initial = stage.program.region_ops(region)[at]->initial;
            let body = stage.program.region_ops(region)[at]->body;
            let within = inside_loop(stage, work, around, run, body);
            let start = entered(stage, work, initial, body);
            let inside = stage.region(start, within, body, 0);
            &&& grows(start, done)
            &&& !start.failed
            &&& is_settled(start, inside, done)
            &&& !inside.failed
            &&& place_of(done, work.next()) == start.code.len()
            &&& place_of(done, work.label().next()) == op_work(
                stage,
                work,
                around,
                region,
                at,
            ).code.len()
            &&& start.known == lower::nothing_known()
            &&& op_work(stage, work, around, region, at).known == lower::nothing_known()
        }),
{
    let run = stage.program.region_results(region)[at];
    let initial = stage.program.region_ops(region)[at]->initial;
    let body = stage.program.region_ops(region)[at]->body;
    let n = work.labels.len();
    let within = inside_loop(stage, work, around, run, body);
    let start = entered(stage, work, initial, body);
    let inside = stage.region(start, within, body, 0);
    let next = op_work(stage, work, around, region, at);
    entering_grows(stage, work, initial, body);
    a_region_grows(stage, start, within, body, 0);
    going_further_chains(work, start, inside);
    binding_grows(work, inside, work.label().next(), n + 1);
    growth_chains(inside, next, done);
    growth_chains(start, inside, done);
    what_grows_stays_within(work, start);
    assert forall|l: int|
        n <= l < inside.labels.len() && l != n + 1 implies #[trigger] done.labels[l]
        == inside.labels[l] by {
        assert(done.labels[l] == next.labels[l]);
    }
    assert(done.labels[n as int] == inside.labels[n as int]);
    assert(inside.labels[n as int] == start.labels[n as int]);
    assert(done.labels[n as int + 1] == next.labels[n as int + 1]);
}

} // verus!
