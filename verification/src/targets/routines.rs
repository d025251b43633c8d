//! What a program asks of the outside, and whether a target has it.

use super::mos6502_sim65;
use super::wasm32_wasi;
use super::x86_64_linux;
use super::Target;
use crate::ir::model;
use crate::ir::{Op, Parts, PlatformId, Program, RegionId};
use crate::text::same;
use vstd::prelude::*;

verus! {

/// Whether targets provide a routine of a name. Every target has the same.
pub open spec fn is_provided(name: Seq<char>) -> bool {
    name == "write"@ || name == "exit"@ || name == "grow"@
}

impl Parts {
    /// Whether a routine is one that targets provide.
    pub open spec fn provides(self, platform: PlatformId) -> bool {
        is_provided(self.name(self.routine(platform).name))
    }

    /// The first routine that a region calls from instruction `from` on, in
    /// the regions inside it too, and that no target provides.
    pub open spec fn region_lacks(self, region: RegionId, from: int) -> Option<PlatformId>
        decreases self.rank(region), self.region_ops(region).len() - from,
    {
        let ops = self.region_ops(region);
        if from < 0 || from >= ops.len() {
            None
        } else {
            let here = match ops[from] {
                Op::PlatformCall { platform, .. } => if self.provides(platform) {
                    None
                } else {
                    Some(platform)
                },
                Op::If { then_region, else_region, .. } => if self.nests(region, then_region)
                    && self.nests(region, else_region) {
                    match self.region_lacks(then_region, 0) {
                        Some(platform) => Some(platform),
                        None => self.region_lacks(else_region, 0),
                    }
                } else {
                    None
                },
                Op::Loop { body, .. } => if self.nests(region, body) {
                    self.region_lacks(body, 0)
                } else {
                    None
                },
                _ => None,
            };
            match here {
                Some(platform) => Some(platform),
                None => self.region_lacks(region, from + 1),
            }
        }
    }

    /// The same of the functions from `from` on.
    pub open spec fn lacks(self, from: int) -> Option<PlatformId>
        decreases self.functions.len() - from,
    {
        if from < 0 || from >= self.functions.len() {
            None
        } else {
            match self.region_lacks(self.functions[from].body, 0) {
                Some(platform) => Some(platform),
                None => self.lacks(from + 1),
            }
        }
    }
}

fn provides(program: &Program, platform: PlatformId) -> (provided: bool)
    requires
        program@.wf(),
        platform.0 < program@.platform.len(),
    ensures
        provided == program@.provides(platform),
{
    let held = &program.platforms()[platform.index()];
    assert(program@.routine(platform).name.0 < program@.names.len());
    let name = program.name(held.name);
    same(name, "write") || same(name, "exit") || same(name, "grow")
}

/// The first routine a region calls that no target provides.
fn region_lacking(program: &Program, region: RegionId) -> (lacking: Option<PlatformId>)
    requires
        program@.wf(),
        region.0 < program@.regions.len(),
    ensures
        lacking == program@.region_lacks(region, 0),
        lacking matches Some(platform) ==> platform.0 < program@.platform.len(),
    decreases program@.rank(region),
{
    let ops = program.ops(region);
    let ghost start = program@.region(region).ops.start as int;
    let mut at: usize = 0;
    proof {
        assert(program@.region_fits(program@.regions[region.0 as int]));
        assert(program@.region_nests(region));
    }
    while at < ops.len()
        invariant
            program@.wf(),
            region.0 < program@.regions.len(),
            ops@ == program@.region_ops(region),
            program@.region_nests(region),
            start == program@.region(region).ops.start,
            program@.region(region).ops.within(program@.ops.len()),
            at <= ops.len(),
            program@.region_lacks(region, at as int) == program@.region_lacks(region, 0),
        decreases ops.len() - at,
    {
        proof {
            assert(ops@[at as int] == program@.ops[start + at]);
            assert(program@.op_fits(program@.ops[start + at], program@.results[start + at]));
        }
        match ops[at] {
            Op::PlatformCall { platform, .. } => {
                if !provides(program, platform) {
                    return Some(platform);
                }
            },
            Op::If { then_region, else_region, .. } => {
                proof {
                    let inner = model::children(program@.ops[start + at]);
                    assert(inner[0] == then_region);
                    assert(inner[1] == else_region);
                }
                if let Some(platform) = region_lacking(program, then_region) {
                    return Some(platform);
                }
                if let Some(platform) = region_lacking(program, else_region) {
                    return Some(platform);
                }
            },
            Op::Loop { body, .. } => {
                proof {
                    let inner = model::children(program@.ops[start + at]);
                    assert(inner[0] == body);
                }
                if let Some(platform) = region_lacking(program, body) {
                    return Some(platform);
                }
            },
            _ => {},
        }
        at = at + 1;
    }
    None
}

/// A program that calls a routine no target provides is written by none.
pub proof fn what_is_lacking_is_refused(target: Target, program: Parts)
    requires
        program.lacks(0) is Some,
    ensures
        target.image(program) is None,
{
    match target {
        Target::X86_64Linux => x86_64_linux::refusal::what_is_lacking_is_refused(program),
        Target::Wasm32Wasi => wasm32_wasi::refusal::what_is_lacking_is_refused(program),
        Target::Mos6502Sim65 => mos6502_sim65::refusal::what_is_lacking_is_refused(program),
    }
}

/// The first routine a program calls that no target provides.
pub(super) fn lacking(program: &Program) -> (lacking: Option<PlatformId>)
    requires
        program@.wf(),
    ensures
        lacking == program@.lacks(0),
        lacking matches Some(platform) ==> platform.0 < program@.platform.len(),
{
    let functions = program.functions();
    let mut at: usize = 0;
    while at < functions.len()
        invariant
            program@.wf(),
            functions@ == program@.functions,
            at <= functions.len(),
            program@.lacks(at as int) == program@.lacks(0),
        decreases functions.len() - at,
    {
        assert(program@.function_fits(program@.functions[at as int]));
        if let Some(platform) = region_lacking(program, functions[at].body) {
            return Some(platform);
        }
        at = at + 1;
    }
    None
}

} // verus!
