//! MOS 6502 under cc65's sim65.
//!
//! A word is sixteen bits, the width of an address, and the registers are
//! eight, so every word operation is two byte operations with a carry.
//! Values live in a frame on a software stack, reached through a zero-page
//! pointer; the hardware stack carries only return addresses, which bounds
//! recursion at 128 deep until those move too.
//!
//! The image is a twelve-byte header, the data, and the code, loaded at
//! `$0200`. The platform is the simulator's hooks, and `grow` is a bump
//! upwards from the end of the image toward the stack.

pub mod assembler;
pub mod faithful;
pub mod flow;
pub mod image;
pub mod loader;
pub mod lower;
pub mod machine;
pub mod placing;
pub mod reach;
pub mod refusal;

use crate::ir::{Parts, Program};
use crate::targets::Artifact;
use vstd::prelude::*;

verus! {

/// Where sim65 loads the image, and the zero-page pairs below it.
pub const LOAD: u16 = 0x0200;

/// The C stack the simulator's hooks take their arguments on. Its address
/// goes in the header, and nothing else uses it.
pub const CSP: u8 = 0x02;
pub const CSTACK_TOP: u16 = 0xFE00;

/// The frame pointer, and the stack of frames it walks down.
pub const FP: u8 = 0x04;
pub const FRAMES_TOP: u16 = 0xFD00;

/// Scratch pairs: every two-operand form works through these.
pub const T0: u8 = 0x06;
pub const T1: u8 = 0x08;
pub const T0_HIGH: u8 = 0x07;
pub const T1_HIGH: u8 = 0x09;
/// The pair an indirect load or store reaches its address through.
pub const PTR: u8 = 0x0A;
/// Where a function leaves its result, and where a caller puts arguments.
pub const R0: u8 = 0x0C;
pub const ARGS: u8 = 0x0E;
pub const ARG_COUNT: u8 = 4;
/// The bump allocator's cursor, set at reset to the end of the image.
pub const HEAP: u8 = 0x16;

/// The simulator's hooks: a `jmp` or `jsr` to one is answered by the host.
pub const HOOK_WRITE: u16 = 0xFFF7;
pub const HOOK_EXIT: u16 = 0xFFF9;

/// Code, and where it begins.
#[derive(Debug)]
pub struct Code {
    pub bytes: Vec<u8>,
    /// Where the code begins, which is after the data, and so where the
    /// machine has to be started.
    pub reset: u16,
}

/// The file a program becomes, where this target has what it asks for.
pub open spec fn image(program: Parts) -> Option<Seq<u8>> {
    match lower::settled(program, LOAD, seq![]) {
        Some(code) => Some(image::contents(program, code, lower::origin(program) as u16)),
        None => None,
    }
}

/// The file a program becomes, or `None` where this target cannot write it.
pub fn attempt(program: &Program) -> (file: Option<Vec<u8>>)
    requires
        program@.wf(),
    ensures
        match image(program@) {
            Some(bytes) => file matches Some(found) && found@ == bytes,
            None => file is None,
        },
{
    match lower::attempt(program) {
        Some(code) => Some(image::image(&code, program)),
        None => None,
    }
}

/// The file of a program this target can write.
pub fn emit(program: &Program) -> (artifacts: Vec<Artifact>)
    requires
        program@.wf(),
        image(program@) is Some,
    ensures
        artifacts@.len() == 1,
        Some(artifacts@[0].bytes@) == image(program@),
        artifacts@[0].extension@ == ".bin"@,
        artifacts@[0].executable == false,
{
    let mut artifacts: Vec<Artifact> = Vec::new();
    if let Some(bytes) = attempt(program) {
        artifacts.push(Artifact { extension: ".bin", bytes, executable: false });
    }
    artifacts
}

} // verus!
