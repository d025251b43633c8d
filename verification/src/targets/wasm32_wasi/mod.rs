//! [`lower`] decides what `_start` does and where things sit in linear
//! memory; [`module`] wraps that in the sections a wasm file is made of.

pub mod faithful;
pub mod flow;
pub mod lower;
pub mod machine;
pub mod memory;
pub mod module;
pub mod placing;
pub mod reach;
pub mod reader;
pub mod refusal;

use crate::ir::{Parts, Program};
use crate::targets::Artifact;
use vstd::prelude::*;

verus! {

pub const I32: u8 = 0x7F;
pub const FUNC_TYPE: u8 = 0x60;
pub const I32_CONST: u8 = 0x41;
pub const CALL: u8 = 0x10;
pub const DROP: u8 = 0x1A;
pub const END: u8 = 0x0B;

/// The WASI functions a module may call.
#[derive(Clone, Copy, Debug, PartialEq, Eq, Structural)]
pub enum Import {
    FdWrite,
    ProcExit,
}

impl Import {
    /// What WASI calls it.
    pub open spec fn text(self) -> Seq<char> {
        match self {
            Import::FdWrite => "fd_write"@,
            Import::ProcExit => "proc_exit"@,
        }
    }

    pub fn name(self) -> (name: &'static str)
        ensures
            name@ == self.text(),
    {
        match self {
            Import::FdWrite => "fd_write",
            Import::ProcExit => "proc_exit",
        }
    }

    /// How many words it takes, and whether it answers one.
    pub open spec fn shape(self) -> (nat, nat) {
        match self {
            Import::FdWrite => (4, 1),
            Import::ProcExit => (1, 0),
        }
    }
}

/// What a module is made of.
#[derive(Debug)]
pub struct Code {
    pub bodies: Vec<Body>,
    pub entry: u32,
    pub data: Vec<Segment>,
    /// The WASI functions this module calls, in index order. A module that
    /// calls none imports none.
    pub imports: Vec<Import>,
    pub memory: bool,
}

/// Bytes that start out at an offset in linear memory.
#[derive(Debug)]
pub struct Segment {
    pub offset: u32,
    pub bytes: Vec<u8>,
}

/// Instructions without the local declarations or the trailing `end`.
#[derive(Debug)]
pub struct Body {
    pub params: u32,
    pub locals: u32,
    pub answers: u32,
    pub code: Vec<u8>,
}

/// What a [`Code`] holds.
#[verifier::ext_equal]
pub struct Layout {
    pub bodies: Seq<Written>,
    pub entry: u32,
    pub data: Seq<Placed>,
    pub imports: Seq<Import>,
    pub memory: bool,
}

/// What a [`Segment`] holds.
#[verifier::ext_equal]
pub struct Placed {
    pub offset: u32,
    pub bytes: Seq<u8>,
}

/// What a [`Body`] holds.
#[verifier::ext_equal]
pub struct Written {
    pub params: u32,
    pub locals: u32,
    pub answers: u32,
    pub code: Seq<u8>,
}

impl View for Segment {
    type V = Placed;

    open spec fn view(&self) -> Placed {
        Placed { offset: self.offset, bytes: self.bytes@ }
    }
}

impl View for Body {
    type V = Written;

    open spec fn view(&self) -> Written {
        Written {
            params: self.params,
            locals: self.locals,
            answers: self.answers,
            code: self.code@,
        }
    }
}

impl View for Code {
    type V = Layout;

    open spec fn view(&self) -> Layout {
        Layout {
            bodies: self.bodies@.map_values(|body: Body| body@),
            entry: self.entry,
            data: self.data@.map_values(|segment: Segment| segment@),
            imports: self.imports@,
            memory: self.memory,
        }
    }
}

/// The file a program becomes, where this target has what it asks for and
/// the format can hold it.
pub open spec fn image(program: Parts) -> Option<Seq<u8>> {
    match lower::lowered(program) {
        Some(layout) => if layout.fits() {
            Some(layout.module())
        } else {
            None
        },
        None => None,
    }
}

/// The file a program becomes, or `None` where this target cannot write it.
pub fn attempt(program: &Program) -> (file: Option<Vec<u8>>)
    requires
        program@.wf(),
    ensures
        match image(program@) {
            Some(bytes) => file matches Some(found) && found@ == bytes,
            None => file is None,
        },
{
    match lower::attempt(program) {
        Some(code) => module::module(&code),
        None => None,
    }
}

/// The file of a program this target can write.
pub fn emit(program: &Program) -> (artifacts: Vec<Artifact>)
    requires
        program@.wf(),
        image(program@) is Some,
    ensures
        artifacts@.len() == 1,
        Some(artifacts@[0].bytes@) == image(program@),
        artifacts@[0].extension@ == ".wasm"@,
        artifacts@[0].executable == false,
{
    let mut artifacts: Vec<Artifact> = Vec::new();
    if let Some(bytes) = attempt(program) {
        artifacts.push(Artifact { extension: ".wasm", bytes, executable: false });
    }
    artifacts
}

} // verus!
