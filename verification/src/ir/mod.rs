//! The machine IR. Names no register, syscall, instruction set, or word
//! width.
//!
//! It decides:
//!
//! - Representation: the form each value takes, and the width it needs
//! - Ownership: where a value is retained and released, and when storage is
//!   unique enough to be reused in place
//! - Layout: what is data, what is global, and what an offset means
//! - Function signatures: arity, and the class of each parameter and result
//!
//! It does not decide:
//!
//! - Which values live in registers and which in memory
//! - Calling conventions, stacks, and frames
//! - Instruction selection and encoding
//! - The target's word size, and what its platform provides
//!
//! Instructions live in one flat array, and everything of variable length --
//! operand lists, the regions a construct holds -- is a range into a pool
//! beside it. Nothing about an instruction is boxed or owned, so replacing
//! one is a store and a pass over them is a linear scan.
//!
//! Control flow is nested and never flattened to blocks and jumps:
//!
//! - Structure lowers to jumps in about fifteen lines. The reverse needs a
//!   Relooper, which emscripten and LLVM's wasm backend each carry.
//! - Regions take parameters, so a loop stays the tail call it was written
//!   as and no target reconstructs one.
//! - A region's instructions are contiguous, so walking one stays sequential
//!   where a graph of blocks would scatter.
//!
//! A constant is 64 bits of pattern, not a number:
//!
//! - `-1` and `u64::MAX` are one value. [`Builder::constant_signed`] is a
//!   spelling, not a second representation.
//! - Signedness picks `div` against `idiv` and `jb` against `jl`, so it
//!   belongs to operations. LLVM dropped signed and unsigned integer types;
//!   wasm never had them.

pub mod builder;
pub mod faithful;
pub mod fresh;
pub mod history;
pub mod lower;
pub mod machine;
pub mod memory;
pub mod model;
pub mod order;
pub mod validate;

pub use builder::Builder;
pub use lower::lower;
pub use model::{
    wrap, Binary, Class, DataId, Exit, Function, FunctionId, Offset, Op, OpId, Origin, Parts,
    Platform, PlatformId, Range, Region, RegionId, Relation, Span, Symbol, Terminator, ValueId,
    Width,
};
pub use validate::validate;
use crate::pool::Names;
use vstd::prelude::*;

verus! {

/// A program: declarations, and the pools everything of variable length is a
/// run of.
#[derive(Clone, Debug, PartialEq, Eq)]
pub struct Program {
    platform: Vec<Platform>,
    /// Every datum end to end. A target adds its own base and nothing else,
    /// so two of them cannot disagree about the layout between.
    data: Vec<u8>,
    /// The same, for what a program may write to.
    globals: Vec<u8>,
    spans: Vec<Span>,
    functions: Vec<Function>,
    /// The class of every value, by value.
    classes: Vec<Class>,
    /// The classes a signature names: what a platform routine or a function
    /// takes and answers.
    signature: Vec<Class>,
    ops: Vec<Op>,
    /// What each instruction defines, beside it rather than in it: a pass
    /// that does not care never reads this array.
    results: Vec<Range>,
    operands: Vec<ValueId>,
    regions: Vec<Region>,
    /// Every name the program uses, each once.
    names: Names,
}

impl View for Program {
    type V = Parts;

    closed spec fn view(&self) -> Parts {
        Parts {
            platform: self.platform@,
            data: self.data@,
            globals: self.globals@,
            spans: self.spans@,
            functions: self.functions@,
            classes: self.classes@,
            signature: self.signature@,
            ops: self.ops@,
            results: self.results@,
            operands: self.operands@,
            regions: self.regions@,
            names: self.names@,
        }
    }
}

} // verus!
