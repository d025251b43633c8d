//! [`lower`] turns the IR into instructions but cannot know where the data
//! will sit, so it leaves a [`Reloc`] wherever an address belongs; [`elf`]
//! chooses the layout and fills them in.

pub mod elf;
pub mod encode;
pub mod faithful;
pub mod flow;
pub mod loader;
pub mod lower;
pub mod machine;
pub mod placing;
pub mod reach;
pub mod refusal;

use crate::ir::{DataId, Parts, Program};
use crate::targets::Artifact;
use vstd::prelude::*;

verus! {

/// Machine code whose data addresses are not resolved yet.
#[derive(Debug)]
pub struct Code {
    pub bytes: Vec<u8>,
    pub relocs: Vec<Reloc>,
}

/// Where a datum's distance belongs.
#[derive(Clone, Copy, Debug, PartialEq, Eq, Structural)]
pub struct Reloc {
    pub offset: usize,
    pub data: DataId,
}

/// The file a program becomes, where this target has what it asks for and
/// the format can hold it.
pub open spec fn image(program: Parts) -> Option<Seq<u8>> {
    match lower::lowered(program) {
        Some((code, relocs)) => if elf::fits(program, code, relocs) {
            Some(elf::contents(program, code, relocs))
        } else {
            None
        },
        None => None,
    }
}

/// The file a program becomes, or `None` where this target cannot write it.
pub fn attempt(program: &Program) -> (file: Option<Vec<u8>>)
    requires
        program@.wf(),
    ensures
        match image(program@) {
            Some(bytes) => file matches Some(found) && found@ == bytes,
            None => file is None,
        },
{
    match lower::attempt(program) {
        Some(code) => elf::image(&code, program),
        None => None,
    }
}

/// The file of a program this target can write.
pub fn emit(program: &Program) -> (artifacts: Vec<Artifact>)
    requires
        program@.wf(),
        image(program@) is Some,
    ensures
        artifacts@.len() == 1,
        Some(artifacts@[0].bytes@) == image(program@),
        artifacts@[0].extension@ == ""@,
        artifacts@[0].executable == true,
{
    let mut artifacts: Vec<Artifact> = Vec::new();
    if let Some(bytes) = attempt(program) {
        artifacts.push(Artifact { extension: "", bytes, executable: true });
    }
    artifacts
}

} // verus!
