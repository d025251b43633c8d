//! A target owns everything downstream of the IR: the machine, the
//! environment it calls into, and the files it writes.

pub mod bytes;
pub mod mos6502_sim65;
pub mod routines;
pub mod wasm32_wasi;
pub mod x86_64_linux;

use crate::ir::{Parts, Program};
use crate::text::{around, same};
use vstd::prelude::*;
use vstd::string::StringExecFns;

verus! {

/// A file to write.
#[derive(Debug)]
pub struct Artifact {
    /// Appended to the output name, such as `.wasm`. Empty when the target
    /// writes a bare executable.
    pub extension: &'static str,
    pub bytes: Vec<u8>,
    pub executable: bool,
}

#[derive(Clone, Copy, Debug, PartialEq, Eq, Structural)]
pub enum Target {
    X86_64Linux,
    Wasm32Wasi,
    Mos6502Sim65,
}

impl Target {
    /// What it is called.
    pub open spec fn text(self) -> Seq<char> {
        match self {
            Target::X86_64Linux => "x86_64-linux"@,
            Target::Wasm32Wasi => "wasm32-wasi"@,
            Target::Mos6502Sim65 => "mos6502-sim65"@,
        }
    }

    /// The file a program becomes, where the target has what it asks for.
    pub open spec fn image(self, program: Parts) -> Option<Seq<u8>> {
        match self {
            Target::X86_64Linux => x86_64_linux::image(program),
            Target::Wasm32Wasi => wasm32_wasi::image(program),
            Target::Mos6502Sim65 => mos6502_sim65::image(program),
        }
    }

    /// What is appended to the output name.
    pub open spec fn suffix(self) -> Seq<char> {
        match self {
            Target::X86_64Linux => ""@,
            Target::Wasm32Wasi => ".wasm"@,
            Target::Mos6502Sim65 => ".bin"@,
        }
    }

    /// Every target there is.
    pub fn all() -> (targets: [Target; 3])
        ensures
            targets@ == seq![Target::X86_64Linux, Target::Wasm32Wasi, Target::Mos6502Sim65],
            forall|target: Target| #[trigger] targets@.contains(target),
    {
        let targets = [Target::X86_64Linux, Target::Wasm32Wasi, Target::Mos6502Sim65];
        assert(targets@ =~= seq![
            Target::X86_64Linux,
            Target::Wasm32Wasi,
            Target::Mos6502Sim65,
        ]);
        assert forall|target: Target| #[trigger] targets@.contains(target) by {
            assert(targets@[0] == Target::X86_64Linux);
            assert(targets@[1] == Target::Wasm32Wasi);
            assert(targets@[2] == Target::Mos6502Sim65);
        }
        targets
    }

    /// The target native to a machine, if there is a backend for it. `None`
    /// means that a target has to be named there.
    pub fn host(architecture: &str, system: &str) -> (target: Option<Target>)
        ensures
            target == (if architecture@ == "x86_64"@ && system@ == "linux"@ {
                Some(Target::X86_64Linux)
            } else {
                None
            }),
    {
        if same(architecture, "x86_64") && same(system, "linux") {
            Some(Target::X86_64Linux)
        } else {
            None
        }
    }

    pub fn name(self) -> (name: &'static str)
        ensures
            name@ == self.text(),
    {
        match self {
            Target::X86_64Linux => "x86_64-linux",
            Target::Wasm32Wasi => "wasm32-wasi",
            Target::Mos6502Sim65 => "mos6502-sim65",
        }
    }

    /// The target of a name, and of no other.
    pub fn from_name(name: &str) -> (found: Option<Target>)
        ensures
            forall|target: Target|
                (found == Some(target)) <==> name@ == #[trigger] target.text(),
    {
        proof {
            names_differ();
            assert(Target::X86_64Linux.text() == "x86_64-linux"@);
            assert(Target::Wasm32Wasi.text() == "wasm32-wasi"@);
            assert(Target::Mos6502Sim65.text() == "mos6502-sim65"@);
        }
        if same(name, "x86_64-linux") {
            Some(Target::X86_64Linux)
        } else if same(name, "wasm32-wasi") {
            Some(Target::Wasm32Wasi)
        } else if same(name, "mos6502-sim65") {
            Some(Target::Mos6502Sim65)
        } else {
            None
        }
    }

    /// What is said of a name that is no target's.
    pub fn unknown(name: &str) -> (said: String)
        ensures
            said@ == "unknown target `"@ + name@ + "`, expected: "@ + Target::X86_64Linux.text()
                + ", "@ + Target::Wasm32Wasi.text() + ", "@ + Target::Mos6502Sim65.text(),
    {
        let mut said = around("unknown target `", name, "`, expected: ");
        said.append(Target::X86_64Linux.name());
        said.append(", ");
        said.append(Target::Wasm32Wasi.name());
        said.append(", ");
        said.append(Target::Mos6502Sim65.name());
        said
    }

    /// Whether the target can write a program: whether it has everything the
    /// program asks for.
    pub fn accepts(self, program: &Program) -> (accepted: bool)
        requires
            program@.wf(),
        ensures
            accepted == (self.image(program@) is Some),
    {
        match self {
            Target::X86_64Linux => x86_64_linux::attempt(program).is_some(),
            Target::Wasm32Wasi => wasm32_wasi::attempt(program).is_some(),
            Target::Mos6502Sim65 => mos6502_sim65::attempt(program).is_some(),
        }
    }

    /// The name of the first routine a program calls that the target lacks,
    /// if there is one.
    pub fn lacks(self, program: &Program) -> (name: Option<String>)
        requires
            program@.wf(),
        ensures
            match program@.lacks(0) {
                Some(platform) => name matches Some(name) && name@ == program@.name(
                    program@.routine(platform).name,
                ) && self.image(program@) is None,
                None => name is None,
            },
    {
        match routines::lacking(program) {
            Some(platform) => {
                proof {
                    routines::what_is_lacking_is_refused(self, program@);
                    assert(program@.routine(platform).name.0 < program@.names.len());
                }
                let held = &program.platforms()[platform.index()];
                Some(program.name(held.name).to_owned())
            },
            None => None,
        }
    }

    /// The files of a program the target accepts.
    pub fn emit(self, program: &Program) -> (artifacts: Vec<Artifact>)
        requires
            program@.wf(),
            self.image(program@) is Some,
        ensures
            artifacts@.len() == 1,
            Some(artifacts@[0].bytes@) == self.image(program@),
            artifacts@[0].extension@ == self.suffix(),
            artifacts@[0].executable == (self == Target::X86_64Linux),
    {
        match self {
            Target::X86_64Linux => x86_64_linux::emit(program),
            Target::Wasm32Wasi => wasm32_wasi::emit(program),
            Target::Mos6502Sim65 => mos6502_sim65::emit(program),
        }
    }
}

/// No two targets share a name, so that a name tells which is meant.
pub proof fn names_differ()
    ensures
        forall|left: Target, right: Target|
            #[trigger] left.text() == #[trigger] right.text() <==> left == right,
{
    reveal_strlit("x86_64-linux");
    reveal_strlit("wasm32-wasi");
    reveal_strlit("mos6502-sim65");
    assert("x86_64-linux"@.len() == 12);
    assert("wasm32-wasi"@.len() == 11);
    assert("mos6502-sim65"@.len() == 13);
}

} // verus!
