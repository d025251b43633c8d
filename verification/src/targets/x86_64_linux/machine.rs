//! What code does, on the machine it is written for.
//!
//! A word is 64 bits. The stack goes down as far as it has to. Nothing is said
//! of code that reaches into memory past the stack, or that asks the system
//! for anything but to write and to stop.

use super::encode::{self, Reg};
use super::lower::{self, Form, Source, Stage, Work, BELOW, EQUAL};
use super::Reloc;
use crate::ir::{machine, model, Binary, Class, DataId, Op, Relation, ValueId};
use crate::targets::bytes;
use vstd::prelude::*;

verus! {

/// How many values a word has.
pub open spec fn size() -> nat {
    0x1_0000_0000_0000_0000
}

/// What code runs on, which it does not change.
pub struct Ground {
    /// Where the code begins.
    pub origin: int,
    /// Where each datum is, counted from there.
    pub places: spec_fn(DataId) -> nat,
    /// What of the things it asks to write, by address and length, a run is
    /// followed up to.
    pub watch: spec_fn(u64, u64) -> bool,
    /// What the system leaves in the registers it may use, each time it is
    /// asked to write.
    pub replies: spec_fn(nat) -> (u64, u64, u64),
}

impl Ground {
    /// The address of a datum.
    pub open spec fn address(self, data: DataId) -> u64 {
        lower::word(self.origin + (self.places)(data))
    }
}

/// The registers by number, the words of the stack and which of them is the
/// top, what was found when two words were last compared, and how often the
/// system was asked to write.
pub struct State {
    pub regs: Seq<u64>,
    pub stack: Map<int, u64>,
    pub top: int,
    pub equal: bool,
    pub below: bool,
    pub asked: nat,
    pub ground: Ground,
}

/// An instruction, with registers by number.
pub enum Inst {
    Zero { dst: nat },
    Copy { dst: nat, src: nat, wide: bool },
    Push { value: u64 },
    Pop { dst: nat },
    Give { dst: nat, value: u64 },
    Load { dst: nat, at: nat },
    Store { src: nat, at: nat },
    Join { opcode: u8, dst: nat, src: nat },
    Compare { left: nat, right: nat },
    Test { reg: nat },
    /// The low byte alone.
    SetIf { cc: u8, dst: nat },
    /// The low byte, with the rest cleared.
    Widen { dst: nat, src: nat },
    /// The top of the stack by as many words.
    Shift { words: int },
    Jump { away: int },
    JumpIf { cc: u8, away: int },
    Call { away: int },
    /// An address, counted from the next instruction.
    Point { dst: nat, away: int },
    Leave,
    Ask,
}

/// What an opcode makes of two words.
pub open spec fn joined(opcode: u8, left: u64, right: u64) -> Option<u64> {
    if opcode == 0x01 {
        Some(lower::word(left + right))
    } else if opcode == 0x29 {
        Some(lower::word(left - right))
    } else if opcode == 0x21 {
        Some(left & right)
    } else {
        None
    }
}

/// Where code went: on, at a place in the code; or nowhere, the system having
/// been asked to stop with a status; or no further than to ask it to write what
/// is at an address, of a length.
pub enum Went {
    At(int, State),
    Stops(u64),
    Writes(u64, u64),
}

impl State {
    pub open spec fn wf(self) -> bool {
        self.regs.len() == 16
    }

    pub open spec fn set(self, dst: nat, value: u64) -> State {
        State { regs: self.regs.update(dst as int, value), ..self }
    }

    /// A word, so many up from the top.
    pub open spec fn word(self, at: int) -> u64 {
        self.stack[self.top + at]
    }

    pub open spec fn push(self, value: u64) -> State {
        State { stack: self.stack.insert(self.top - 1, value), top: self.top - 1, ..self }
    }

    pub open spec fn put(self, at: int, value: u64) -> State {
        State { stack: self.stack.insert(self.top + at, value), ..self }
    }

    pub open spec fn found(self, equal: bool, below: bool) -> State {
        State { equal, below, ..self }
    }

    /// Whether `cc` holds.
    pub open spec fn holds(self, cc: u8) -> bool {
        if cc == 0x4 {
            self.equal
        } else {
            self.below
        }
    }

    /// What an instruction does that goes on to the next.
    pub open spec fn does(self, inst: Inst) -> Option<State> {
        match inst {
            Inst::Zero { dst } => Some(self.set(dst, 0).found(true, false)),
            Inst::Copy { dst, src, wide } => Some(
                self.set(
                    dst,
                    if wide {
                        self.regs[src as int]
                    } else {
                        (self.regs[src as int] as nat % 0x1_0000_0000) as u64
                    },
                ),
            ),
            Inst::Push { value } => Some(self.push(value)),
            Inst::Pop { dst } => Some(
                State { top: self.top + 1, ..self.set(dst, self.word(0)) },
            ),
            Inst::Give { dst, value } => Some(self.set(dst, value)),
            Inst::Load { dst, at } => if at % 8 == 0 {
                Some(self.set(dst, self.word((at / 8) as int)))
            } else {
                None
            },
            Inst::Store { src, at } => if at % 8 == 0 {
                Some(self.put((at / 8) as int, self.regs[src as int]))
            } else {
                None
            },
            Inst::Join { opcode, dst, src } => {
                let (left, right) = (self.regs[dst as int], self.regs[src as int]);
                match joined(opcode, left, right) {
                    Some(value) => Some(
                        self.set(dst, value).found(
                            value == 0,
                            if opcode == 0x01 {
                                left + right >= size()
                            } else {
                                opcode == 0x29 && left < right
                            },
                        ),
                    ),
                    None => None,
                }
            },
            Inst::Compare { left, right } => Some(
                self.found(
                    self.regs[left as int] == self.regs[right as int],
                    self.regs[left as int] < self.regs[right as int],
                ),
            ),
            Inst::Test { reg } => Some(self.found(self.regs[reg as int] == 0, false)),
            Inst::SetIf { cc, dst } => if cc == 0x4 || cc == 0x2 {
                let rest = self.regs[dst as int] - self.regs[dst as int] % 256;
                Some(
                    self.set(
                        dst,
                        (rest + if self.holds(cc) {
                            1int
                        } else {
                            0int
                        }) as u64,
                    ),
                )
            } else {
                None
            },
            Inst::Widen { dst, src } => Some(
                self.set(dst, (self.regs[src as int] as nat % 256) as u64),
            ),
            // What it finds on the way is of no use to anything.
            Inst::Shift { words } => Some(
                State { top: self.top + words, ..self }.found(arbitrary(), arbitrary()),
            ),
            Inst::Ask => if self.asks_to_write() {
                let (rax, rcx, r11) = (self.ground.replies)(self.asked);
                Some(
                    State {
                        asked: self.asked + 1,
                        ..self.set(0, rax).set(1, rcx).set(11, r11)
                    },
                )
            } else {
                None
            },
            _ => None,
        }
    }

    /// Whether what the system is asked for is to write.
    pub open spec fn asks_to_write(self) -> bool {
        self.regs[0] == 1 && self.regs[7] == 1
    }
}

/// What an instruction at a place does, which is followed by the one at
/// `next`. An address on the stack is counted from `origin`, where the code
/// was loaded.
pub open spec fn acts(inst: Inst, origin: int, next: int, state: State) -> Option<Went> {
    match inst {
        Inst::Jump { away } => Some(Went::At(next + away, state)),
        Inst::JumpIf { cc, away } => if cc == 0x4 || cc == 0x2 {
            Some(
                Went::At(
                    if state.holds(cc) {
                        next + away
                    } else {
                        next
                    },
                    state,
                ),
            )
        } else {
            None
        },
        Inst::Call { away } => Some(
            Went::At(next + away, state.push(lower::word(origin + next))),
        ),
        Inst::Leave => Some(
            Went::At(state.word(0) - origin, State { top: state.top + 1, ..state }),
        ),
        Inst::Point { dst, away } => Some(
            Went::At(next, state.set(dst, lower::word(origin + next + away))),
        ),
        Inst::Ask if state.regs[0] == 60 => Some(Went::Stops(state.regs[7])),
        Inst::Ask if state.asks_to_write() && (state.ground.watch)(
            state.regs[6],
            state.regs[2],
        ) => Some(Went::Writes(state.regs[6], state.regs[2])),
        _ => match state.does(inst) {
            Some(after) => Some(Went::At(next, after)),
            None => None,
        },
    }
}

/// The first bytes there are, as a number.
pub open spec fn number(code: Seq<u8>, count: int) -> nat {
    bytes::from_little_endian(code.take(count))
}

/// A number of so many values, with the upper half of them below nothing.
pub open spec fn extended(value: nat, span: nat) -> int {
    if 2 * value < span {
        value as int
    } else {
        value - span
    }
}

/// An instruction that names one register or two in a byte of its own.
pub open spec fn named(opcode: u8, wide: bool, reg: nat, rm: nat, more: Seq<u8>) -> Option<
    (Inst, nat),
> {
    let mode = more[0] / 64;
    if mode == 3 {
        if opcode == 0x31 && !wide && reg == rm {
            Some((Inst::Zero { dst: rm }, 1))
        } else if opcode == 0x89 {
            Some((Inst::Copy { dst: rm, src: reg, wide }, 1))
        } else if opcode == 0xC7 && wide && reg % 8 == 0 && more.len() >= 5 {
            Some(
                (
                    Inst::Give {
                        dst: rm,
                        value: lower::word(extended(number(more.skip(1), 4), 0x1_0000_0000)),
                    },
                    5,
                ),
            )
        } else if (opcode == 0x01 || opcode == 0x29 || opcode == 0x21) && wide {
            Some((Inst::Join { opcode, dst: rm, src: reg }, 1))
        } else if opcode == 0x39 && wide {
            Some((Inst::Compare { left: rm, right: reg }, 1))
        } else if opcode == 0x85 && wide && reg == rm {
            Some((Inst::Test { reg }, 1))
        } else if opcode == 0x81 && wide && more.len() >= 5 && number(more.skip(1), 4)
            < 0x8000_0000 && number(more.skip(1), 4) % 8 == 0 {
            let words = number(more.skip(1), 4) / 8;
            if more[0] == 0xEC {
                Some((Inst::Shift { words: -words }, 5))
            } else if more[0] == 0xC4 {
                Some((Inst::Shift { words: words as int }, 5))
            } else {
                None
            }
        } else {
            None
        }
    } else if mode == 2 && more[0] % 8 == 4 && wide && more.len() >= 6 && more[1] == 0x24
        && number(more.skip(2), 4) < 0x8000_0000 {
        if opcode == 0x8B {
            Some((Inst::Load { dst: reg, at: number(more.skip(2), 4) }, 6))
        } else if opcode == 0x89 {
            Some((Inst::Store { src: reg, at: number(more.skip(2), 4) }, 6))
        } else {
            None
        }
    } else if mode == 0 && more[0] % 8 == 5 && wide && opcode == 0x8D && more.len() >= 5 {
        Some(
            (Inst::Point { dst: reg, away: extended(number(more.skip(1), 4), 0x1_0000_0000) }, 5),
        )
    } else {
        None
    }
}

/// An instruction past its prefix, and how many bytes of `code` it is.
pub open spec fn plain(wide: bool, upper_reg: nat, upper_rm: nat, code: Seq<u8>) -> Option<
    (Inst, nat),
> {
    let opcode = code[0];
    let more = code.skip(1);
    if 0x58 <= opcode < 0x60 {
        Some((Inst::Pop { dst: (opcode - 0x58) as nat + upper_rm }, 1))
    } else if opcode == 0x6A {
        if more.len() >= 1 {
            Some((Inst::Push { value: lower::word(extended(more[0] as nat, 256)) }, 2))
        } else {
            None
        }
    } else if 0xB8 <= opcode < 0xC0 {
        let dst = (opcode - 0xB8) as nat + upper_rm;
        if wide && more.len() >= 8 {
            Some((Inst::Give { dst, value: number(more, 8) as u64 }, 9))
        } else if !wide && more.len() >= 4 {
            Some((Inst::Give { dst, value: number(more, 4) as u64 }, 5))
        } else {
            None
        }
    } else if opcode == 0xE9 || opcode == 0xE8 {
        if more.len() >= 4 {
            let away = extended(number(more, 4), 0x1_0000_0000);
            if opcode == 0xE9 {
                Some((Inst::Jump { away }, 5))
            } else {
                Some((Inst::Call { away }, 5))
            }
        } else {
            None
        }
    } else if opcode == 0xC3 {
        Some((Inst::Leave, 1))
    } else if opcode == 0x0F {
        if more.len() >= 1 && more[0] == 0x05 {
            Some((Inst::Ask, 2))
        } else if more.len() >= 5 && 0x80 <= more[0] < 0x90 {
            Some(
                (
                    Inst::JumpIf {
                        cc: (more[0] - 0x80) as u8,
                        away: extended(number(more.skip(1), 4), 0x1_0000_0000),
                    },
                    6,
                ),
            )
        } else if more.len() >= 2 && more[1] / 64 == 3 {
            let reg = (more[1] / 8 % 8) as nat + upper_reg;
            let rm = (more[1] % 8) as nat + upper_rm;
            if 0x90 <= more[0] < 0xA0 && rm < 4 {
                Some((Inst::SetIf { cc: (more[0] - 0x90) as u8, dst: rm }, 3))
            } else if more[0] == 0xB6 && rm < 4 {
                Some((Inst::Widen { dst: reg, src: rm }, 3))
            } else {
                None
            }
        } else {
            None
        }
    } else if more.len() >= 1 {
        let reg = (more[0] / 8 % 8) as nat + upper_reg;
        let rm = (more[0] % 8) as nat + upper_rm;
        match named(opcode, wide, reg, rm, more) {
            Some((inst, taken)) => Some((inst, taken + 1)),
            None => None,
        }
    } else {
        None
    }
}

/// The instruction at the front of code, and how many bytes it is.
#[verifier::opaque]
pub open spec fn decoded(code: Seq<u8>) -> Option<(Inst, nat)> {
    if code.len() == 0 {
        None
    } else if 0x40 <= code[0] < 0x50 {
        if code.len() == 1 {
            None
        } else {
            let upper_reg: nat = if code[0] / 4 % 2 == 1 {
                8
            } else {
                0
            };
            let upper_rm: nat = if code[0] % 2 == 1 {
                8
            } else {
                0
            };
            match plain(code[0] >= 0x48, upper_reg, upper_rm, code.skip(1)) {
                Some((inst, taken)) => Some((inst, taken + 1)),
                None => None,
            }
        }
    } else {
        plain(false, 0, 0, code)
    }
}

/// One step, from a place in code.
pub open spec fn step(code: Seq<u8>, origin: int, at: int, state: State) -> Option<Went> {
    if 0 <= at < code.len() {
        match decoded(code.skip(at)) {
            Some((inst, taken)) => acts(inst, origin, at + taken, state),
            None => None,
        }
    } else {
        None
    }
}

/// So many steps, or as many as it takes to stop.
pub open spec fn goes(code: Seq<u8>, origin: int, at: int, state: State, steps: nat) -> Option<Went>
    decreases steps,
{
    if steps == 0 {
        Some(Went::At(at, state))
    } else {
        match step(code, origin, at, state) {
            Some(Went::At(next, after)) => goes(code, origin, next, after, (steps - 1) as nat),
            other => other,
        }
    }
}

/// Whether code gets from one place to another, and from one state to
/// another.
pub open spec fn reaches(
    code: Seq<u8>,
    origin: int,
    at: int,
    from: State,
    next: int,
    to: State,
) -> bool {
    &&& to.ground == from.ground
    &&& exists|steps: nat| #[trigger]
        goes(code, origin, at, from, steps) == Some(Went::At(next, to))
}

/// Whether code stops, with a status.
pub open spec fn stops(code: Seq<u8>, origin: int, at: int, from: State, status: u64) -> bool {
    exists|steps: nat| #[trigger] goes(code, origin, at, from, steps) == Some(Went::Stops(status))
}

/// Whether code asks to write something that is watched for.
pub open spec fn writes(
    code: Seq<u8>,
    origin: int,
    at: int,
    from: State,
    address: u64,
    len: u64,
) -> bool {
    exists|steps: nat| #[trigger]
        goes(code, origin, at, from, steps) == Some(Went::Writes(address, len))
}

proof fn steps_chain(
    code: Seq<u8>,
    origin: int,
    at: int,
    from: State,
    one: nat,
    next: int,
    by: State,
    other: nat,
)
    requires
        goes(code, origin, at, from, one) == Some(Went::At(next, by)),
    ensures
        goes(code, origin, at, from, one + other) == goes(code, origin, next, by, other),
    decreases one,
{
    if one > 0 {
        match step(code, origin, at, from) {
            Some(Went::At(then, after)) => {
                steps_chain(code, origin, then, after, (one - 1) as nat, next, by, other);
            },
            _ => {},
        }
    }
}

/// Getting somewhere, and from there somewhere else.
pub(super) proof fn reaching_chains(
    code: Seq<u8>,
    origin: int,
    at: int,
    from: State,
    mid: int,
    by: State,
    next: int,
    to: State,
)
    requires
        reaches(code, origin, at, from, mid, by),
        reaches(code, origin, mid, by, next, to),
    ensures
        reaches(code, origin, at, from, next, to),
{
    let one = choose|steps: nat| #[trigger]
        goes(code, origin, at, from, steps) == Some(Went::At(mid, by));
    let other = choose|steps: nat| #[trigger]
        goes(code, origin, mid, by, steps) == Some(Went::At(next, to));
    steps_chain(code, origin, at, from, one, mid, by, other);
    assert(goes(code, origin, at, from, one + other) == Some(Went::At(next, to)));
}

/// Getting somewhere, and stopping from there.
pub(super) proof fn stopping_chains(
    code: Seq<u8>,
    origin: int,
    at: int,
    from: State,
    mid: int,
    by: State,
    status: u64,
)
    requires
        reaches(code, origin, at, from, mid, by),
        stops(code, origin, mid, by, status),
    ensures
        stops(code, origin, at, from, status),
{
    let one = choose|steps: nat| #[trigger]
        goes(code, origin, at, from, steps) == Some(Went::At(mid, by));
    let other = choose|steps: nat| #[trigger]
        goes(code, origin, mid, by, steps) == Some(Went::Stops(status));
    steps_chain(code, origin, at, from, one, mid, by, other);
    assert(goes(code, origin, at, from, one + other) == Some(Went::Stops(status)));
}

/// Getting somewhere, and writing from there.
pub(super) proof fn writing_chains(
    code: Seq<u8>,
    origin: int,
    at: int,
    from: State,
    mid: int,
    by: State,
    address: u64,
    len: u64,
)
    requires
        reaches(code, origin, at, from, mid, by),
        writes(code, origin, mid, by, address, len),
    ensures
        writes(code, origin, at, from, address, len),
{
    let one = choose|steps: nat| #[trigger]
        goes(code, origin, at, from, steps) == Some(Went::At(mid, by));
    let other = choose|steps: nat| #[trigger]
        goes(code, origin, mid, by, steps) == Some(Went::Writes(address, len));
    steps_chain(code, origin, at, from, one, mid, by, other);
    assert(goes(code, origin, at, from, one + other) == Some(Went::Writes(address, len)));
}

pub(super) proof fn staying_reaches(code: Seq<u8>, origin: int, at: int, state: State)
    ensures
        reaches(code, origin, at, state, at, state),
{
    assert(goes(code, origin, at, state, 0) == Some(Went::At(at, state)));
}

/// No instruction changes what code runs on.
proof fn acting_stays_on_the_ground(inst: Inst, origin: int, next: int, state: State)
    ensures
        acts(inst, origin, next, state) matches Some(Went::At(_, after)) ==> after.ground
            == state.ground,
        state.does(inst) matches Some(after) ==> after.ground == state.ground,
{
}

/// One step gets where it goes.
pub(super) proof fn a_step_reaches(
    code: Seq<u8>,
    origin: int,
    at: int,
    from: State,
    next: int,
    to: State,
)
    requires
        step(code, origin, at, from) == Some(Went::At(next, to)),
    ensures
        reaches(code, origin, at, from, next, to),
{
    let (inst, taken) = decoded(code.skip(at))->Some_0;
    acting_stays_on_the_ground(inst, origin, at + taken, from);
    assert(goes(code, origin, next, to, 0) == Some(Went::At(next, to)));
    assert(goes(code, origin, at, from, 1) == Some(Went::At(next, to)));
}

pub(super) proof fn a_number_reads_back(value: nat, count: nat, rest: Seq<u8>)
    requires
        count == 4 ==> value < 0x1_0000_0000,
        count == 8 ==> value < 0x1_0000_0000_0000_0000,
        count == 4 || count == 8,
    ensures
        bytes::little_endian(value, count).len() == count,
        number(bytes::little_endian(value, count) + rest, count as int) == value,
{
    assert(vstd::arithmetic::power::pow(256, 4) == 0x1_0000_0000) by {
        reveal_with_fuel(vstd::arithmetic::power::pow, 5);
    }
    assert(vstd::arithmetic::power::pow(256, 8) == 0x1_0000_0000_0000_0000) by {
        reveal_with_fuel(vstd::arithmetic::power::pow, 9);
    }
    bytes::little_endian_reads_back(value, count);
    assert((bytes::little_endian(value, count) + rest).take(count as int)
        =~= bytes::little_endian(value, count));
}

proof fn zeroing_decodes(dst: Reg, rest: Seq<u8>)
    ensures
        decoded(encode::xor_self(dst) + rest) == Some(
            (Inst::Zero { dst: dst.number() }, encode::xor_self(dst).len()),
        ),
{
    reveal(decoded);
    let code = encode::xor_self(dst) + rest;
    if dst.extended() {
        assert(code =~= seq![0x45u8, 0x31u8, encode::modrm(dst, dst)] + rest);
        assert(code.skip(1) =~= seq![0x31u8, encode::modrm(dst, dst)] + rest);
        assert(code.skip(1).skip(1) =~= seq![encode::modrm(dst, dst)] + rest);
    } else {
        assert(code =~= seq![0x31u8, encode::modrm(dst, dst)] + rest);
        assert(code.skip(1) =~= seq![encode::modrm(dst, dst)] + rest);
    }
}

/// A byte that names two registers names those.
proof fn two_are_named(reg: Reg, rm: Reg)
    ensures
        encode::modrm(reg, rm) / 64 == 3,
        encode::modrm(reg, rm) / 8 % 8 == reg.low(),
        encode::modrm(reg, rm) % 8 == rm.low(),
        reg.number() == reg.low() + if reg.extended() {
            8nat
        } else {
            0nat
        },
        rm.number() == rm.low() + if rm.extended() {
            8nat
        } else {
            0nat
        },
{
    let (high, low) = (reg.low() as int, rm.low() as int);
    assert(0 <= high < 8 && 0 <= low < 8);
    let byte = 0xC0 + 8 * high + low;
    assert(byte / 64 == 3 && byte % 8 == low && byte / 8 == 24 + high);
}

proof fn copying_decodes(dst: Reg, src: Reg, wide: bool, rest: Seq<u8>)
    ensures
        encode::mov_reg(dst, src, wide).len() > 0,
        decoded(encode::mov_reg(dst, src, wide) + rest) == Some(
            (
                Inst::Copy { dst: dst.number(), src: src.number(), wide },
                encode::mov_reg(dst, src, wide).len(),
            ),
        ),
{
    reveal(decoded);
    let code = encode::mov_reg(dst, src, wide) + rest;
    let prefix = encode::rex(wide, Some(src), dst);
    let byte = encode::modrm(src, dst);
    let upper_reg: nat = if src.extended() {
        8
    } else {
        0
    };
    let upper_rm: nat = if dst.extended() {
        8
    } else {
        0
    };
    let inst = Inst::Copy { dst: dst.number(), src: src.number(), wide };
    let past = seq![0x89u8, byte] + rest;
    two_are_named(src, dst);
    assert(past.skip(1) =~= seq![byte] + rest);
    assert(named(0x89, wide, src.number(), dst.number(), past.skip(1)) == Some((inst, 1nat)));
    assert(plain(wide, upper_reg, upper_rm, past) == Some((inst, 2nat)));
    if wide || src.extended() || dst.extended() {
        assert(prefix.len() == 1);
        assert(code =~= prefix + past);
        assert(code.skip(1) =~= past);
        assert(0x40 <= code[0] < 0x50);
        assert((code[0] >= 0x48) == wide);
        assert((code[0] / 4 % 2 == 1) == src.extended());
        assert((code[0] % 2 == 1) == dst.extended());
    } else {
        assert(code =~= past);
    }
}

proof fn pushing_decodes(value: i8, rest: Seq<u8>)
    ensures
        decoded(encode::push_imm8(value) + rest) == Some(
            (Inst::Push { value: lower::word(value as int) }, 2nat),
        ),
{
    reveal(decoded);
    let code = encode::push_imm8(value) + rest;
    assert(code.skip(1) =~= seq![(value as int % 256) as u8] + rest);
    assert(code[0] == 0x6A);
    let byte = code.skip(1)[0];
    if value >= 0 {
        assert(value as int % 256 == value);
    } else {
        assert(value as int % 256 == value + 256);
    }
    assert(extended(byte as nat, 256) == value);
    assert(decoded(code) == plain(false, 0, 0, code));
}

proof fn popping_decodes(dst: Reg, rest: Seq<u8>)
    ensures
        decoded(encode::pop(dst) + rest) == Some(
            (Inst::Pop { dst: dst.number() }, encode::pop(dst).len()),
        ),
{
    reveal(decoded);
    let code = encode::pop(dst) + rest;
    if dst.extended() {
        assert(code =~= seq![0x41u8, (0x58 + dst.low()) as u8] + rest);
        assert(code.skip(1) =~= seq![(0x58 + dst.low()) as u8] + rest);
    } else {
        assert(code =~= seq![(0x58 + dst.low()) as u8] + rest);
    }
}

proof fn signed_setting_decodes(dst: Reg, value: i32, rest: Seq<u8>)
    ensures
        decoded(encode::mov_sext_imm32(dst, value) + rest) == Some(
            (
                Inst::Give { dst: dst.number(), value: lower::word(value as int) },
                encode::mov_sext_imm32(dst, value).len(),
            ),
        ),
{
    reveal(decoded);
    let code = encode::mov_sext_imm32(dst, value) + rest;
    let prefix = encode::rex(true, None, dst);
    let byte = encode::modrm(Reg::Rax, dst);
    let filling = bytes::little_endian(encode::pattern(value), 4);
    if value >= 0 {
        assert(value as int % 0x1_0000_0000 == value);
    } else {
        assert(value as int % 0x1_0000_0000 == value + 0x1_0000_0000);
    }
    a_number_reads_back(encode::pattern(value), 4, rest);
    assert(code =~= seq![prefix[0], 0xC7u8, byte] + (filling + rest));
    assert(code.skip(1) =~= seq![0xC7u8, byte] + (filling + rest));
    assert(code.skip(1).skip(1) =~= seq![byte] + (filling + rest));
    assert(code.skip(1).skip(1).skip(1) =~= filling + rest);
}

proof fn short_setting_decodes(dst: Reg, value: u32, rest: Seq<u8>)
    ensures
        decoded(encode::mov_imm32(dst, value) + rest) == Some(
            (
                Inst::Give { dst: dst.number(), value: value as u64 },
                encode::mov_imm32(dst, value).len(),
            ),
        ),
{
    reveal(decoded);
    let code = encode::mov_imm32(dst, value) + rest;
    let opcode = (0xB8 + dst.low()) as u8;
    let filling = bytes::little_endian(value as nat, 4);
    a_number_reads_back(value as nat, 4, rest);
    if dst.extended() {
        assert(code =~= seq![0x41u8, opcode] + (filling + rest));
        assert(code.skip(1) =~= seq![opcode] + (filling + rest));
        assert(code.skip(1).skip(1) =~= filling + rest);
    } else {
        assert(code =~= seq![opcode] + (filling + rest));
        assert(code.skip(1) =~= filling + rest);
    }
}

proof fn long_setting_decodes(dst: Reg, value: u64, rest: Seq<u8>)
    ensures
        decoded(encode::mov_imm64(dst, value) + rest) == Some(
            (Inst::Give { dst: dst.number(), value }, encode::mov_imm64(dst, value).len()),
        ),
{
    reveal(decoded);
    let code = encode::mov_imm64(dst, value) + rest;
    let opcode = (0xB8 + dst.low()) as u8;
    let prefix = if dst.extended() {
        0x49u8
    } else {
        0x48u8
    };
    let filling = bytes::little_endian(value as nat, 8);
    a_number_reads_back(value as nat, 8, rest);
    assert(code =~= seq![prefix, opcode] + (filling + rest));
    assert(code.skip(1) =~= seq![opcode] + (filling + rest));
    assert(code.skip(1).skip(1) =~= filling + rest);
}

proof fn a_slot_decodes(opcode: u8, reg: Reg, disp: u32, rest: Seq<u8>)
    requires
        opcode == 0x8B || opcode == 0x89,
        disp < 0x8000_0000,
    ensures
        encode::slot(opcode, reg, disp).len() == 8,
        decoded(encode::slot(opcode, reg, disp) + rest) == Some(
            (
                if opcode == 0x8B {
                    Inst::Load { dst: reg.number(), at: disp as nat }
                } else {
                    Inst::Store { src: reg.number(), at: disp as nat }
                },
                8nat,
            ),
        ),
{
    reveal(decoded);
    let code = encode::slot(opcode, reg, disp) + rest;
    let prefix = if reg.extended() {
        0x4Cu8
    } else {
        0x48u8
    };
    let byte = (0x84 + 8 * reg.low()) as u8;
    let filling = bytes::little_endian(disp as nat, 4);
    a_number_reads_back(disp as nat, 4, rest);
    assert(code =~= seq![prefix, opcode, byte, 0x24u8] + (filling + rest));
    assert(code.skip(1) =~= seq![opcode, byte, 0x24u8] + (filling + rest));
    let more = code.skip(1).skip(1);
    assert(more =~= seq![byte, 0x24u8] + (filling + rest));
    assert(more.skip(2) =~= filling + rest);
}

proof fn joining_decodes(opcode: u8, rest: Seq<u8>)
    requires
        opcode == 0x01 || opcode == 0x29 || opcode == 0x21 || opcode == 0x39,
    ensures
        encode::alu(opcode, Reg::Rax, Reg::Rcx).len() == 3,
        decoded(encode::alu(opcode, Reg::Rax, Reg::Rcx) + rest) == Some(
            (
                if opcode == 0x39 {
                    Inst::Compare { left: 0, right: 1 }
                } else {
                    Inst::Join { opcode, dst: 0, src: 1 }
                },
                3nat,
            ),
        ),
{
    reveal(decoded);
    let code = encode::alu(opcode, Reg::Rax, Reg::Rcx) + rest;
    assert(code =~= seq![0x48u8, opcode, 0xC8u8] + rest);
    assert(code.skip(1) =~= seq![opcode, 0xC8u8] + rest);
    assert(code.skip(1).skip(1) =~= seq![0xC8u8] + rest);
}

/// Whether code stands at a place in other code.
pub open spec fn stands_at(whole: Seq<u8>, at: int, code: Seq<u8>) -> bool {
    &&& 0 <= at
    &&& at + code.len() <= whole.len()
    &&& whole.subrange(at, at + code.len() as int) == code
}

/// Whether code that stands at a place leads past itself.
pub open spec fn carries(
    whole: Seq<u8>,
    origin: int,
    at: int,
    code: Seq<u8>,
    from: State,
    to: State,
) -> bool {
    stands_at(whole, at, code) ==> reaches(
        whole,
        origin,
        at,
        from,
        at + code.len() as int,
        to,
    )
}

/// Whether code leads from one state to another, wherever it stands.
pub open spec fn leads(code: Seq<u8>, from: State, to: State) -> bool {
    forall|whole: Seq<u8>, origin: int, at: int| #[trigger]
        carries(whole, origin, at, code, from, to)
}

/// Whether a byte belongs to an address that is filled in later, from the one
/// at `settled` on.
pub open spec fn is_open(relocs: Seq<Reloc>, settled: nat, i: int) -> bool {
    exists|j: int|
        settled <= j < relocs.len() && (#[trigger] relocs[j]).offset <= i < relocs[j].offset + 4
}

/// Whether an address is filled in with the distance to its datum.
pub open spec fn is_filled(whole: Seq<u8>, reloc: Reloc, places: spec_fn(DataId) -> nat) -> bool {
    let away = encode::away(reloc.offset as nat, places(reloc.data));
    &&& i32::MIN <= away <= i32::MAX
    &&& whole.subrange(reloc.offset as int, reloc.offset + 4) == bytes::little_endian(
        (away % 0x1_0000_0000) as nat,
        4,
    )
}

/// Whether what was written from `start` on stands where it was written, with
/// its addresses filled in, from the one at `settled` on.
pub open spec fn stands_filled(
    whole: Seq<u8>,
    start: nat,
    settled: nat,
    code: Seq<u8>,
    relocs: Seq<Reloc>,
    places: spec_fn(DataId) -> nat,
) -> bool {
    &&& code.len() <= whole.len() <= usize::MAX
    &&& forall|i: int|
        start <= i < code.len() && !is_open(relocs, settled, i) ==> #[trigger] whole[i] == code[i]
    &&& forall|j: int|
        settled <= j < relocs.len() ==> is_filled(whole, #[trigger] relocs[j], places)
}

/// Whether it leads, where it stands so, from one state to another.
pub open spec fn conveys(
    whole: Seq<u8>,
    start: nat,
    settled: nat,
    code: Seq<u8>,
    relocs: Seq<Reloc>,
    from: State,
    to: State,
) -> bool {
    stands_filled(whole, start, settled, code, relocs, from.ground.places) ==> reaches(
        whole,
        from.ground.origin,
        start as int,
        from,
        code.len() as int,
        to,
    )
}

/// Whether what is written after something goes straight on from it, and
/// leads from one state to another.
pub open spec fn goes_on(before: Work, after: Work, from: State, to: State) -> bool {
    &&& before.code.is_prefix_of(after.code)
    &&& after.jumps == before.jumps
    &&& after.labels == before.labels
    &&& before.relocs.is_prefix_of(after.relocs)
    &&& after.code.len() <= usize::MAX ==> forall|j: int|
        before.relocs.len() <= j < after.relocs.len() ==> before.code.len() <= (
        #[trigger] after.relocs[j]).offset && after.relocs[j].offset + 4 <= after.code.len()
    &&& to.ground == from.ground
    &&& forall|whole: Seq<u8>| #[trigger]
        conveys(
            whole,
            before.code.len(),
            before.relocs.len(),
            after.code,
            after.relocs,
            from,
            to,
        )
}

proof fn leading_chains(one: Seq<u8>, other: Seq<u8>, from: State, by: State, to: State)
    requires
        leads(one, from, by),
        leads(other, by, to),
    ensures
        leads(one + other, from, to),
{
    let both = one + other;
    assert forall|whole: Seq<u8>, origin: int, at: int| #[trigger]
        carries(whole, origin, at, both, from, to) by {
        if stands_at(whole, at, both) {
            let mid = at + one.len() as int;
            let end = at + both.len() as int;
            assert(whole.subrange(at, mid) =~= one) by {
                assert(whole.subrange(at, end).subrange(0, one.len() as int) =~= one);
                assert(whole.subrange(at, mid) =~= whole.subrange(at, end).subrange(
                    0,
                    one.len() as int,
                ));
            }
            assert(whole.subrange(mid, end) =~= other) by {
                assert(whole.subrange(at, end).subrange(one.len() as int, both.len() as int)
                    =~= other);
                assert(whole.subrange(mid, end) =~= whole.subrange(at, end).subrange(
                    one.len() as int,
                    both.len() as int,
                ));
            }
            assert(carries(whole, origin, at, one, from, by));
            assert(carries(whole, origin, mid, other, by, to));
            reaching_chains(whole, origin, at, from, mid, by, end, to);
        }
    }
}

pub(super) proof fn going_on_chains(
    first: Work,
    second: Work,
    third: Work,
    from: State,
    by: State,
    to: State,
)
    requires
        goes_on(first, second, from, by),
        goes_on(second, third, by, to),
    ensures
        goes_on(first, third, from, to),
{
    assert forall|i: int| 0 <= i < first.code.len() implies first.code[i] == third.code[i] by {
        assert(first.code[i] == second.code[i]);
    }
    assert forall|j: int| 0 <= j < first.relocs.len() implies first.relocs[j] == third.relocs[j] by {
        assert(first.relocs[j] == second.relocs[j]);
    }
    if third.code.len() <= usize::MAX {
        assert forall|j: int| first.relocs.len() <= j < third.relocs.len() implies
            first.code.len() <= (#[trigger] third.relocs[j]).offset && third.relocs[j].offset + 4
            <= third.code.len() by {
            if j < second.relocs.len() {
                assert(second.relocs[j] == third.relocs[j]);
            }
        }
    }
    assert forall|whole: Seq<u8>| #[trigger]
        conveys(
            whole,
            first.code.len(),
            first.relocs.len(),
            third.code,
            third.relocs,
            from,
            to,
        ) by {
        let places = from.ground.places;
        if stands_filled(
            whole,
            first.code.len(),
            first.relocs.len(),
            third.code,
            third.relocs,
            places,
        ) {
            halves_stand(first, second, third, whole, places);
            assert(conveys(
                whole,
                first.code.len(),
                first.relocs.len(),
                second.code,
                second.relocs,
                from,
                by,
            ));
            assert(conveys(
                whole,
                second.code.len(),
                second.relocs.len(),
                third.code,
                third.relocs,
                by,
                to,
            ));
            reaching_chains(
                whole,
                from.ground.origin,
                first.code.len() as int,
                from,
                second.code.len() as int,
                by,
                third.code.len() as int,
                to,
            );
        }
    }
}

/// What stands filled in stands so one part after the other.
proof fn halves_stand(
    first: Work,
    second: Work,
    third: Work,
    whole: Seq<u8>,
    places: spec_fn(DataId) -> nat,
)
    requires
        first.code.is_prefix_of(second.code),
        second.code.is_prefix_of(third.code),
        first.relocs.is_prefix_of(second.relocs),
        second.relocs.is_prefix_of(third.relocs),
        forall|j: int|
            first.relocs.len() <= j < second.relocs.len() ==> (#[trigger] second.relocs[j]).offset
                + 4 <= second.code.len(),
        forall|j: int|
            second.relocs.len() <= j < third.relocs.len() ==> second.code.len() <= (
            #[trigger] third.relocs[j]).offset,
        stands_filled(
            whole,
            first.code.len(),
            first.relocs.len(),
            third.code,
            third.relocs,
            places,
        ),
    ensures
        stands_filled(
            whole,
            first.code.len(),
            first.relocs.len(),
            second.code,
            second.relocs,
            places,
        ),
        stands_filled(
            whole,
            second.code.len(),
            second.relocs.len(),
            third.code,
            third.relocs,
            places,
        ),
{
    assert forall|i: int|
        first.code.len() <= i < second.code.len() && !is_open(
            second.relocs,
            first.relocs.len(),
            i,
        ) implies #[trigger] whole[i] == second.code[i] by {
        assert(!is_open(third.relocs, first.relocs.len(), i)) by {
            assert forall|j: int| first.relocs.len() <= j < third.relocs.len() implies !((
            #[trigger] third.relocs[j]).offset <= i < third.relocs[j].offset + 4) by {
                if j < second.relocs.len() {
                    assert(second.relocs[j] == third.relocs[j]);
                }
            }
        }
        assert(second.code[i] == third.code[i]);
    }
    assert forall|j: int| first.relocs.len() <= j < second.relocs.len() implies is_filled(
        whole,
        #[trigger] second.relocs[j],
        places,
    ) by {
        assert(second.relocs[j] == third.relocs[j]);
    }
    assert forall|i: int|
        second.code.len() <= i < third.code.len() && !is_open(
            third.relocs,
            second.relocs.len(),
            i,
        ) implies #[trigger] whole[i] == third.code[i] by {
        assert(!is_open(third.relocs, first.relocs.len(), i)) by {
            assert forall|j: int| first.relocs.len() <= j < third.relocs.len() implies !((
            #[trigger] third.relocs[j]).offset <= i < third.relocs[j].offset + 4) by {
                if j < second.relocs.len() {
                    assert(second.relocs[j] == third.relocs[j]);
                }
            }
        }
    }
}

pub(super) proof fn nothing_goes_nowhere(work: Work, state: State)
    ensures
        goes_on(work, work, state, state),
{
    assert forall|whole: Seq<u8>| #[trigger]
        conveys(
            whole,
            work.code.len(),
            work.relocs.len(),
            work.code,
            work.relocs,
            state,
            state,
        ) by {
        staying_reaches(whole, state.ground.origin, work.code.len() as int, state);
    }
}

proof fn nothing_leads_nowhere(state: State)
    ensures
        leads(Seq::<u8>::empty(), state, state),
{
    assert forall|whole: Seq<u8>, origin: int, at: int| #[trigger]
        carries(whole, origin, at, Seq::<u8>::empty(), state, state) by {
        staying_reaches(whole, origin, at, state);
    }
}

/// Code that leads somewhere, written.
pub(super) proof fn what_is_written_leads(work: Work, code: Seq<u8>, from: State, to: State)
    requires
        leads(code, from, to),
    ensures
        goes_on(work, work.emit(code), from, to),
{
    let after = work.emit(code);
    let at = work.code.len() as int;
    assert(carries(code, 0, 0, code, from, to));
    assert(code.subrange(0, code.len() as int) =~= code);
    assert forall|whole: Seq<u8>| #[trigger]
        conveys(
            whole,
            work.code.len(),
            work.relocs.len(),
            after.code,
            after.relocs,
            from,
            to,
        ) by {
        if stands_filled(
            whole,
            work.code.len(),
            work.relocs.len(),
            after.code,
            after.relocs,
            from.ground.places,
        ) {
            assert(whole.subrange(at, at + code.len() as int) =~= code) by {
                assert forall|i: int| 0 <= i < code.len() implies whole[at + i] == code[i] by {
                    assert(!is_open(after.relocs, work.relocs.len(), at + i));
                    assert(after.code[at + i] == code[i]);
                }
            }
            assert(carries(whole, from.ground.origin, at, code, from, to));
        }
    }
}

/// Where an instruction stands, it is what is decoded.
pub(super) proof fn what_stands_is_decoded(whole: Seq<u8>, at: int, code: Seq<u8>, inst: Inst)
    requires
        code.len() > 0,
        forall|rest: Seq<u8>| #[trigger] decoded(code + rest) == Some((inst, code.len())),
        stands_at(whole, at, code),
    ensures
        decoded(whole.skip(at)) == Some((inst, code.len())),
{
    let rest = whole.skip(at + code.len() as int);
    assert(whole.skip(at) =~= code + rest) by {
        assert forall|i: int| 0 <= i < code.len() implies whole.skip(at)[i] == code[i] by {
            assert(whole.subrange(at, at + code.len() as int)[i] == code[i]);
        }
    }
    assert(decoded(code + rest) == Some((inst, code.len())));
}

/// One instruction.
pub(super) proof fn one_leads(code: Seq<u8>, inst: Inst, from: State)
    requires
        code.len() > 0,
        forall|rest: Seq<u8>| #[trigger] decoded(code + rest) == Some((inst, code.len())),
        from.does(inst) is Some,
        inst is Ask ==> !(from.ground.watch)(from.regs[6], from.regs[2]),
    ensures
        leads(code, from, from.does(inst)->Some_0),
{
    let to = from.does(inst)->Some_0;
    assert forall|whole: Seq<u8>, origin: int, at: int| #[trigger]
        carries(whole, origin, at, code, from, to) by {
        if stands_at(whole, at, code) {
            what_stands_is_decoded(whole, at, code, inst);
            a_step_reaches(whole, origin, at, from, at + code.len() as int, to);
        }
    }
}

/// Whether everything from the top of the stack up is as it was.
pub open spec fn keeps(before: State, after: State) -> bool {
    &&& after.ground == before.ground
    &&& after.top == before.top
    &&& forall|i: int| i >= 0 ==> #[trigger] after.word(i) == before.word(i)
}

proof fn a_push_and_a_pop_lead(value: i8, dst: Reg, from: State) -> (after: State)
    requires
        from.wf(),
    ensures
        leads(encode::push_imm8(value) + encode::pop(dst), from, after),
        after.regs == from.regs.update(dst.number() as int, lower::word(value as int)),
        keeps(from, after),
{
    let word = lower::word(value as int);
    let push = Inst::Push { value: word };
    let pop = Inst::Pop { dst: dst.number() };
    let by = from.push(word);
    let after = by.does(pop)->Some_0;
    let (first, second) = (encode::push_imm8(value), encode::pop(dst));
    assert forall|rest: Seq<u8>| #[trigger] decoded(first + rest) == Some(
        (push, first.len()),
    ) by {
        pushing_decodes(value, rest);
    }
    one_leads(first, push, from);
    assert forall|rest: Seq<u8>| #[trigger] decoded(second + rest) == Some(
        (pop, second.len()),
    ) by {
        popping_decodes(dst, rest);
    }
    one_leads(second, pop, by);
    leading_chains(first, second, from, by, after);
    assert forall|i: int| i >= 0 implies #[trigger] after.word(i) == from.word(i) by {
        assert(after.stack[after.top + i] == from.stack[from.top + i]);
    }
    after
}

proof fn a_copy_leads(dst: Reg, src: Reg, wide: bool, from: State)
    ensures
        leads(
            encode::mov_reg(dst, src, wide),
            from,
            from.set(dst.number(), (Form::Copy { src, wide }).leaves(from.regs, dst)),
        ),
{
    let code = encode::mov_reg(dst, src, wide);
    let inst = Inst::Copy { dst: dst.number(), src: src.number(), wide };
    assert forall|rest: Seq<u8>| #[trigger] decoded(code + rest) == Some((inst, code.len())) by {
        copying_decodes(dst, src, wide, rest);
    }
    copying_decodes(dst, src, wide, seq![]);
    one_leads(code, inst, from);
}

/// A constant goes into a register, however it is put there.
proof fn a_form_leads(form: Form, dst: Reg, from: State) -> (after: State)
    requires
        from.wf(),
    ensures
        leads(form.code(dst), from, after),
        after.regs == from.regs.update(dst.number() as int, form.leaves(from.regs, dst)),
        keeps(from, after),
{
    let code = form.code(dst);
    match form {
        Form::Nothing => {
            nothing_leads_nowhere(from);
            assert(from.regs.update(dst.number() as int, from.regs[dst.number() as int])
                =~= from.regs);
            from
        },
        Form::Zero => {
            let inst = Inst::Zero { dst: dst.number() };
            assert forall|rest: Seq<u8>| #[trigger] decoded(code + rest) == Some(
                (inst, code.len()),
            ) by {
                zeroing_decodes(dst, rest);
            }
            one_leads(code, inst, from);
            from.does(inst)->Some_0
        },
        Form::Copy { src, wide } => {
            a_copy_leads(dst, src, wide, from);
            from.set(dst.number(), form.leaves(from.regs, dst))
        },
        Form::PushPop { value } => a_push_and_a_pop_lead(value, dst, from),
        Form::Imm32 { value } => {
            let inst = Inst::Give { dst: dst.number(), value: value as u64 };
            assert forall|rest: Seq<u8>| #[trigger] decoded(code + rest) == Some(
                (inst, code.len()),
            ) by {
                short_setting_decodes(dst, value, rest);
            }
            one_leads(code, inst, from);
            from.does(inst)->Some_0
        },
        Form::Sext { value } => {
            let inst = Inst::Give { dst: dst.number(), value: lower::word(value as int) };
            assert forall|rest: Seq<u8>| #[trigger] decoded(code + rest) == Some(
                (inst, code.len()),
            ) by {
                signed_setting_decodes(dst, value, rest);
            }
            one_leads(code, inst, from);
            from.does(inst)->Some_0
        },
        Form::Imm64 { value } => {
            let inst = Inst::Give { dst: dst.number(), value };
            assert forall|rest: Seq<u8>| #[trigger] decoded(code + rest) == Some(
                (inst, code.len()),
            ) by {
                long_setting_decodes(dst, value, rest);
            }
            one_leads(code, inst, from);
            from.does(inst)->Some_0
        },
    }
}

/// Whether the registers hold what they are thought to.
pub open spec fn is_known(work: Work, state: State) -> bool {
    lower::true_of(work.known, state.regs)
}

pub(super) proof fn a_constant_is_loaded(work: Work, dst: Reg, value: u64, from: State) -> (
    after: State)
    requires
        is_known(work, from),
    ensures
        goes_on(work, work.load_const(dst, value), from, after),
        is_known(work.load_const(dst, value), after),
        after.regs == from.regs.update(dst.number() as int, value),
        keeps(from, after),
{
    let form = lower::form(work.known, dst, value);
    lower::a_constant_arrives(work.known, from.regs, dst, value);
    let after = a_form_leads(form, dst, from);
    what_is_written_leads(work, form.code(dst), from, after);
    after
}

pub(super) proof fn a_slot_is_loaded(work: Work, dst: Reg, word: nat, from: State)
    requires
        is_known(work, from),
        8 * word < 0x8000_0000,
    ensures
        goes_on(
            work,
            work.load_slot(dst, 8 * word),
            from,
            from.set(dst.number(), from.word(word as int)),
        ),
        is_known(
            work.load_slot(dst, 8 * word),
            from.set(dst.number(), from.word(word as int)),
        ),
{
    let inst = Inst::Load { dst: dst.number(), at: 8 * word };
    let code = encode::load_slot(dst, (8 * word) as u32);
    assert forall|rest: Seq<u8>| #[trigger] decoded(code + rest) == Some((inst, code.len())) by {
        a_slot_decodes(0x8B, dst, (8 * word) as u32, rest);
    }
    a_slot_decodes(0x8B, dst, (8 * word) as u32, seq![]);
    assert((8 * word) % 8 == 0 && (8 * word) / 8 == word);
    one_leads(code, inst, from);
    what_is_written_leads(work, code, from, from.does(inst)->Some_0);
}

proof fn pointing_decodes(dst: Reg, away: int, rest: Seq<u8>)
    requires
        i32::MIN <= away <= i32::MAX,
    ensures
        ({
            let filling = bytes::little_endian((away % 0x1_0000_0000) as nat, 4);
            let code = encode::rex(true, Some(dst), Reg::Rax) + seq![
                0x8Du8,
                (8 * dst.low() + 5) as u8,
            ] + filling;
            &&& code.len() == 7
            &&& decoded(code + rest) == Some((Inst::Point { dst: dst.number(), away }, 7nat))
        }),
{
    reveal(decoded);
    let filling = bytes::little_endian((away % 0x1_0000_0000) as nat, 4);
    let byte = (8 * dst.low() + 5) as u8;
    let prefix = encode::rex(true, Some(dst), Reg::Rax);
    let code = prefix + seq![0x8Du8, byte] + filling + rest;
    a_number_reads_back((away % 0x1_0000_0000) as nat, 4, rest);
    assert(prefix.len() == 1);
    assert(code.skip(1) =~= seq![0x8Du8, byte] + filling + rest);
    assert(code.skip(1).skip(1) =~= seq![byte] + filling + rest);
    assert(code.skip(1).skip(1).skip(1) =~= filling + rest);
    assert(byte / 64 == 0 && byte % 8 == 5 && byte / 8 % 8 == dst.low());
    assert((code[0] / 4 % 2 == 1) == dst.extended());
    assert(extended((away % 0x1_0000_0000) as nat, 0x1_0000_0000) == away);
    assert(decoded(code) == Some((Inst::Point { dst: dst.number(), away }, 7nat)));
}

/// An address goes into a register.
pub(super) proof fn an_address_is_loaded(work: Work, dst: Reg, data: DataId, from: State)
    requires
        is_known(work, from),
    ensures
        goes_on(
            work,
            work.load_addr(dst, data),
            from,
            from.set(dst.number(), from.ground.address(data)),
        ),
        is_known(
            work.load_addr(dst, data),
            from.set(dst.number(), from.ground.address(data)),
        ),
{
    let after = work.load_addr(dst, data);
    let to = from.set(dst.number(), from.ground.address(data));
    let at = work.code.len() as int;
    let last = work.relocs.len() as int;
    let places = from.ground.places;
    let reloc = after.relocs[last];
    let front = encode::rex(true, Some(dst), Reg::Rax) + seq![0x8Du8, (8 * dst.low() + 5) as u8];
    assert(front.len() == 3);
    bytes::little_endian_length(0, 4);
    assert(after.code =~= work.code + front + encode::hole());
    assert forall|whole: Seq<u8>| #[trigger]
        conveys(
            whole,
            work.code.len(),
            work.relocs.len(),
            after.code,
            after.relocs,
            from,
            to,
        ) by {
        if stands_filled(
            whole,
            work.code.len(),
            work.relocs.len(),
            after.code,
            after.relocs,
            places,
        ) {
            assert(reloc.offset == at + 3);
            assert(is_filled(whole, after.relocs[last], places));
            let away = encode::away(reloc.offset as nat, places(data));
            let filling = bytes::little_endian((away % 0x1_0000_0000) as nat, 4);
            let code = front + filling;
            let inst = Inst::Point { dst: dst.number(), away };
            pointing_decodes(dst, away, seq![]);
            assert forall|rest: Seq<u8>| #[trigger] decoded(code + rest) == Some(
                (inst, code.len()),
            ) by {
                pointing_decodes(dst, away, rest);
            }
            assert(whole.subrange(at, at + code.len() as int) =~= code) by {
                assert forall|i: int| 0 <= i < code.len() implies whole[at + i] == code[i] by {
                    if i < 3 {
                        assert(!is_open(after.relocs, work.relocs.len(), at + i));
                        assert(after.code[at + i] == front[i]);
                    } else {
                        assert(whole.subrange(reloc.offset as int, reloc.offset + 4)[i - 3]
                            == filling[i - 3]);
                    }
                }
            }
            what_stands_is_decoded(whole, at, code, inst);
            assert(step(whole, from.ground.origin, at, from) == Some(Went::At(at + 7, to)));
            a_step_reaches(whole, from.ground.origin, at, from, at + 7, to);
        }
    }
}

/// Writing what is not watched for goes on, whatever the system leaves behind.
pub(super) proof fn asking_to_write_goes_on(work: Work, from: State) -> (after: State)
    requires
        is_known(work, from),
        from.asks_to_write(),
        !(from.ground.watch)(from.regs[6], from.regs[2]),
    ensures
        goes_on(work, work.syscall(), from, after),
        is_known(work.syscall(), after),
        keeps(from, after),
{
    let code = encode::syscall();
    assert forall|rest: Seq<u8>| #[trigger] decoded(code + rest) == Some(
        (Inst::Ask, code.len()),
    ) by {
        reveal(decoded);
        assert((code + rest).skip(1) =~= seq![0x05u8] + rest);
    }
    one_leads(code, Inst::Ask, from);
    let after = from.does(Inst::Ask)->Some_0;
    what_is_written_leads(work, code, from, after);
    after
}

/// With a word of the stack what `rax` is.
pub open spec fn stored(state: State, word: nat) -> State {
    state.put(word as int, state.regs[0])
}

pub(super) proof fn a_slot_is_stored(work: Work, word: nat, from: State)
    requires
        from.wf(),
        8 * word < 0x8000_0000,
    ensures
        goes_on(work, work.store_slot(8 * word), from, stored(from, word)),
        forall|i: int|
            i != word ==> #[trigger] stored(from, word).word(i) == from.word(i),
        stored(from, word).word(word as int) == from.regs[0],
{
    let inst = Inst::Store { src: 0, at: 8 * word };
    let code = encode::store_slot(Reg::Rax, (8 * word) as u32);
    assert forall|rest: Seq<u8>| #[trigger] decoded(code + rest) == Some((inst, code.len())) by {
        a_slot_decodes(0x89, Reg::Rax, (8 * word) as u32, rest);
    }
    a_slot_decodes(0x89, Reg::Rax, (8 * word) as u32, seq![]);
    assert((8 * word) % 8 == 0 && (8 * word) / 8 == word);
    one_leads(code, inst, from);
    what_is_written_leads(work, code, from, stored(from, word));
    assert forall|i: int| i != word implies #[trigger] stored(from, word).word(i) == from.word(
        i,
    ) by {
        assert(from.top + i != from.top + word as int);
    }
}

impl Stage {
    /// The word a value is, where the stack holds what it does.
    pub open spec fn word(self, value: ValueId, state: State) -> u64 {
        match self.layout.source[value.0 as int] {
            Source::Const(word) => word,
            Source::Slot(index) => state.word(self.layout.outgoing + index),
            Source::Param(index) => state.word(self.layout.words() + 1 + index),
            Source::Addr(data) => state.ground.address(data),
        }
    }

    /// The word of the frame a value has, if it has one.
    pub open spec fn place(self, value: ValueId) -> int {
        self.layout.outgoing + self.layout.source[value.0 as int]->Slot_0
    }
}

/// A value goes into a register.
pub(super) proof fn a_value_is_read(
    stage: Stage,
    work: Work,
    dst: Reg,
    value: ValueId,
    from: State,
) -> (after: State)
    requires
        is_known(work, from),
        stage.layout.fits(),
        !stage.read(work, dst, value).failed,
    ensures
        !work.failed,
        goes_on(work, stage.read(work, dst, value), from, after),
        is_known(stage.read(work, dst, value), after),
        after.regs == from.regs.update(dst.number() as int, stage.word(value, from)),
        keeps(from, after),
{
    match stage.layout.source[value.0 as int] {
        Source::Const(word) => a_constant_is_loaded(work, dst, word, from),
        Source::Slot(index) => {
            a_slot_is_loaded(work, dst, stage.layout.outgoing + index as nat, from);
            from.set(dst.number(), stage.word(value, from))
        },
        Source::Param(index) => {
            a_slot_is_loaded(work, dst, stage.layout.words() + 1 + index as nat, from);
            from.set(dst.number(), stage.word(value, from))
        },
        Source::Addr(data) => {
            an_address_is_loaded(work, dst, data, from);
            from.set(dst.number(), stage.word(value, from))
        },
    }
}

/// What a value is does not change where nothing of the stack does.
pub(super) proof fn a_word_is_kept(stage: Stage, value: ValueId, before: State, after: State)
    requires
        keeps(before, after),
    ensures
        stage.word(value, after) == stage.word(value, before),
{
    match stage.layout.source[value.0 as int] {
        Source::Slot(index) => {
            let at = stage.layout.outgoing + index;
            assert(after.word(at) == before.word(at));
        },
        Source::Param(index) => {
            let at = stage.layout.words() + 1 + index;
            assert(after.word(at) == before.word(at));
        },
        _ => {},
    }
}

pub(super) proof fn keeping_chains(first: State, second: State, third: State)
    requires
        keeps(first, second),
        keeps(second, third),
    ensures
        keeps(first, third),
{
    assert forall|i: int| i >= 0 implies #[trigger] third.word(i) == first.word(i) by {
        assert(second.word(i) == first.word(i));
    }
}

/// Two values go into the two registers everything works on.
pub(super) proof fn two_values_are_read(
    stage: Stage,
    work: Work,
    left: ValueId,
    right: ValueId,
    from: State,
) -> (after: State)
    requires
        is_known(work, from),
        stage.layout.fits(),
        !stage.pair(work, left, right).failed,
    ensures
        !work.failed,
        goes_on(work, stage.pair(work, left, right), from, after),
        is_known(stage.pair(work, left, right), after),
        keeps(from, after),
        after.regs[0] == stage.word(left, from),
        after.regs[1] == stage.word(right, from),
{
    let half = stage.read(work, Reg::Rax, left);
    if half.failed {
        assert(stage.read(half, Reg::Rcx, right).failed);
    }
    let by = a_value_is_read(stage, work, Reg::Rax, left, from);
    a_word_is_kept(stage, right, from, by);
    let after = a_value_is_read(stage, half, Reg::Rcx, right, by);
    going_on_chains(work, half, stage.pair(work, left, right), from, by, after);
    keeping_chains(from, by, after);
    after
}

/// The two registers are made one.
proof fn two_are_joined(work: Work, opcode: u8, from: State) -> (after: State)
    requires
        is_known(work, from),
        opcode == 0x01 || opcode == 0x29 || opcode == 0x21,
    ensures
        goes_on(work, work.alu(opcode, Reg::Rax, Reg::Rcx), from, after),
        is_known(work.alu(opcode, Reg::Rax, Reg::Rcx), after),
        keeps(from, after),
        joined(opcode, from.regs[0], from.regs[1]) == Some(after.regs[0]),
{
    let code = encode::alu(opcode, Reg::Rax, Reg::Rcx);
    let inst = Inst::Join { opcode, dst: 0, src: 1 };
    assert forall|rest: Seq<u8>| #[trigger] decoded(code + rest) == Some((inst, code.len())) by {
        joining_decodes(opcode, rest);
    }
    joining_decodes(opcode, seq![]);
    one_leads(code, inst, from);
    let after = from.does(inst)->Some_0;
    what_is_written_leads(work, code, from, after);
    after
}

/// Keeping the low bits of a word takes it round.
proof fn a_mask_takes_it_round(word: u64, bits: u16)
    requires
        bits < 64,
    ensures
        word & model::wrapped(Class::Fixed { bits }, u64::MAX) == word as nat
            % vstd::arithmetic::power2::pow2(bits as nat),
{
    let class = Class::Fixed { bits };
    let mask = model::wrapped(class, u64::MAX);
    let span = vstd::arithmetic::power2::pow2(bits as nat);
    let above = (64 - bits) as nat;
    let rest = vstd::arithmetic::power2::pow2(above);
    vstd::arithmetic::power2::lemma_pow2_pos(bits as nat);
    vstd::arithmetic::power2::lemma_pow2_pos(above);
    vstd::arithmetic::power2::lemma_pow2_adds(bits as nat, above);
    vstd::arithmetic::power2::lemma_pow2_strictly_increases(bits as nat, 64);
    vstd::arithmetic::power2::lemma2_to64();
    vstd::arithmetic::power2::lemma2_to64_rest();
    assert(u64::MAX as int == (rest - 1) * span + (span - 1)) by (nonlinear_arith)
        requires
            span * rest == 0x1_0000_0000_0000_0000,
    ;
    vstd::arithmetic::div_mod::lemma_fundamental_div_mod_converse(
        u64::MAX as int,
        span as int,
        rest - 1,
        span - 1,
    );
    assert(mask == span - 1);
    vstd::bits::lemma_u64_low_bits_mask_is_mod(word, bits as nat);
    reveal(vstd::bits::low_bits_mask);
}

/// Narrowing takes the word in hand round its class.
proof fn narrowing_takes_it_round(work: Work, class: Class, from: State) -> (after: State)
    requires
        is_known(work, from),
        !work.narrow(class).failed,
    ensures
        !work.failed,
        class matches Class::Fixed { bits } ==> bits <= 64,
        goes_on(work, work.narrow(class), from, after),
        is_known(work.narrow(class), after),
        keeps(from, after),
        after.regs[0] == from.regs[0] as nat % machine::span(class, size()),
{
    match class {
        Class::Fixed { bits } if bits < 64 => {
            let mask = model::wrapped(class, u64::MAX);
            let half = work.load_const(Reg::Rcx, mask);
            let by = a_constant_is_loaded(work, Reg::Rcx, mask, from);
            let after = two_are_joined(half, 0x21, by);
            going_on_chains(work, half, work.narrow(class), from, by, after);
            keeping_chains(from, by, after);
            a_mask_takes_it_round(from.regs[0], bits);
            after
        },
        _ => {
            vstd::arithmetic::power2::lemma2_to64_rest();
            vstd::arithmetic::div_mod::lemma_small_mod(from.regs[0] as nat, size());
            nothing_goes_nowhere(work, from);
            from
        },
    }
}

/// Whether one word of the stack is given a value, and nothing else from the
/// top up is touched.
pub open spec fn sets(before: State, after: State, at: int, value: u64) -> bool {
    &&& after.ground == before.ground
    &&& after.top == before.top
    &&& after.word(at) == value
    &&& forall|i: int| i >= 0 && i != at ==> #[trigger] after.word(i) == before.word(i)
}

/// What has been worked out goes into the word it is for.
pub(super) proof fn a_result_is_kept(stage: Stage, work: Work, value: ValueId, from: State) -> (
    after: State)
    requires
        lower::true_of(work.known.update(0, None), from.regs),
        stage.layout.fits(),
        !stage.keep(work, value).failed,
    ensures
        !work.failed,
        stage.layout.source[value.0 as int] is Slot,
        0 <= stage.place(value) < stage.layout.outgoing + stage.layout.slots,
        goes_on(work, stage.keep(work, value), from, after),
        is_known(stage.keep(work, value), after),
        sets(from, after, stage.place(value), from.regs[0]),
        after.regs == from.regs,
{
    let at = stage.place(value) as nat;
    a_slot_is_stored(work, at, from);
    let after = stored(from, at);
    assert forall|i: int| i >= 0 && i != stage.place(value) implies #[trigger] after.word(i)
        == from.word(i) by {
        assert(stored(from, at).word(i) == from.word(i));
    }
    after
}

proof fn setting_chains(before: State, mid: State, after: State, at: int, value: u64)
    requires
        keeps(before, mid),
        sets(mid, after, at, value),
    ensures
        sets(before, after, at, value),
{
    assert forall|i: int| i >= 0 && i != at implies #[trigger] after.word(i) == before.word(i) by {
        assert(mid.word(i) == before.word(i));
    }
}

/// What an operation comes to.
pub open spec fn operation(stage: Stage, op: Op, state: State) -> nat {
    match op {
        Op::Binary { op, left, right } => stage.program.computed(
            op,
            stage.program.class(left),
            stage.word(left, state) as nat,
            stage.word(right, state) as nat,
            size(),
        ),
        Op::Compare { relation, left, right } => {
            let one = stage.word(left, state);
            let other = stage.word(right, state);
            let holds = match relation {
                Relation::Equal => one == other,
                Relation::Less => one < other,
            };
            if holds {
                1
            } else {
                0
            }
        },
        Op::Convert { class, value } => stage.word(value, state) as nat % machine::span(
            class,
            size(),
        ),
        _ => 0,
    }
}

/// The values an operation reads.
pub open spec fn operands(op: Op) -> Seq<ValueId> {
    match op {
        Op::Binary { left, right, .. } => seq![left, right],
        Op::Compare { left, right, .. } => seq![left, right],
        Op::Convert { value, .. } => seq![value],
        _ => seq![],
    }
}

/// Where an operation's result takes its class from what it reads.
pub open spec fn is_classed(stage: Stage, op: Op, result: ValueId) -> bool {
    match op {
        Op::Binary { left, .. } => stage.program.class(result) == stage.program.class(left),
        _ => true,
    }
}

/// Going round a word first changes nothing, since a word goes round a whole
/// number of times.
proof fn going_round_twice(whole: int, class: Class)
    requires
        class matches Class::Fixed { bits } ==> bits <= 64,
    ensures
        (whole % size() as int) % machine::span(class, size()) as int == whole % machine::span(
            class,
            size(),
        ) as int,
{
    match class {
        Class::Fixed { bits } => {
            let above = (64 - bits) as nat;
            vstd::arithmetic::power2::lemma2_to64_rest();
            vstd::arithmetic::power2::lemma_pow2_pos(bits as nat);
            vstd::arithmetic::power2::lemma_pow2_pos(above);
            vstd::arithmetic::power2::lemma_pow2_adds(bits as nat, above);
            vstd::arithmetic::div_mod::lemma_mod_mod(
                whole,
                vstd::arithmetic::power2::pow2(bits as nat) as int,
                vstd::arithmetic::power2::pow2(above) as int,
            );
        },
        _ => {
            vstd::arithmetic::div_mod::lemma_mod_twice(whole, size() as int);
        },
    }
}

proof fn setting_decodes(cc: u8, rest: Seq<u8>)
    requires
        cc == EQUAL || cc == BELOW,
    ensures
        decoded(seq![0x0Fu8, (0x90 + cc) as u8, 0xC0u8] + rest) == Some(
            (Inst::SetIf { cc, dst: 0 }, 3nat),
        ),
{
    reveal(decoded);
    let code = seq![0x0Fu8, (0x90 + cc) as u8, 0xC0u8] + rest;
    assert(code.skip(1) =~= seq![(0x90 + cc) as u8, 0xC0u8] + rest);
}

proof fn widening_decodes(rest: Seq<u8>)
    ensures
        decoded(seq![0x0Fu8, 0xB6u8, 0xC0u8] + rest) == Some(
            (Inst::Widen { dst: 0, src: 0 }, 3nat),
        ),
{
    reveal(decoded);
    let code = seq![0x0Fu8, 0xB6u8, 0xC0u8] + rest;
    assert(code.skip(1) =~= seq![0xB6u8, 0xC0u8] + rest);
}

/// What was found is in hand, as one or nothing.
proof fn what_was_found_is_set(cc: u8, from: State) -> (after: State)
    requires
        cc == EQUAL || cc == BELOW,
        from.wf(),
    ensures
        leads(encode::set_if(cc, Reg::Rax), from, after),
        after.regs == from.regs.update(
            0,
            if from.holds(cc) {
                1
            } else {
                0
            },
        ),
        keeps(from, after),
{
    let code = encode::set_if(cc, Reg::Rax);
    let (set, widen) = (
        seq![0x0Fu8, (0x90 + cc) as u8, 0xC0u8],
        seq![0x0Fu8, 0xB6u8, 0xC0u8],
    );
    let setting = Inst::SetIf { cc, dst: 0 };
    let widening = Inst::Widen { dst: 0, src: 0 };
    assert forall|rest: Seq<u8>| #[trigger] decoded(set + rest) == Some((setting, set.len())) by {
        setting_decodes(cc, rest);
    }
    one_leads(set, setting, from);
    let low = from.does(setting)->Some_0;
    assert forall|rest: Seq<u8>| #[trigger] decoded(widen + rest) == Some(
        (widening, widen.len()),
    ) by {
        widening_decodes(rest);
    }
    one_leads(widen, widening, low);
    let after = low.does(widening)->Some_0;
    let whole = from.regs[0] as int;
    assert((whole - whole % 256) % 256 == 0);
    assert((whole - whole % 256) + 1 <= u64::MAX);
    assert((whole - whole % 256 + 1) % 256 == 1);
    leading_chains(set, widen, from, low, after);
    assert(code =~= set + widen);
    assert(after.regs =~= from.regs.update(
        0,
        if from.holds(cc) {
            1
        } else {
            0
        },
    ));
    after
}

/// Two words are compared, and what was found is in hand as one or nothing.
proof fn a_comparison_is_found(work: Work, relation: Relation, from: State) -> (after: State)
    requires
        is_known(work, from),
    ensures
        ({
            let end = work.emit(encode::alu(0x39, Reg::Rax, Reg::Rcx)).emit(
                encode::set_if(Stage::condition(relation), Reg::Rax),
            );
            let holds = match relation {
                Relation::Equal => from.regs[0] == from.regs[1],
                Relation::Less => from.regs[0] < from.regs[1],
            };
            &&& goes_on(work, end, from, after)
            &&& lower::true_of(end.known.update(0, None), after.regs)
            &&& keeps(from, after)
            &&& after.regs[0] == if holds {
                1u64
            } else {
                0u64
            }
        }),
{
    let cc = Stage::condition(relation);
    let one = encode::alu(0x39, Reg::Rax, Reg::Rcx);
    let two = encode::set_if(cc, Reg::Rax);
    let compare = Inst::Compare { left: 0, right: 1 };
    let by = from.does(compare)->Some_0;
    assert forall|rest: Seq<u8>| #[trigger] decoded(one + rest) == Some((compare, one.len())) by {
        joining_decodes(0x39, rest);
    }
    joining_decodes(0x39, seq![]);
    one_leads(one, compare, from);
    let after = what_was_found_is_set(cc, by);
    what_is_written_leads(work, one, from, by);
    what_is_written_leads(work.emit(one), two, by, after);
    going_on_chains(work, work.emit(one), work.emit(one).emit(two), from, by, after);
    assert(keeps(from, by));
    keeping_chains(from, by, after);
    after
}

proof fn arithmetic_computes(
    stage: Stage,
    work: Work,
    how: Binary,
    left: ValueId,
    right: ValueId,
    result: ValueId,
    state: State,
) -> (after: State)
    requires
        !stage.simple(work, Op::Binary { op: how, left, right }, seq![result]).failed,
        is_known(work, state),
        stage.layout.fits(),
        stage.program.class(result) == stage.program.class(left),
    ensures
        ({
            let op = Op::Binary { op: how, left, right };
            let end = stage.simple(work, op, seq![result]);
            &&& stage.layout.source[result.0 as int] is Slot
            &&& goes_on(work, end, state, after)
            &&& is_known(end, after)
            &&& operation(stage, op, state) <= u64::MAX
            &&& sets(
                state,
                after,
                stage.place(result),
                operation(stage, op, state) as u64,
            )
        }),
{
    let end = stage.simple(work, Op::Binary { op: how, left, right }, seq![result]);
    let opcode = Stage::opcode(how);
    let class = stage.program.class(result);
    let both = stage.pair(work, left, right);
    let made = both.alu(opcode, Reg::Rax, Reg::Rcx);
    let last = made.narrow(class);
    if both.failed {
        assert(made.failed);
        assert(last.failed);
    }
    if last.failed {
        assert(end.failed);
    }
    let one = two_values_are_read(stage, work, left, right, state);
    let two = two_are_joined(both, opcode, one);
    let three = narrowing_takes_it_round(made, class, two);
    going_on_chains(work, both, made, state, one, two);
    going_on_chains(work, made, last, state, two, three);
    keeping_chains(state, one, two);
    keeping_chains(state, two, three);
    let after = a_result_is_kept(stage, last, result, three);
    going_on_chains(work, last, end, state, three, after);
    setting_chains(state, three, after, stage.place(result), three.regs[0]);
    let whole: int = match how {
        Binary::Add => stage.word(left, state) + stage.word(right, state),
        Binary::Sub => stage.word(left, state) - stage.word(right, state),
    };
    going_round_twice(whole, class);
    after
}

proof fn a_comparison_computes(
    stage: Stage,
    work: Work,
    relation: Relation,
    left: ValueId,
    right: ValueId,
    result: ValueId,
    state: State,
) -> (after: State)
    requires
        !stage.simple(work, Op::Compare { relation, left, right }, seq![result]).failed,
        is_known(work, state),
        stage.layout.fits(),
    ensures
        ({
            let op = Op::Compare { relation, left, right };
            let end = stage.simple(work, op, seq![result]);
            &&& stage.layout.source[result.0 as int] is Slot
            &&& goes_on(work, end, state, after)
            &&& is_known(end, after)
            &&& sets(
                state,
                after,
                stage.place(result),
                operation(stage, op, state) as u64,
            )
        }),
{
    let end = stage.simple(work, Op::Compare { relation, left, right }, seq![result]);
    let both = stage.pair(work, left, right);
    let last = both.emit(encode::alu(0x39, Reg::Rax, Reg::Rcx)).emit(
        encode::set_if(Stage::condition(relation), Reg::Rax),
    );
    if both.failed {
        assert(last.failed);
    }
    if last.failed {
        assert(end.failed);
    }
    let one = two_values_are_read(stage, work, left, right, state);
    let two = a_comparison_is_found(both, relation, one);
    going_on_chains(work, both, last, state, one, two);
    keeping_chains(state, one, two);
    let after = a_result_is_kept(stage, last, result, two);
    going_on_chains(work, last, end, state, two, after);
    setting_chains(state, two, after, stage.place(result), two.regs[0]);
    after
}

proof fn a_conversion_computes(
    stage: Stage,
    work: Work,
    class: Class,
    value: ValueId,
    result: ValueId,
    state: State,
) -> (after: State)
    requires
        !stage.simple(work, Op::Convert { class, value }, seq![result]).failed,
        is_known(work, state),
        stage.layout.fits(),
    ensures
        ({
            let op = Op::Convert { class, value };
            let end = stage.simple(work, op, seq![result]);
            &&& stage.layout.source[result.0 as int] is Slot
            &&& goes_on(work, end, state, after)
            &&& is_known(end, after)
            &&& operation(stage, op, state) <= u64::MAX
            &&& sets(
                state,
                after,
                stage.place(result),
                operation(stage, op, state) as u64,
            )
        }),
{
    let end = stage.simple(work, Op::Convert { class, value }, seq![result]);
    let held = stage.read(work, Reg::Rax, value);
    let last = held.narrow(class);
    if held.failed {
        assert(last.failed);
    }
    if last.failed {
        assert(end.failed);
    }
    let one = a_value_is_read(stage, work, Reg::Rax, value, state);
    let two = narrowing_takes_it_round(held, class, one);
    going_on_chains(work, held, last, state, one, two);
    keeping_chains(state, one, two);
    let after = a_result_is_kept(stage, last, result, two);
    going_on_chains(work, last, end, state, two, after);
    setting_chains(state, two, after, stage.place(result), two.regs[0]);
    after
}

/// An operation computes what the program says it does: the word of its
/// result takes that, and nothing else from the top of the stack up changes.
pub proof fn an_operation_computes(
    stage: Stage,
    work: Work,
    op: Op,
    results: Seq<ValueId>,
    state: State,
) -> (after: State)
    requires
        op is Binary || op is Compare || op is Convert,
        results.len() == 1,
        !stage.simple(work, op, results).failed,
        is_known(work, state),
        stage.layout.fits(),
        is_classed(stage, op, results[0]),
    ensures
        stage.layout.source[results[0].0 as int] is Slot,
        goes_on(work, stage.simple(work, op, results), state, after),
        is_known(stage.simple(work, op, results), after),
        operation(stage, op, state) <= u64::MAX,
        sets(state, after, stage.place(results[0]), operation(stage, op, state) as u64),
{
    assert(results =~= seq![results[0]]);
    match op {
        Op::Binary { op: how, left, right } => {
            assert(operands(op)[0] == left && operands(op)[1] == right);
            arithmetic_computes(stage, work, how, left, right, results[0], state)
        },
        Op::Compare { relation, left, right } => {
            assert(operands(op)[0] == left && operands(op)[1] == right);
            a_comparison_computes(stage, work, relation, left, right, results[0], state)
        },
        Op::Convert { class, value } => {
            assert(operands(op)[0] == value);
            a_conversion_computes(stage, work, class, value, results[0], state)
        },
        _ => state,
    }
}

/// The first `count` values, each in a word of scratch, and nothing else from
/// the top of the stack up touched.
pub open spec fn is_stashed(
    stage: Stage,
    sources: Seq<ValueId>,
    count: int,
    before: State,
    after: State,
) -> bool {
    let scratch = (stage.layout.outgoing + stage.layout.slots) as int;
    &&& after.ground == before.ground
    &&& after.top == before.top
    &&& forall|i: int|
        0 <= i < count ==> after.word(scratch + i) == stage.word(#[trigger] sources[i], before)
    &&& forall|w: int|
        w >= 0 && !(scratch <= w < stage.layout.words()) ==> #[trigger] after.word(w)
            == before.word(w)
}

pub(super) proof fn values_are_stashed(
    stage: Stage,
    work: Work,
    sources: Seq<ValueId>,
    from: int,
    before: State,
    state: State,
) -> (after: State)
    requires
        0 <= from <= sources.len(),
        is_known(work, state),
        stage.layout.fits(),
        is_stashed(stage, sources, from, before, state),
        !stage.stash(work, sources, from).failed,
    ensures
        !work.failed,
        from < sources.len() ==> sources.len() <= stage.layout.widest,
        goes_on(work, stage.stash(work, sources, from), state, after),
        is_known(stage.stash(work, sources, from), after),
        is_stashed(stage, sources, sources.len() as int, before, after),
    decreases sources.len() - from,
{
    let end = stage.stash(work, sources, from);
    if from >= sources.len() {
        nothing_goes_nowhere(work, state);
        state
    } else {
        let scratch = stage.layout.outgoing + stage.layout.slots;
        let value = sources[from];
        let held = stage.read(work, Reg::Rax, value);
        let at = scratch + from as nat;
        let next = held.store_slot(stage.layout.scratch(from as nat));
        assert(stage.layout.scratch(from as nat) == 8 * at);
        if held.failed {
            assert(next.failed);
        }
        if next.failed {
            stashing_keeps_failing(stage, next, sources, from + 1);
        }
        let by = a_value_is_read(stage, work, Reg::Rax, value, state);
        assert(stage.word(value, state) == stage.word(value, before)) by {
            match stage.layout.source[value.0 as int] {
                Source::Slot(index) => {
                    let w = stage.layout.outgoing + index;
                    assert(state.word(w) == before.word(w));
                },
                Source::Param(index) => {
                    let w = stage.layout.words() + 1 + index;
                    assert(state.word(w) == before.word(w));
                },
                _ => {},
            }
        }
        a_slot_is_stored(held, at, by);
        let then = stored(by, at);
        going_on_chains(work, held, next, state, by, then);
        assert(is_stashed(stage, sources, from + 1, before, then)) by {
            assert forall|i: int| 0 <= i < from + 1 implies then.word(scratch + i) == stage.word(
                #[trigger] sources[i],
                before,
            ) by {
                if i < from {
                    let w = scratch + i;
                    assert(stored(by, at).word(w) == by.word(w));
                    assert(by.word(w) == state.word(w));
                } else {
                    assert(stored(by, at).word(at as int) == by.regs[0]);
                }
            }
            assert forall|w: int|
                w >= 0 && !(scratch <= w < stage.layout.words()) implies #[trigger] then.word(w)
                == before.word(w) by {
                assert(stored(by, at).word(w) == by.word(w));
                assert(by.word(w) == state.word(w));
                assert(state.word(w) == before.word(w));
            }
        }
        let after = values_are_stashed(stage, next, sources, from + 1, before, then);
        going_on_chains(work, next, end, state, then, after);
        after
    }
}

proof fn stashing_keeps_failing(stage: Stage, work: Work, sources: Seq<ValueId>, from: int)
    requires
        0 <= from <= sources.len(),
        work.failed,
    ensures
        stage.stash(work, sources, from).failed,
    decreases sources.len() - from,
{
    if from < sources.len() && from < stage.layout.widest {
        let held = stage.read(work, Reg::Rax, sources[from]);
        assert(held.failed);
        stashing_keeps_failing(
            stage,
            held.store_slot(stage.layout.scratch(from as nat)),
            sources,
            from + 1,
        );
    }
}

proof fn unstashing_keeps_failing(stage: Stage, work: Work, values: Seq<ValueId>, from: int)
    requires
        0 <= from <= values.len(),
        work.failed,
    ensures
        stage.unstash(work, values, from).failed,
    decreases values.len() - from,
{
    if from < values.len() && from < stage.layout.widest {
        let held = work.load_slot(Reg::Rax, stage.layout.scratch(from as nat));
        assert(stage.keep(held, values[from]).failed);
        unstashing_keeps_failing(stage, stage.keep(held, values[from]), values, from + 1);
    }
}

/// Whether values have words of their own.
pub open spec fn are_apart(stage: Stage, values: Seq<ValueId>) -> bool {
    forall|i: int, j: int|
        0 <= i < j < values.len() ==> stage.layout.source[(#[trigger] values[i]).0 as int]
            != stage.layout.source[(#[trigger] values[j]).0 as int]
}

/// The first `count` values have what was stashed for them, and nothing else
/// from the top of the stack up has changed.
spec fn is_unstashed(
    stage: Stage,
    values: Seq<ValueId>,
    count: int,
    before: State,
    after: State,
) -> bool {
    let scratch = (stage.layout.outgoing + stage.layout.slots) as int;
    &&& after.ground == before.ground
    &&& after.top == before.top
    &&& forall|i: int|
        0 <= i < count ==> {
            &&& stage.layout.source[(#[trigger] values[i]).0 as int] is Slot
            &&& 0 <= stage.place(values[i]) < scratch
            &&& after.word(stage.place(values[i])) == before.word(scratch + i)
        }
    &&& forall|w: int|
        w >= 0 && (forall|i: int|
            0 <= i < count ==> w != stage.place(#[trigger] values[i])) ==> #[trigger] after.word(w)
            == before.word(w)
}

proof fn values_are_unstashed(
    stage: Stage,
    work: Work,
    values: Seq<ValueId>,
    from: int,
    before: State,
    state: State,
) -> (after: State)
    requires
        0 <= from <= values.len(),
        is_known(work, state),
        stage.layout.fits(),
        are_apart(stage, values),
        is_unstashed(stage, values, from, before, state),
        !stage.unstash(work, values, from).failed,
    ensures
        !work.failed,
        goes_on(work, stage.unstash(work, values, from), state, after),
        is_known(stage.unstash(work, values, from), after),
        is_unstashed(stage, values, values.len() as int, before, after),
    decreases values.len() - from,
{
    let end = stage.unstash(work, values, from);
    if from >= values.len() {
        nothing_goes_nowhere(work, state);
        state
    } else {
        let scratch = stage.layout.outgoing + stage.layout.slots;
        let value = values[from];
        let at = scratch + from as nat;
        let held = work.load_slot(Reg::Rax, stage.layout.scratch(from as nat));
        let next = stage.keep(held, value);
        assert(stage.layout.scratch(from as nat) == 8 * at);
        if work.failed {
            assert(next.failed);
        }
        if next.failed {
            unstashing_keeps_failing(stage, next, values, from + 1);
        }
        a_slot_is_loaded(work, Reg::Rax, at, state);
        let by = state.set(0, state.word(at as int));
        assert(keeps(state, by));
        let then = a_result_is_kept(stage, held, value, by);
        let place = stage.place(value);
        assert(state.word(at as int) == before.word(at as int));
        going_on_chains(work, held, next, state, by, then);
        assert(is_unstashed(stage, values, from + 1, before, then)) by {
            assert forall|i: int| 0 <= i < from + 1 implies {
                &&& stage.layout.source[(#[trigger] values[i]).0 as int] is Slot
                &&& 0 <= stage.place(values[i]) < scratch
                &&& then.word(stage.place(values[i])) == before.word(scratch + i)
            } by {
                if i < from {
                    assert(stage.layout.source[values[i].0 as int]
                        != stage.layout.source[values[from].0 as int]);
                    let w = stage.place(values[i]);
                    assert(then.word(w) == by.word(w));
                    assert(by.word(w) == state.word(w));
                }
            }
            assert forall|w: int|
                w >= 0 && (forall|i: int|
                    0 <= i < from + 1 ==> w != stage.place(
                        #[trigger] values[i],
                    )) implies #[trigger] then.word(w) == before.word(w) by {
                assert(w != stage.place(values[from]));
                assert(then.word(w) == by.word(w));
                assert(by.word(w) == state.word(w));
                assert(state.word(w) == before.word(w));
            }
        }
        let after = values_are_unstashed(stage, next, values, from + 1, before, then);
        going_on_chains(work, next, end, state, then, after);
        after
    }
}

/// A transfer moves everything at once: the word of each destination takes
/// what its source was before any of them was written, and beside the scratch
/// it goes through nothing else from the top of the stack up changes.
pub proof fn a_transfer_moves_at_once(
    stage: Stage,
    work: Work,
    sources: Seq<ValueId>,
    destinations: Seq<ValueId>,
    state: State,
) -> (after: State)
    requires
        sources.len() == destinations.len(),
        !stage.transfer(work, sources, destinations).failed,
        is_known(work, state),
        stage.layout.fits(),
        are_apart(stage, destinations),
    ensures
        goes_on(work, stage.transfer(work, sources, destinations), state, after),
        is_known(stage.transfer(work, sources, destinations), after),
        after.top == state.top,
        forall|i: int|
            0 <= i < destinations.len() ==> {
                &&& stage.layout.source[(#[trigger] destinations[i]).0 as int] is Slot
                &&& 0 <= stage.place(destinations[i]) < stage.layout.outgoing
                    + stage.layout.slots
                &&& after.word(stage.place(destinations[i])) == stage.word(sources[i], state)
            },
        forall|w: int|
            w >= 0 && !(stage.layout.outgoing + stage.layout.slots <= w < stage.layout.words())
                && (forall|i: int|
                0 <= i < destinations.len() ==> w != stage.place(#[trigger] destinations[i]))
                ==> #[trigger] after.word(w) == state.word(w),
{
    let end = stage.transfer(work, sources, destinations);
    if sources.len() == 0 {
        nothing_goes_nowhere(work, state);
        state
    } else {
        let mid = stage.stash(work, sources, 0);
        let last = stage.unstash(mid, destinations, 0);
        if mid.failed {
            unstashing_keeps_failing(stage, mid, destinations, 0);
        }
        assert(is_stashed(stage, sources, 0, state, state));
        let by = values_are_stashed(stage, work, sources, 0, state, state);
        assert(is_unstashed(stage, destinations, 0, by, by));
        let after = values_are_unstashed(stage, mid, destinations, 0, by, by);
        going_on_chains(work, mid, last, state, by, after);
        assert(goes_on(work, end, state, after)) by {
        }
        let scratch = (stage.layout.outgoing + stage.layout.slots) as int;
        assert forall|i: int| 0 <= i < destinations.len() implies {
            &&& stage.layout.source[(#[trigger] destinations[i]).0 as int] is Slot
            &&& 0 <= stage.place(destinations[i]) < scratch
            &&& after.word(stage.place(destinations[i])) == stage.word(sources[i], state)
        } by {
            assert(by.word(scratch + i) == stage.word(sources[i], state));
        }
        assert forall|w: int|
            w >= 0 && !(scratch <= w < stage.layout.words()) && (forall|i: int|
                0 <= i < destinations.len() ==> w != stage.place(
                    #[trigger] destinations[i],
                )) implies #[trigger] after.word(w) == state.word(w) by {
            assert(by.word(w) == state.word(w));
        }
        after
    }
}

} // verus!
