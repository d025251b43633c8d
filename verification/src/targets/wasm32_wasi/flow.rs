//! What a module does when it is started.
//!
//! Control is a tree here, which is how the format nests it, and straight
//! code inside it is left as the bytes it is. A run is followed up to where
//! the system is asked to stop, or to write what is watched for. Nothing is
//! said of code that reaches into memory, but for the vector that says what to
//! write.

use super::lower::{
    Around, Emitted, Setting, BLOCK, BR, ELSE, EMPTY, IF, LOOP, RETURN, UNREACHABLE,
};
use super::machine::State;
use super::{lower, machine, memory, module, Import, Placed, CALL, DROP, END};
use crate::ir::{model, Class, Exit, Op, PlatformId, Range, RegionId, ValueId};
use vstd::prelude::*;

verus! {

/// Code, as the format nests it.
pub enum Code {
    /// Instructions that neither branch nor call.
    Straight(Seq<u8>),
    Block(Seq<Code>),
    Again(Seq<Code>),
    Choice(Seq<Code>, Seq<Code>),
    /// Out of as many labels, and to the next.
    Branch(nat),
    Leave,
    Call(nat),
    /// Write what the vector at an address says, which is either what memory
    /// starts out with there, or what is worked out and stored first: an
    /// address, and a length.
    Tell(u32, Option<(Seq<u8>, Seq<u8>)>),
    Trap,
}

/// A word that is worked out, stored at an address.
pub open spec fn stored(address: u32, code: Seq<u8>) -> Seq<u8> {
    lower::i32_const(module::signed(address)) + code + (lower::indexed(0x36, 2)
        + crate::targets::bytes::unsigned_leb(0))
}

/// The system, asked to write what a vector says. How much it wrote is of no
/// use to anything.
pub open spec fn asking(iovec: u32) -> Seq<u8> {
    lower::i32_const(1) + lower::i32_const(module::signed(iovec))
        + lower::i32_const(1) + lower::i32_const(0) + lower::indexed(0x10, 0)
        + seq![0x1Au8]
}

/// The bytes code is.
pub open spec fn printed(code: Code) -> Seq<u8>
    decreases code, 0nat,
{
    match code {
        Code::Straight(bytes) => bytes,
        Code::Block(inner) => seq![0x02u8, 0x40u8] + printed_all(inner) + seq![0x0Bu8],
        Code::Again(inner) => seq![0x03u8, 0x40u8] + printed_all(inner) + seq![0x0Bu8],
        Code::Choice(one, other) => seq![0x04u8, 0x40u8] + printed_all(one) + seq![0x05u8] + printed_all(
            other,
        ) + seq![0x0Bu8],
        Code::Branch(count) => lower::indexed(0x0Cu8, count),
        Code::Leave => seq![0x0Fu8],
        Code::Call(index) => lower::indexed(0x10u8, index),
        Code::Tell(iovec, Some((base, length))) => stored(iovec, base) + stored(
            (iovec + 4) as u32,
            length,
        ) + asking(iovec),
        Code::Tell(iovec, None) => asking(iovec),
        Code::Trap => seq![0x00u8],
    }
}

pub open spec fn printed_all(code: Seq<Code>) -> Seq<u8>
    decreases code, 1nat,
{
    if code.len() == 0 {
        seq![]
    } else {
        printed(code[0]) + printed_all(code.drop_first())
    }
}

/// A function: what it takes, what else it holds, what it answers, and what
/// it does.
#[verifier::ext_equal]
pub struct Routine {
    pub params: nat,
    pub locals: nat,
    pub answers: nat,
    pub code: Seq<Code>,
}

pub struct Module {
    pub imports: Seq<Import>,
    pub routines: Seq<Routine>,
    /// What memory starts out with.
    pub data: Seq<Placed>,
    /// What of the things it asks to write, by address and length, a run is
    /// followed up to.
    pub watch: spec_fn(nat, nat) -> bool,
}

/// Where code went.
#[verifier::ext_equal]
pub enum Went {
    /// On to what follows it.
    On(State),
    /// Out of as many labels, and to the next.
    Jumps(nat, State),
    /// Out of the function.
    Leaves(State),
    /// Nowhere: the system was asked to stop, with this status.
    Stops(nat),
    /// No further than to ask the system to write what is at an address, of a
    /// length.
    Tells(nat, nat),
}

/// What a call comes to.
#[verifier::ext_equal]
pub enum Called {
    Answers(Seq<nat>),
    Stops(nat),
    Tells(nat, nat),
}

/// What code pushes on top of an address, and nothing else.
pub open spec fn worked_out(code: Seq<u8>, address: u32, state: State) -> Option<nat> {
    match machine::runs(code, state.push(address as nat)) {
        Some(next) => if next == state.push(address as nat).push(next.stack.last()) {
            Some(next.stack.last())
        } else {
            None
        },
        None => None,
    }
}

impl Went {
    /// What it is to what stands around a label, whose stack is cut back to
    /// what it was.
    pub open spec fn outside(self, stack: Seq<nat>) -> Went {
        match self {
            Went::Jumps(count, state) => if count == 0 {
                Went::On(State { stack, ..state })
            } else {
                Went::Jumps((count - 1) as nat, state)
            },
            other => other,
        }
    }
}

impl Module {
    /// Code, one piece after the other.
    pub open spec fn all_run(self, code: Seq<Code>, state: State, fuel: nat) -> Option<Went>
        decreases fuel, 0nat, code,
    {
        if code.len() == 0 {
            Some(Went::On(state))
        } else {
            match self.one_runs(code[0], state, fuel) {
                Some(Went::On(next)) => self.all_run(code.drop_first(), next, fuel),
                other => other,
            }
        }
    }

    /// One piece of code, if `fuel` steps are enough to tell.
    pub open spec fn one_runs(self, code: Code, state: State, fuel: nat) -> Option<Went>
        decreases fuel, 0nat, code,
    {
        let count = state.stack.len();
        match code {
            Code::Straight(bytes) => match machine::runs(bytes, state) {
                Some(next) => Some(Went::On(next)),
                None => None,
            },
            Code::Block(inner) => match self.all_run(inner, state, fuel) {
                Some(went) => Some(went.outside(state.stack)),
                None => None,
            },
            Code::Again(inner) => if fuel == 0 {
                None
            } else {
                self.goes_round(inner, state, (fuel - 1) as nat)
            },
            Code::Choice(one, other) => if fuel == 0 || count == 0 {
                None
            } else {
                let taken = if state.stack.last() != 0 {
                    one
                } else {
                    other
                };
                match self.all_run(taken, state.pop(), (fuel - 1) as nat) {
                    Some(went) => Some(went.outside(state.pop().stack)),
                    None => None,
                }
            },
            Code::Branch(count) => Some(Went::Jumps(count, state)),
            Code::Leave => Some(Went::Leaves(state)),
            Code::Call(index) => if index < self.imports.len() {
                if self.imports[index as int] == Import::ProcExit && count > 0 {
                    Some(Went::Stops(state.stack.last()))
                } else {
                    None
                }
            } else {
                let called = (index - self.imports.len()) as nat;
                if called >= self.routines.len() || fuel == 0 {
                    None
                } else {
                    let takes = self.routines[called as int].params;
                    if takes > count {
                        None
                    } else {
                        let left = state.stack.take(count - takes);
                        let args = state.stack.skip(count - takes);
                        match self.called(called, args, (fuel - 1) as nat) {
                            Some(Called::Answers(answers)) => Some(
                                Went::On(State { stack: left + answers, ..state }),
                            ),
                            Some(Called::Stops(status)) => Some(Went::Stops(status)),
                            Some(Called::Tells(base, length)) => Some(Went::Tells(base, length)),
                            None => None,
                        }
                    }
                }
            },
            Code::Tell(iovec, known) => {
                let told = match known {
                    Some((base, length)) => match (
                        worked_out(base, iovec, state),
                        worked_out(length, (iovec + 4) as u32, state),
                    ) {
                        (Some(base), Some(length)) => Some((base, length)),
                        _ => None,
                    },
                    None => Some(self.vector(iovec as int)),
                };
                match told {
                    Some((base, length)) => if self.imports.len() == 0 || self.imports[0]
                        != Import::FdWrite {
                        None
                    } else if (self.watch)(base, length) {
                        Some(Went::Tells(base, length))
                    } else {
                        Some(Went::On(state))
                    },
                    None => None,
                }
            },
            Code::Trap => None,
        }
    }

    /// What the vector at an address says, to begin with.
    pub open spec fn vector(self, at: int) -> (nat, nat) {
        (memory::word_at(self.data, at), memory::word_at(self.data, at + 4))
    }

    /// The inside of a loop, again and again.
    pub open spec fn goes_round(self, inner: Seq<Code>, state: State, fuel: nat) -> Option<Went>
        decreases fuel, 1nat, inner,
    {
        match self.all_run(inner, state, fuel) {
            Some(Went::Jumps(count, next)) => if count == 0 {
                if fuel == 0 {
                    None
                } else {
                    self.goes_round(
                        inner,
                        State { stack: state.stack, ..next },
                        (fuel - 1) as nat,
                    )
                }
            } else {
                Some(Went::Jumps((count - 1) as nat, next))
            },
            other => other,
        }
    }

    /// A function, handed words. What it does not take it holds nothing in
    /// to begin with.
    pub open spec fn called(self, index: nat, args: Seq<nat>, fuel: nat) -> Option<Called>
        decreases fuel, 1nat, self.routines[index as int].code,
    {
        let routine = self.routines[index as int];
        let start = State {
            stack: seq![],
            locals: args + Seq::new(routine.locals, |i: int| 0nat),
        };
        match self.all_run(routine.code, start, fuel) {
            Some(Went::On(end)) => self.answered(index, end),
            Some(Went::Leaves(end)) => self.answered(index, end),
            Some(Went::Stops(status)) => Some(Called::Stops(status)),
            Some(Went::Tells(base, length)) => Some(Called::Tells(base, length)),
            _ => None,
        }
    }

    /// What a function answers: as many words as it does, off the stack.
    pub open spec fn answered(self, index: nat, end: State) -> Option<Called> {
        let answers = self.routines[index as int].answers;
        if answers > end.stack.len() {
            None
        } else {
            Some(Called::Answers(end.stack.skip(end.stack.len() - answers)))
        }
    }

    /// The status a module leaves with. One that is never asked to stop, and
    /// comes to an end, leaves with nought.
    pub open spec fn started(self, entry: nat, fuel: nat) -> Option<nat> {
        match self.called(entry, seq![], fuel) {
            Some(Called::Answers(_)) => Some(0),
            Some(Called::Stops(status)) => Some(status),
            _ => None,
        }
    }
}

impl Setting {
    /// Straight code between two pieces of writing.
    pub open spec fn between(before: Emitted, after: Emitted) -> Code {
        Code::Straight(machine::added(before, after))
    }

    /// An instruction that holds no regions, as code.
    pub open spec fn simple_code(self, out: Emitted, op: Op, results: Seq<ValueId>) -> Seq<Code> {
        let end = self.simple(out, op, results);
        match op {
            Op::Call { function, args } => {
                let passed = self.push_all(out, self.program.values(args), 0);
                let index = self.imports().len() + function.0 as nat;
                let called = passed.emit(lower::indexed(CALL, index));
                if index <= u32::MAX {
                    seq![Self::between(out, passed), Code::Call(index), Self::between(called, end)]
                } else {
                    seq![]
                }
            },
            Op::PlatformCall { platform, args } => {
                let values = self.program.values(args);
                if self.is_exit(platform) && values.len() > 0 && self.exits {
                    seq![
                        Self::between(out, self.push(out, values[0])),
                        Code::Call(self.proc_exit()),
                    ]
                } else if self.program.is_write(platform) && values.len() > 1 {
                    seq![self.write_code(out, values)]
                } else {
                    seq![Self::between(out, end)]
                }
            },
            _ => seq![Self::between(out, end)],
        }
    }

    /// Where the vector of the next write is.
    pub open spec fn next_vector(self, out: Emitted) -> u32 {
        (lower::IOVECS + lower::IOVEC_LEN * out.iovecs.len()) as u32
    }

    /// Writing, as code.
    pub open spec fn write_code(self, out: Emitted, args: Seq<ValueId>) -> Code {
        let iovec = self.next_vector(out);
        match (self.constant(args[0]), self.constant(args[1])) {
            (Some(_), Some(_)) => Code::Tell(iovec, None),
            _ => {
                let opened = Emitted { iovecs: out.iovecs.push(None), ..out };
                let one = opened.emit(lower::i32_const(module::signed(iovec)));
                let half = self.store(opened, iovec, args[0]);
                let other = half.emit(lower::i32_const(module::signed((iovec + 4) as u32)));
                Code::Tell(
                    iovec,
                    Some(
                        (
                            machine::added(one, self.push(one, args[0])),
                            machine::added(other, self.push(other, args[1])),
                        ),
                    ),
                )
            },
        }
    }

    /// Whether a routine of the platform is the one that stops.
    pub open spec fn is_exit(self, platform: PlatformId) -> bool {
        self.program.name(self.program.routine(platform).name) == "exit"@
    }

    /// How a region ends, as code.
    pub open spec fn end_code(self, out: Emitted, around: Around, region: RegionId) -> Seq<Code> {
        let end = self.program.region(region).terminator;
        let values = self.program.values(end.values);
        match end.exit {
            Exit::Yield => match around.yields {
                Some(results) => seq![
                    Self::between(
                        out,
                        self.transfer(out, values, self.program.values(results)),
                    ),
                ],
                None => seq![],
            },
            Exit::Continue => match around.frame {
                Some(frame) => self.jump_code(out, around, values, frame.params, frame.again),
                None => seq![],
            },
            Exit::Break => match around.frame {
                Some(frame) => self.jump_code(out, around, values, frame.results, frame.exit),
                None => seq![],
            },
            Exit::Return => {
                let left = self.push_all(out, values, 0);
                if !self.in_entry {
                    seq![Self::between(out, left), Code::Leave]
                } else if self.exits {
                    seq![Self::between(out, left), Code::Call(self.proc_exit())]
                } else {
                    seq![]
                }
            },
            Exit::Unreachable => if around.depth > 0 {
                seq![Code::Trap]
            } else {
                seq![]
            },
        }
    }

    pub open spec fn jump_code(
        self,
        out: Emitted,
        around: Around,
        values: Seq<ValueId>,
        destinations: Range,
        label: u32,
    ) -> Seq<Code> {
        let moved = self.transfer(out, values, self.program.values(destinations));
        let first = Self::between(out, moved);
        if label < around.depth {
            seq![first, Code::Branch((around.depth - 1 - label) as nat)]
        } else {
            seq![first]
        }
    }

    /// An instruction, as code, and what is written by then.
    pub open spec fn op_code(self, out: Emitted, around: Around, region: RegionId, at: int) -> (
        Seq<Code>,
        Emitted,
    )
        decreases self.program.rank(region), 0nat, 0int,
    {
        let results = self.program.region_results(region)[at];
        match self.program.region_ops(region)[at] {
            Op::If { condition, then_region, else_region } => if self.program.nests(
                region,
                then_region,
            ) && self.program.nests(region, else_region) && around.depth < u32::MAX {
                let within = Self::inside_if(around, results);
                let asked = self.push(out, condition);
                let opened = asked.emit(seq![IF, EMPTY]);
                let then = self.region(opened, within, then_region, 0);
                let turned = then.emit(seq![ELSE]);
                let closed = self.region(turned, within, else_region, 0);
                (
                    seq![
                        Self::between(out, asked),
                        Code::Choice(
                            self.region_code(opened, within, then_region, 0),
                            self.region_code(turned, within, else_region, 0),
                        ),
                    ],
                    closed.emit(seq![END]),
                )
            } else {
                (seq![], out.fail())
            },
            Op::Loop { initial, body } => if self.program.nests(region, body) && around.depth
                < u32::MAX - 1 {
                let params = self.program.region(body).params;
                let entered = self.transfer(
                    out,
                    self.program.values(initial),
                    self.program.values(params),
                );
                let opened = entered.emit(seq![BLOCK, EMPTY, LOOP, EMPTY]);
                let within = Self::inside_loop(around, params, results);
                (
                    seq![
                        Self::between(out, entered),
                        Code::Block(
                            seq![Code::Again(self.region_code(opened, within, body, 0))],
                        ),
                    ],
                    self.region(opened, within, body, 0).emit(seq![END, END]),
                )
            } else {
                (seq![], out.fail())
            },
            op => (
                self.simple_code(out, op, self.program.values(results)),
                self.simple(out, op, self.program.values(results)),
            ),
        }
    }

    /// A region's instructions from `from` on, and how it ends, as code.
    pub open spec fn region_code(self, out: Emitted, around: Around, region: RegionId, from: int)
        -> Seq<Code>
        decreases self.program.rank(region), 1nat, self.program.region_ops(region).len() - from,
    {
        if from < 0 || from >= self.program.region_ops(region).len() {
            self.end_code(out, around, region)
        } else {
            let (code, next) = self.op_code(out, around, region, from);
            code + self.region_code(next, around, region, from + 1)
        }
    }
}

/// Whether one piece of writing goes on from another, and makes good nothing
/// that was amiss.
pub open spec fn follows(before: Emitted, after: Emitted) -> bool {
    &&& before.body.is_prefix_of(after.body)
    &&& before.iovecs.is_prefix_of(after.iovecs)
    &&& before.failed ==> after.failed
}

pub(super) proof fn following_chains(first: Emitted, second: Emitted, third: Emitted)
    requires
        follows(first, second),
        follows(second, third),
    ensures
        follows(first, third),
        machine::added(first, third) == machine::added(first, second) + machine::added(
            second,
            third,
        ),
{
    machine::additions_chain(first, second, third);
}

pub(super) proof fn emitting_follows(out: Emitted, code: Seq<u8>)
    ensures
        follows(out, out.emit(code)),
        machine::added(out, out.emit(code)) == code,
{
    machine::what_is_added(out, code);
}

pub(super) proof fn a_push_follows(setting: Setting, out: Emitted, value: ValueId)
    ensures
        follows(out, setting.push(out, value)),
{
    match setting.places.source[value.0 as int] {
        lower::Source::Local(index) => {
            emitting_follows(out, lower::indexed(lower::LOCAL_GET, index as nat));
        },
        _ => {
            let word = setting.constant(value)->0;
            emitting_follows(out, lower::i32_const(super::module::signed(word as u32)));
        },
    }
}

pub(super) proof fn a_set_follows(setting: Setting, out: Emitted, value: ValueId)
    ensures
        follows(out, setting.set(out, value)),
{
    match setting.places.source[value.0 as int] {
        lower::Source::Local(index) => {
            emitting_follows(out, lower::indexed(lower::LOCAL_SET, index as nat));
        },
        _ => {},
    }
}

pub(super) proof fn pushes_follow(setting: Setting, out: Emitted, values: Seq<ValueId>, from: int)
    ensures
        follows(out, setting.push_all(out, values, from)),
    decreases values.len() - from,
{
    if 0 <= from < values.len() {
        let next = setting.push(out, values[from]);
        a_push_follows(setting, out, values[from]);
        pushes_follow(setting, next, values, from + 1);
        following_chains(out, next, setting.push_all(next, values, from + 1));
    }
}

pub(super) proof fn sets_follow(setting: Setting, out: Emitted, values: Seq<ValueId>, count: int)
    ensures
        follows(out, setting.set_all(out, values, count)),
    decreases count,
{
    if 0 < count <= values.len() {
        let next = setting.set(out, values[count - 1]);
        a_set_follows(setting, out, values[count - 1]);
        sets_follow(setting, next, values, count - 1);
        following_chains(out, next, setting.set_all(next, values, count - 1));
    }
}

pub(super) proof fn a_transfer_follows(
    setting: Setting,
    out: Emitted,
    sources: Seq<ValueId>,
    destinations: Seq<ValueId>,
)
    ensures
        follows(out, setting.push_all(out, sources, 0)),
        follows(out, setting.transfer(out, sources, destinations)),
{
    let mid = setting.push_all(out, sources, 0);
    pushes_follow(setting, out, sources, 0);
    sets_follow(setting, mid, destinations, destinations.len() as int);
    following_chains(out, mid, setting.transfer(out, sources, destinations));
}

pub(super) proof fn a_narrowing_follows(setting: Setting, out: Emitted, class: Class)
    ensures
        follows(out, setting.narrow(out, class)),
{
    emitting_follows(
        out,
        lower::i32_const(model::wrapped(class, u64::MAX) as int) + seq![lower::I32_AND],
    );
}

proof fn a_store_follows(setting: Setting, out: Emitted, address: u32, value: ValueId)
    ensures
        follows(out, setting.store(out, address, value)),
{
    let code = lower::i32_const(super::module::signed(address));
    let one = out.emit(code);
    let two = setting.push(one, value);
    let last = lower::indexed(lower::I32_STORE, 2) + crate::targets::bytes::unsigned_leb(0);
    emitting_follows(out, code);
    a_push_follows(setting, one, value);
    emitting_follows(two, last);
    following_chains(out, one, two);
    following_chains(out, two, two.emit(last));
}

proof fn a_write_follows(setting: Setting, out: Emitted, args: Seq<ValueId>)
    ensures
        follows(out, setting.write(out, args)),
{
    let index = out.iovecs.len();
    if args.len() >= 2 && index < setting.places.writes {
        let iovec = (lower::IOVECS + lower::IOVEC_LEN * index) as u32;
        let opened = Emitted { iovecs: out.iovecs.push(None), ..out };
        let half = setting.store(opened, iovec, args[0]);
        let full = setting.store(half, (iovec + 4) as u32, args[1]);
        a_store_follows(setting, opened, iovec, args[0]);
        a_store_follows(setting, half, (iovec + 4) as u32, args[1]);
        following_chains(opened, half, full);
        let filled = match (setting.constant(args[0]), setting.constant(args[1])) {
            (Some(base), Some(length)) => if base <= u32::MAX && length <= u32::MAX {
                Emitted { iovecs: out.iovecs.push(Some((base as u32, length as u32))), ..out }
            } else {
                out.fail()
            },
            _ => full,
        };
        assert(follows(out, filled));
        let last = lower::i32_const(lower::STDOUT as int) + lower::i32_const(
            super::module::signed(iovec),
        ) + lower::i32_const(1) + lower::i32_const(lower::NWRITTEN as int) + lower::indexed(
            CALL,
            0,
        ) + seq![super::DROP];
        emitting_follows(filled, last);
        following_chains(out, filled, filled.emit(last));
    }
}

proof fn a_growth_follows(
    setting: Setting,
    out: Emitted,
    args: Seq<ValueId>,
    results: Seq<ValueId>,
)
    ensures
        follows(out, setting.grow(out, args, results)),
{
    if args.len() >= 1 && results.len() >= 1 {
        let one = setting.push(out, args[0]);
        let code = lower::i32_const(0xFFFF) + seq![lower::I32_ADD] + lower::i32_const(
            lower::PAGE_BITS as int,
        ) + seq![lower::I32_SHR_U] + lower::indexed(lower::MEMORY_GROW, 0) + lower::i32_const(
            lower::PAGE_BITS as int,
        ) + seq![lower::I32_SHL];
        let two = one.emit(code);
        a_push_follows(setting, out, args[0]);
        emitting_follows(one, code);
        a_set_follows(setting, two, results[0]);
        following_chains(out, one, two);
        following_chains(out, two, setting.set(two, results[0]));
    }
}

proof fn an_access_follows(
    setting: Setting,
    out: Emitted,
    width: crate::ir::Width,
    offset: crate::ir::Offset,
    byte: u8,
    word: u8,
)
    ensures
        follows(out, setting.access(out, width, offset, byte, word)),
{
    let at = crate::targets::bytes::unsigned_leb(lower::distance(offset) as nat);
    emitting_follows(out, lower::indexed(byte, 0) + at);
    emitting_follows(out, lower::indexed(word, 2) + at);
}

pub(super) proof fn the_two_routines_differ()
    ensures
        "exit"@ != "write"@,
{
    reveal_strlit("exit");
    reveal_strlit("write");
    assert("exit"@.len() == 4 && "write"@.len() == 5);
}

proof fn a_platform_call_follows(
    setting: Setting,
    out: Emitted,
    platform: PlatformId,
    args: Seq<ValueId>,
    results: Seq<ValueId>,
)
    ensures
        follows(out, setting.platform_call(out, platform, args, results)),
{
    a_write_follows(setting, out, args);
    a_growth_follows(setting, out, args, results);
    if args.len() > 0 {
        let one = setting.push(out, args[0]);
        let code = lower::indexed(CALL, setting.proc_exit());
        a_push_follows(setting, out, args[0]);
        emitting_follows(one, code);
        following_chains(out, one, one.emit(code));
    }
}

/// What a write adds is what it is as code.
proof fn a_write_is_printed(setting: Setting, out: Emitted, args: Seq<ValueId>)
    requires
        args.len() > 1,
        !setting.write(out, args).failed,
    ensures
        printed(setting.write_code(out, args)) == machine::added(out, setting.write(out, args)),
{
    let end = setting.write(out, args);
    let iovec = setting.next_vector(out);
    a_write_follows(setting, out, args);
    match (setting.constant(args[0]), setting.constant(args[1])) {
        (Some(_), Some(_)) => {
            assert(machine::added(out, end) =~= asking(iovec));
        },
        _ => {
            let last = lower::indexed(lower::I32_STORE, 2) + crate::targets::bytes::unsigned_leb(
                0,
            );
            let opened = Emitted { iovecs: out.iovecs.push(None), ..out };
            let one = opened.emit(lower::i32_const(module::signed(iovec)));
            let first = setting.push(one, args[0]);
            let half = setting.store(opened, iovec, args[0]);
            let other = half.emit(lower::i32_const(module::signed((iovec + 4) as u32)));
            let second = setting.push(other, args[1]);
            let full = setting.store(half, (iovec + 4) as u32, args[1]);
            a_push_follows(setting, one, args[0]);
            a_push_follows(setting, other, args[1]);
            assert(half == first.emit(last));
            assert(full == second.emit(last));
            assert(first.body =~= one.body + machine::added(one, first));
            assert(second.body =~= other.body + machine::added(other, second));
            assert(half.body =~= out.body + stored(iovec, machine::added(one, first)));
            assert(full.body =~= half.body + stored(
                (iovec + 4) as u32,
                machine::added(other, second),
            ));
            assert(end.body =~= full.body + asking(iovec));
            assert(machine::added(out, end) =~= stored(iovec, machine::added(one, first)) + stored(
                (iovec + 4) as u32,
                machine::added(other, second),
            ) + asking(iovec));
        },
    }
}

/// What an instruction that holds no regions adds is what it is as code.
pub(super) proof fn a_simple_one_is_printed(setting: Setting, out: Emitted, op: Op, results: Seq<ValueId>)
    ensures
        follows(out, setting.simple(out, op, results)),
        !setting.simple(out, op, results).failed ==> printed_all(
            setting.simple_code(out, op, results),
        ) == machine::added(out, setting.simple(out, op, results)),
{
    reveal_with_fuel(printed_all, 4);
    let end = setting.simple(out, op, results);
    match op {
        Op::Binary { op: how, left, right } => {
            let one = setting.push(out, left);
            let two = setting.push(one, right);
            let three = two.emit(seq![Setting::opcode(how)]);
            let four = setting.narrow(three, setting.program.class(results[0]));
            a_push_follows(setting, out, left);
            a_push_follows(setting, one, right);
            emitting_follows(two, seq![Setting::opcode(how)]);
            a_narrowing_follows(setting, three, setting.program.class(results[0]));
            a_set_follows(setting, four, results[0]);
            following_chains(out, one, two);
            following_chains(out, two, three);
            following_chains(out, three, four);
            following_chains(out, four, end);
        },
        Op::Compare { relation, left, right } => {
            let one = setting.push(out, left);
            let two = setting.push(one, right);
            let three = two.emit(seq![Setting::relation(relation)]);
            a_push_follows(setting, out, left);
            a_push_follows(setting, one, right);
            emitting_follows(two, seq![Setting::relation(relation)]);
            a_set_follows(setting, three, results[0]);
            following_chains(out, one, two);
            following_chains(out, two, three);
            following_chains(out, three, end);
        },
        Op::Load { width, address, offset } => {
            let one = setting.push(out, address);
            let two = setting.access(one, width, offset, lower::I32_LOAD8_U, lower::I32_LOAD);
            a_push_follows(setting, out, address);
            an_access_follows(
                setting,
                one,
                width,
                offset,
                lower::I32_LOAD8_U,
                lower::I32_LOAD,
            );
            a_set_follows(setting, two, results[0]);
            following_chains(out, one, two);
            following_chains(out, two, end);
        },
        Op::Store { width, address, offset, value } => {
            let one = setting.push(out, address);
            let two = setting.push(one, value);
            a_push_follows(setting, out, address);
            a_push_follows(setting, one, value);
            an_access_follows(
                setting,
                two,
                width,
                offset,
                lower::I32_STORE8,
                lower::I32_STORE,
            );
            following_chains(out, one, two);
            following_chains(out, two, end);
        },
        Op::Convert { class, value } => {
            let one = setting.push(out, value);
            let two = setting.narrow(one, class);
            a_push_follows(setting, out, value);
            a_narrowing_follows(setting, one, class);
            a_set_follows(setting, two, results[0]);
            following_chains(out, one, two);
            following_chains(out, two, end);
        },
        Op::PlatformCall { platform, args } => {
            let values = setting.program.values(args);
            a_platform_call_follows(setting, out, platform, values, results);
            if setting.is_exit(platform) && values.len() > 0 && setting.exits {
                the_two_routines_differ();
                let one = setting.push(out, values[0]);
                let code = lower::indexed(CALL, setting.proc_exit());
                a_push_follows(setting, out, values[0]);
                emitting_follows(one, code);
                following_chains(out, one, one.emit(code));
                assert(end == one.emit(code));
                let all = setting.simple_code(out, op, results);
                assert(all.drop_first() =~= seq![Code::Call(setting.proc_exit())]);
                assert(all.drop_first().drop_first() =~= seq![]);
                assert(printed_all(all) =~= machine::added(out, end));
            } else if setting.program.is_write(platform) && values.len() > 1 {
                if !end.failed {
                    a_write_is_printed(setting, out, values);
                }
                let all = setting.simple_code(out, op, results);
                assert(all.drop_first() =~= seq![]);
            }
        },
        Op::Call { function, args } => {
            let passed = setting.push_all(out, setting.program.values(args), 0);
            let index = setting.imports().len() + function.0 as nat;
            let code = lower::indexed(CALL, index);
            let called = passed.emit(code);
            pushes_follow(setting, out, setting.program.values(args), 0);
            emitting_follows(passed, code);
            if index <= u32::MAX {
                sets_follow(setting, called, results, results.len() as int);
                following_chains(out, passed, called);
                following_chains(out, called, end);
                let all = setting.simple_code(out, op, results);
                assert(all.drop_first() =~= seq![
                    Code::Call(index),
                    Setting::between(called, end),
                ]);
                assert(all.drop_first().drop_first() =~= seq![Setting::between(called, end)]);
                assert(all.drop_first().drop_first().drop_first() =~= seq![]);
                assert(printed_all(all) =~= machine::added(out, end));
            }
        },
        _ => {},
    }
    if !(op is Call) && !(op matches Op::PlatformCall { platform, args } && ((setting.is_exit(
        platform,
    ) && setting.program.values(args).len() > 0 && setting.exits) || (setting.program.is_write(
        platform,
    ) && setting.program.values(args).len() > 1))) {
        let all = setting.simple_code(out, op, results);
        assert(all.drop_first() =~= seq![]);
        assert(printed_all(all) =~= machine::added(out, end));
    }
}

proof fn printing_joins(one: Seq<Code>, other: Seq<Code>)
    ensures
        printed_all(one + other) == printed_all(one) + printed_all(other),
    decreases one.len(),
{
    if one.len() == 0 {
        assert(one + other =~= other);
        assert(printed_all(one) + printed_all(other) =~= printed_all(other));
    } else {
        printing_joins(one.drop_first(), other);
        assert((one + other).drop_first() =~= one.drop_first() + other);
        assert((one + other)[0] == one[0]);
        assert(printed_all(one + other) =~= printed_all(one) + printed_all(other));
    }
}

proof fn one_is_printed(code: Code)
    ensures
        printed_all(seq![code]) == printed(code),
{
    reveal_with_fuel(printed_all, 2);
    assert(seq![code].drop_first() =~= seq![]);
    assert(printed_all(seq![code]) =~= printed(code));
}

proof fn two_are_printed(one: Code, other: Code)
    ensures
        printed_all(seq![one, other]) == printed(one) + printed(other),
{
    one_is_printed(one);
    one_is_printed(other);
    assert(seq![one, other] =~= seq![one] + seq![other]);
    printing_joins(seq![one], seq![other]);
}

/// What a region's end adds is what it is as code.
proof fn an_end_is_printed(setting: Setting, out: Emitted, around: Around, region: RegionId)
    ensures
        ({
            let end = setting.terminator(
                out,
                around,
                setting.program.region(region).terminator,
            );
            &&& follows(out, end)
            &&& !end.failed ==> printed_all(setting.end_code(out, around, region))
                == machine::added(out, end)
        }),
{
    let terminator = setting.program.region(region).terminator;
    let values = setting.program.values(terminator.values);
    let end = setting.terminator(out, around, terminator);
    match terminator.exit {
        Exit::Yield => {
            if let Some(results) = around.yields {
                a_transfer_follows(setting, out, values, setting.program.values(results));
                one_is_printed(Setting::between(out, end));
            }
        },
        Exit::Continue => {
            if let Some(frame) = around.frame {
                a_jump_is_printed(setting, out, around, values, frame.params, frame.again);
            }
        },
        Exit::Break => {
            if let Some(frame) = around.frame {
                a_jump_is_printed(setting, out, around, values, frame.results, frame.exit);
            }
        },
        Exit::Return => {
            let left = setting.push_all(out, values, 0);
            pushes_follow(setting, out, values, 0);
            if !setting.in_entry {
                emitting_follows(left, seq![RETURN]);
                following_chains(out, left, end);
                two_are_printed(Setting::between(out, left), Code::Leave);
            } else if setting.exits {
                emitting_follows(left, lower::indexed(CALL, setting.proc_exit()));
                following_chains(out, left, end);
                two_are_printed(
                    Setting::between(out, left),
                    Code::Call(setting.proc_exit()),
                );
            } else {
                assert(machine::added(out, end) =~= seq![]);
            }
        },
        Exit::Unreachable => {
            if around.depth > 0 {
                emitting_follows(out, seq![UNREACHABLE]);
                one_is_printed(Code::Trap);
            } else {
                assert(machine::added(out, end) =~= seq![]);
            }
        },
    }
}

proof fn a_jump_is_printed(
    setting: Setting,
    out: Emitted,
    around: Around,
    values: Seq<ValueId>,
    destinations: Range,
    label: u32,
)
    ensures
        ({
            let moved = setting.transfer(out, values, setting.program.values(destinations));
            let end = setting.branch(moved, around, label);
            &&& follows(out, end)
            &&& !end.failed ==> printed_all(
                setting.jump_code(out, around, values, destinations, label),
            ) == machine::added(out, end)
        }),
{
    let moved = setting.transfer(out, values, setting.program.values(destinations));
    let end = setting.branch(moved, around, label);
    a_transfer_follows(setting, out, values, setting.program.values(destinations));
    if label < around.depth {
        let count = (around.depth - 1 - label) as nat;
        emitting_follows(moved, lower::indexed(BR, count));
        following_chains(out, moved, end);
        two_are_printed(Setting::between(out, moved), Code::Branch(count));
    }
}

/// What an instruction adds is what it is as code.
pub(super) proof fn an_op_is_printed(
    setting: Setting,
    out: Emitted,
    around: Around,
    region: RegionId,
    at: int,
)
    ensures
        ({
            let (code, next) = setting.op_code(out, around, region, at);
            &&& follows(out, next)
            &&& !next.failed ==> printed_all(code) == machine::added(out, next)
        }),
    decreases setting.program.rank(region), 0nat, 0int,
{
    let results = setting.program.region_results(region)[at];
    let (code, next) = setting.op_code(out, around, region, at);
    match setting.program.region_ops(region)[at] {
        Op::If { condition, then_region, else_region } => {
            if setting.program.nests(region, then_region) && setting.program.nests(
                region,
                else_region,
            ) && around.depth < u32::MAX {
                let within = Setting::inside_if(around, results);
                let asked = setting.push(out, condition);
                let opened = asked.emit(seq![IF, EMPTY]);
                let then = setting.region(opened, within, then_region, 0);
                let turned = then.emit(seq![ELSE]);
                let closed = setting.region(turned, within, else_region, 0);
                let one = setting.region_code(opened, within, then_region, 0);
                let other = setting.region_code(turned, within, else_region, 0);
                a_push_follows(setting, out, condition);
                emitting_follows(asked, seq![IF, EMPTY]);
                a_region_is_printed(setting, opened, within, then_region, 0);
                emitting_follows(then, seq![ELSE]);
                a_region_is_printed(setting, turned, within, else_region, 0);
                emitting_follows(closed, seq![END]);
                following_chains(asked, opened, then);
                following_chains(asked, then, turned);
                following_chains(asked, turned, closed);
                following_chains(asked, closed, next);
                following_chains(out, asked, next);
                two_are_printed(Setting::between(out, asked), Code::Choice(one, other));
                if !next.failed {
                    assert(printed(Code::Choice(one, other)) =~= machine::added(asked, next));
                }
            }
        },
        Op::Loop { initial, body } => {
            if setting.program.nests(region, body) && around.depth < u32::MAX - 1 {
                let params = setting.program.region(body).params;
                let entered = setting.transfer(
                    out,
                    setting.program.values(initial),
                    setting.program.values(params),
                );
                let opened = entered.emit(seq![BLOCK, EMPTY, LOOP, EMPTY]);
                let within = Setting::inside_loop(around, params, results);
                let closed = setting.region(opened, within, body, 0);
                let inner = setting.region_code(opened, within, body, 0);
                a_transfer_follows(
                    setting,
                    out,
                    setting.program.values(initial),
                    setting.program.values(params),
                );
                emitting_follows(entered, seq![BLOCK, EMPTY, LOOP, EMPTY]);
                a_region_is_printed(setting, opened, within, body, 0);
                emitting_follows(closed, seq![END, END]);
                following_chains(entered, opened, closed);
                following_chains(entered, closed, next);
                following_chains(out, entered, next);
                let again = Code::Again(inner);
                one_is_printed(again);
                two_are_printed(Setting::between(out, entered), Code::Block(seq![again]));
                if !next.failed {
                    assert(printed(Code::Block(seq![again])) =~= machine::added(entered, next));
                }
            }
        },
        op => {
            a_simple_one_is_printed(setting, out, op, setting.program.values(results));
        },
    }
}

/// What a region adds is what it is as code.
pub proof fn a_region_is_printed(
    setting: Setting,
    out: Emitted,
    around: Around,
    region: RegionId,
    from: int,
)
    requires
        from >= 0,
    ensures
        follows(out, setting.region(out, around, region, from)),
        !setting.region(out, around, region, from).failed ==> printed_all(
            setting.region_code(out, around, region, from),
        ) == machine::added(out, setting.region(out, around, region, from)),
    decreases
            setting.program.rank(region),
            1nat,
            setting.program.region_ops(region).len() - from,
{
    if from >= setting.program.region_ops(region).len() {
        an_end_is_printed(setting, out, around, region);
    } else {
        let (code, next) = setting.op_code(out, around, region, from);
        let end = setting.region(next, around, region, from + 1);
        an_op_is_printed(setting, out, around, region, from);
        a_region_is_printed(setting, next, around, region, from + 1);
        following_chains(out, next, end);
        printing_joins(code, setting.region_code(next, around, region, from + 1));
        assert(setting.region(out, around, region, from) == end);
    }
}

} // verus!
