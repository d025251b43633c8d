//! No register allocator:
//!
//! - A constant or an address is materialised into the register that wants
//!   it, and lowering tracks what each register holds so a copy can beat a
//!   reload.
//! - Everything else, region parameters included, lives in a stack slot.
//!   Slow, correct, and replaceable.
//!
//! A frame is, from the bottom up, the words a call passes and answers in,
//! the slots, and the scratch a transfer passes through. A function finds
//! what it was passed, and leaves what it answers, in the words its caller
//! has at the bottom, past its own frame and the address it returns to.

use super::encode;
use super::encode::{Encoder, Reg};
use super::{Code, Reloc};
use crate::ir::model;
use crate::ir::{
    wrap, Binary, Class, DataId, Exit, Function, FunctionId, Offset, Op, Parts, PlatformId, Program,
    Range, RegionId, Relation, Terminator, ValueId, Width,
};
use crate::targets::bytes;
use crate::text::same;
use vstd::prelude::*;

verus! {

pub const SYS_WRITE: u64 = 1;
pub const SYS_BRK: u64 = 12;
pub const SYS_EXIT: u64 = 60;
pub const STDOUT: u64 = 1;

/// Condition codes, as the low nibble of a `jcc` or `setcc`.
pub const EQUAL: u8 = 0x4;
pub const BELOW: u8 = 0x2;

/// A word on this target, in bytes.
pub const WORD: i64 = 8;

/// How many words a frame may be: a distance from the top of the stack is 31
/// bits of bytes.
pub const MOST_WORDS: u64 = 0x0FFF_FFFF;

/// Where a value comes from when something needs it.
#[derive(Clone, Copy, Debug, PartialEq, Eq, Structural)]
pub enum Source {
    Const(u64),
    Addr(DataId),
    Slot(u32),
    /// One of the words the caller passed.
    Param(u32),
}

#[derive(Clone, Copy, Debug, PartialEq, Eq, Structural)]
pub struct Label(pub usize);

/// Which values of a function need a stack slot, and how big the parts of
/// its frame have to be, in words.
#[verifier::ext_equal]
pub struct Layout {
    pub source: Seq<Source>,
    pub slots: nat,
    /// The most values that move at once.
    pub widest: nat,
    /// The most words any call passes or answers in.
    pub outgoing: nat,
    pub failed: bool,
}

impl Layout {
    pub open spec fn start(count: nat) -> Layout {
        Layout {
            source: Seq::new(count, |i: int| Source::Slot(0)),
            slots: 0,
            widest: 0,
            outgoing: 0,
            failed: false,
        }
    }

    pub open spec fn put(self, value: ValueId, source: Source) -> Layout {
        Layout { source: self.source.update(value.0 as int, source), ..self }
    }

    pub open spec fn give_slot(self, value: ValueId) -> Layout {
        if self.slots >= u32::MAX {
            Layout { failed: true, ..self }
        } else {
            Layout { slots: self.slots + 1, ..self.put(value, Source::Slot(self.slots as u32)) }
        }
    }

    pub open spec fn give_slots(self, values: Seq<ValueId>, from: int) -> Layout
        decreases values.len() - from,
    {
        if from < 0 || from >= values.len() {
            self
        } else {
            self.give_slot(values[from]).give_slots(values, from + 1)
        }
    }

    /// The words the caller passed, in order.
    pub open spec fn give_params(self, values: Seq<ValueId>, from: int) -> Layout
        decreases values.len() - from,
    {
        if from < 0 || from >= values.len() {
            self
        } else {
            self.put(values[from], Source::Param(from as u32)).give_params(values, from + 1)
        }
    }

    pub open spec fn widen(self, count: nat) -> Layout {
        if count > self.widest {
            Layout { widest: count, ..self }
        } else {
            self
        }
    }

    pub open spec fn reserve(self, count: nat) -> Layout {
        if count > self.outgoing {
            Layout { outgoing: count, ..self }
        } else {
            self
        }
    }

    /// What an instruction defines, and what it needs of the frame.
    pub open spec fn place(self, op: Op, results: Seq<ValueId>) -> Layout {
        match op {
            Op::Constant { value, .. } => self.put(results[0], Source::Const(value)),
            Op::AddressOf(data) => self.put(results[0], Source::Addr(data)),
            Op::Call { args, .. } => self.give_slots(results, 0).reserve(args.len as nat).reserve(
                results.len(),
            ),
            Op::Loop { initial, .. } => self.give_slots(results, 0).widen(initial.len as nat),
            _ => self.give_slots(results, 0),
        }
    }

    /// A region's instructions from `from` on, each with the regions inside
    /// it. The entry hands nothing back to a caller.
    pub open spec fn walk(self, program: Parts, region: RegionId, from: int, in_entry: bool)
        -> Layout
        decreases program.rank(region), program.region_ops(region).len() - from,
    {
        let ops = program.region_ops(region);
        let end = program.region(region).terminator;
        if from < 0 || from >= ops.len() {
            if end.exit == Exit::Unreachable || (end.exit == Exit::Return && in_entry) {
                self
            } else {
                self.widen(end.values.len as nat)
            }
        } else {
            let results = program.values(program.region_results(region)[from]);
            let placed = self.place(ops[from], results);
            let walked = match ops[from] {
                Op::If { then_region, else_region, .. } => if program.nests(region, then_region)
                    && program.nests(region, else_region) {
                    placed.enter(program, then_region).walk(
                        program,
                        then_region,
                        0,
                        in_entry,
                    ).enter(program, else_region).walk(program, else_region, 0, in_entry)
                } else {
                    placed
                },
                Op::Loop { body, .. } => if program.nests(region, body) {
                    placed.enter(program, body).walk(program, body, 0, in_entry)
                } else {
                    placed
                },
                _ => placed,
            };
            walked.walk(program, region, from + 1, in_entry)
        }
    }

    /// A region's parameters are slots like the rest.
    pub open spec fn enter(self, program: Parts, region: RegionId) -> Layout {
        self.give_slots(program.values(program.region(region).params), 0)
    }

    /// The frame of a function.
    pub open spec fn of(program: Parts, function: Function, in_entry: bool) -> Layout {
        Layout::start(program.classes.len()).give_params(
            program.values(function.params),
            0,
        ).walk(program, function.body, 0, in_entry)
    }

    pub open spec fn words(self) -> nat {
        self.outgoing + self.slots + self.widest
    }

    pub open spec fn fits(self) -> bool {
        !self.failed && self.words() <= MOST_WORDS
    }

    /// How big the frame is, in bytes.
    pub open spec fn frame(self) -> nat {
        8 * self.words()
    }

    pub open spec fn slot(self, index: nat) -> nat {
        8 * (self.outgoing + index)
    }

    /// A word the caller has at the bottom of its frame.
    pub open spec fn passed(self, index: nat) -> nat {
        8 * (self.words() + 1 + index)
    }

    pub open spec fn scratch(self, index: nat) -> nat {
        8 * (self.outgoing + self.slots + index)
    }
}

/// Which values need a stack slot, and how big the frame has to be.
#[derive(Debug)]
pub struct Plan {
    source: Vec<Source>,
    slots: u32,
    widest: u32,
    outgoing: u32,
    failed: bool,
}

impl View for Plan {
    type V = Layout;

    closed spec fn view(&self) -> Layout {
        Layout {
            source: self.source@,
            slots: self.slots as nat,
            widest: self.widest as nat,
            outgoing: self.outgoing as nat,
            failed: self.failed,
        }
    }
}

impl Layout {
    /// Room for every value of a program, and nothing placed that is not
    /// there.
    pub open spec fn covers(self, program: Parts) -> bool {
        &&& self.source.len() == program.classes.len()
        &&& forall|v: int|
            0 <= v < self.source.len() ==> (#[trigger] self.source[v] matches Source::Addr(data)
                ==> data.0 < program.spans.len())
    }
}

impl Plan {
    fn give_slots(&mut self, program: &Program, values: Range)
        requires
            old(self)@.covers(program@),
            program@.wf(),
            values.within(program@.operands.len()),
        ensures
            final(self)@.covers(program@),
            final(self)@ == old(self)@.give_slots(program@.values(values), 0),
    {
        let list = program.values(values);
        proof {
            model::known_values(program@, values);
        }
        let mut at: usize = 0;
        while at < list.len()
            invariant
                at <= list@.len(),
                self@.covers(program@),
                forall|i: int| 0 <= i < list@.len() ==> program@.known(#[trigger] list@[i]),
                self@.give_slots(list@, at as int) == old(self)@.give_slots(list@, 0),
            decreases list@.len() - at,
        {
            if self.slots == u32::MAX {
                self.failed = true;
            } else {
                self.source.set(list[at].index(), Source::Slot(self.slots));
                self.slots = self.slots + 1;
            }
            at = at + 1;
        }
    }

    fn give_params(&mut self, program: &Program, values: Range)
        requires
            old(self)@.covers(program@),
            program@.wf(),
            values.within(program@.operands.len()),
        ensures
            final(self)@.covers(program@),
            final(self)@ == old(self)@.give_params(program@.values(values), 0),
    {
        let list = program.values(values);
        proof {
            model::known_values(program@, values);
        }
        let mut at: u32 = 0;
        while at < values.len
            invariant
                at <= values.len,
                list@.len() == values.len,
                self@.covers(program@),
                forall|i: int| 0 <= i < list@.len() ==> program@.known(#[trigger] list@[i]),
                self@.give_params(list@, at as int) == old(self)@.give_params(list@, 0),
            decreases values.len - at,
        {
            self.source.set(list[at as usize].index(), Source::Param(at));
            at = at + 1;
        }
    }

    fn widen(&mut self, count: u32)
        ensures
            final(self)@ == old(self)@.widen(count as nat),
    {
        if count > self.widest {
            self.widest = count;
        }
    }

    fn reserve(&mut self, count: u32)
        ensures
            final(self)@ == old(self)@.reserve(count as nat),
    {
        if count > self.outgoing {
            self.outgoing = count;
        }
    }

    fn place(&mut self, program: &Program, op: Op, results: Range)
        requires
            old(self)@.covers(program@),
            program@.wf(),
            program@.op_fits(op, results),
        ensures
            final(self)@.covers(program@),
            final(self)@ == old(self)@.place(op, program@.values(results)),
    {
        proof {
            model::known_values(program@, results);
        }
        match op {
            Op::Constant { value, .. } => {
                let result = program.values(results)[0];
                self.source.set(result.index(), Source::Const(value));
            },
            Op::AddressOf(data) => {
                let result = program.values(results)[0];
                self.source.set(result.index(), Source::Addr(data));
            },
            Op::Call { args, .. } => {
                self.give_slots(program, results);
                self.reserve(args.len);
                self.reserve(results.len);
            },
            Op::Loop { initial, .. } => {
                self.give_slots(program, results);
                self.widen(initial.len);
            },
            _ => self.give_slots(program, results),
        }
    }

    fn enter(&mut self, program: &Program, region: RegionId)
        requires
            old(self)@.covers(program@),
            program@.wf(),
            region.0 < program@.regions.len(),
        ensures
            final(self)@.covers(program@),
            final(self)@ == old(self)@.enter(program@, region),
    {
        proof {
            assert(program@.region_fits(program@.regions[region.0 as int]));
        }
        self.give_slots(program, program.region(region).params);
    }

    fn walk(&mut self, program: &Program, region: RegionId, in_entry: bool)
        requires
            old(self)@.covers(program@),
            program@.wf(),
            region.0 < program@.regions.len(),
        ensures
            final(self)@.covers(program@),
            final(self)@ == old(self)@.walk(program@, region, 0, in_entry),
        decreases program@.rank(region),
    {
        let run = program.region(region).ops;
        let mut at: u32 = 0;
        proof {
            assert(program@.region_fits(program@.regions[region.0 as int]));
        }
        while at < run.len
            invariant
                at <= run.len,
                run == program@.region(region).ops,
                run.within(program@.ops.len()),
                program@.wf(),
                region.0 < program@.regions.len(),
                self@.covers(program@),
                self@.walk(program@, region, at as int, in_entry) == old(self)@.walk(
                    program@,
                    region,
                    0,
                    in_entry,
                ),
            decreases run.len - at,
        {
            let (op, results) = program.step(region, at);
            let ghost inner = model::children(op);
            proof {
                model::inside(program@, region, at as int);
            }
            self.place(program, op, results);
            match op {
                Op::If { then_region, else_region, .. } => {
                    assert(inner[0] == then_region && inner[1] == else_region);
                    self.enter(program, then_region);
                    self.walk(program, then_region, in_entry);
                    self.enter(program, else_region);
                    self.walk(program, else_region, in_entry);
                },
                Op::Loop { body, .. } => {
                    assert(inner[0] == body);
                    self.enter(program, body);
                    self.walk(program, body, in_entry);
                },
                _ => {},
            }
            at = at + 1;
        }
        let end = program.region(region).terminator;
        if end.exit == Exit::Unreachable || (end.exit == Exit::Return && in_entry) {
        } else {
            self.widen(end.values.len);
        }
    }

    /// The frame of a function. The first is the entry.
    pub fn new(program: &Program, function: FunctionId) -> (plan: Self)
        requires
            program@.wf(),
            function.0 < program@.functions.len(),
        ensures
            plan@.covers(program@),
            plan@ == Layout::of(program@, program@.function(function), function.0 == 0),
    {
        let mut source: Vec<Source> = Vec::new();
        while source.len() < program.values_count()
            invariant
                source@.len() <= program@.classes.len(),
                forall|v: int| 0 <= v < source@.len() ==> #[trigger] source@[v] == Source::Slot(0),
            decreases program@.classes.len() - source@.len(),
        {
            source.push(Source::Slot(0));
        }
        let mut plan = Plan { source, slots: 0, widest: 0, outgoing: 0, failed: false };
        assert(plan@ =~= Layout::start(program@.classes.len()));
        proof {
            assert(program@.function_fits(program@.functions[function.0 as int]));
        }
        let declared = program.functions()[function.index()];
        plan.give_params(program, declared.params);
        plan.walk(program, declared.body, function.0 == 0);
        plan
    }

    /// How big the frame is, in bytes, where it is one a program may have.
    pub fn frame(&self) -> (frame: Option<u32>)
        ensures
            frame is Some <==> self@.fits(),
            frame matches Some(size) ==> size == self@.frame(),
    {
        let words: u64 = self.outgoing as u64 + self.slots as u64 + self.widest as u64;
        if self.failed || words > MOST_WORDS {
            None
        } else {
            Some(8 * words as u32)
        }
    }
}

/// A word, as the signed number of the same 64 bits.
pub open spec fn signed(value: u64) -> int {
    if value < 0x8000_0000_0000_0000 {
        value as int
    } else {
        value - 0x1_0000_0000_0000_0000
    }
}

/// A signed number, as the word of the same 64 bits.
pub open spec fn word(value: int) -> u64 {
    (value % 0x1_0000_0000_0000_0000) as u64
}

/// A way of leaving a constant in a register. They differ in how they fill
/// the upper bits.
#[allow(inconsistent_fields)]
pub enum Form {
    /// It is there already.
    Nothing,
    /// `xor` with itself, which clears all 64 bits.
    Zero,
    /// A copy, of all 64 bits or of the low 32 with the rest cleared.
    Copy { src: Reg, wide: bool },
    /// `push` sign-extends its byte, and `pop` takes the whole word.
    PushPop { value: i8 },
    /// Zero-extended.
    Imm32 { value: u32 },
    /// Sign-extended.
    Sext { value: i32 },
    Imm64 { value: u64 },
}

impl Form {
    pub open spec fn code(self, dst: Reg) -> Seq<u8> {
        match self {
            Form::Nothing => seq![],
            Form::Zero => encode::xor_self(dst),
            Form::Copy { src, wide } => encode::mov_reg(dst, src, wide),
            Form::PushPop { value } => encode::push_imm8(value) + encode::pop(dst),
            Form::Imm32 { value } => encode::mov_imm32(dst, value),
            Form::Sext { value } => encode::mov_sext_imm32(dst, value),
            Form::Imm64 { value } => encode::mov_imm64(dst, value),
        }
    }

    /// What the form leaves in the register it is written for, of a machine
    /// whose registers hold `held`, by number.
    pub open spec fn leaves(self, held: Seq<u64>, dst: Reg) -> u64 {
        match self {
            Form::Nothing => held[dst.number() as int],
            Form::Zero => 0,
            Form::Copy { src, wide } => if wide {
                held[src.number() as int]
            } else {
                (held[src.number() as int] as nat % 0x1_0000_0000) as u64
            },
            Form::PushPop { value } => word(value as int),
            Form::Imm32 { value } => value as u64,
            Form::Sext { value } => word(value as int),
            Form::Imm64 { value } => value,
        }
    }
}

/// The first register known to hold a value, of those that are tracked.
pub open spec fn holding(known: Seq<Option<u64>>, value: u64) -> Option<Reg> {
    if known[0] == Some(value) {
        Some(Reg::Rax)
    } else if known[1] == Some(value) {
        Some(Reg::Rcx)
    } else if known[2] == Some(value) {
        Some(Reg::Rdx)
    } else if known[6] == Some(value) {
        Some(Reg::Rsi)
    } else if known[7] == Some(value) {
        Some(Reg::Rdi)
    } else if known[11] == Some(value) {
        Some(Reg::R11)
    } else {
        None
    }
}

/// The shortest form that leaves `value` in `dst`. The choice is made over
/// the whole 64-bit word rather than over any reading of it.
pub open spec fn form(known: Seq<Option<u64>>, dst: Reg, value: u64) -> Form {
    if known[dst.number() as int] == Some(value) {
        Form::Nothing
    } else if value == 0 {
        Form::Zero
    } else if holding(known, value) is Some {
        Form::Copy { src: holding(known, value)->0, wide: value > u32::MAX }
    } else if -128 <= signed(value) <= 127 {
        Form::PushPop { value: signed(value) as i8 }
    } else if value <= u32::MAX {
        Form::Imm32 { value: value as u32 }
    } else if i32::MIN <= signed(value) <= i32::MAX {
        Form::Sext { value: signed(value) as i32 }
    } else {
        Form::Imm64 { value }
    }
}

/// Whether what is thought of the registers is so.
pub open spec fn true_of(known: Seq<Option<u64>>, held: Seq<u64>) -> bool {
    &&& known.len() == 16
    &&& held.len() == 16
    &&& forall|r: int|
        0 <= r < 16 ==> (#[trigger] known[r] matches Some(value) ==> held[r] == value)
}

/// However a constant is loaded, it arrives.
pub proof fn a_constant_arrives(known: Seq<Option<u64>>, held: Seq<u64>, dst: Reg, value: u64)
    requires
        true_of(known, held),
    ensures
        form(known, dst, value).leaves(held, dst) == value,
{
    assert(known[0] == known[0] && known[1] == known[1] && known[2] == known[2] && known[6]
        == known[6] && known[7] == known[7] && known[11] == known[11]);
    assert(known[dst.number() as int] is Some || known[dst.number() as int] is None);
}

/// And no other way of leaving it there, from what is known of the
/// registers, is shorter.
pub proof fn no_form_is_shorter(
    known: Seq<Option<u64>>,
    dst: Reg,
    value: u64,
    other: Form,
)
    requires
        known.len() == 16,
        match other {
            Form::Nothing => known[dst.number() as int] == Some(value),
            Form::Zero => value == 0,
            Form::Copy { src, wide } => known[src.number() as int] == Some(value) && (wide || value
                <= u32::MAX),
            Form::PushPop { value: byte } => word(byte as int) == value,
            Form::Imm32 { value: low } => low == value,
            Form::Sext { value: low } => word(low as int) == value,
            Form::Imm64 { value: whole } => whole == value,
        },
    ensures
        form(known, dst, value).code(dst).len() <= other.code(dst).len(),
{
    assert forall|v: nat, count: nat|
        #![trigger bytes::little_endian(v, count)]
        bytes::little_endian(v, count).len() == count by {
        bytes::little_endian_length(v, count);
    }
}

/// Code with jumps in it that wait for their labels.
#[verifier::ext_equal]
pub struct Work {
    pub code: Seq<u8>,
    /// How far in each label landed, once it has been bound.
    pub labels: Seq<Option<nat>>,
    /// Each displacement to fill in, and the label it waits on.
    pub jumps: Seq<(nat, Label)>,
    pub relocs: Seq<Reloc>,
    /// The constant each register is known to hold. `None` is unknown, which
    /// is not the same as zero.
    pub known: Seq<Option<u64>>,
    /// Whether something came up that this target does not have.
    pub failed: bool,
}

impl Work {
    pub open spec fn start() -> Work {
        Work {
            code: seq![],
            labels: seq![],
            jumps: seq![],
            relocs: seq![],
            known: nothing_known(),
            failed: false,
        }
    }

    pub open spec fn emit(self, code: Seq<u8>) -> Work {
        Work { code: self.code + code, ..self }
    }

    pub open spec fn fail(self) -> Work {
        Work { failed: true, ..self }
    }

    pub open spec fn next(self) -> Label {
        Label(self.labels.len() as usize)
    }

    pub open spec fn label(self) -> Work {
        Work { labels: self.labels.push(None), ..self }
    }

    /// Control joins here from somewhere else, so nothing is known.
    pub open spec fn bind(self, label: Label) -> Work {
        Work {
            labels: self.labels.update(label.0 as int, Some(self.code.len())),
            known: nothing_known(),
            ..self
        }
    }

    pub open spec fn forget(self) -> Work {
        Work { known: nothing_known(), ..self }
    }

    pub open spec fn knowing(self, reg: Reg, value: Option<u64>) -> Work {
        Work { known: self.known.update(reg.number() as int, value), ..self }
    }

    /// Code that ends in a displacement to a label.
    pub open spec fn toward(self, code: Seq<u8>, label: Label) -> Work {
        let written = self.emit(code);
        Work {
            jumps: self.jumps.push(((written.code.len() - 4) as nat, label)),
            ..written
        }
    }

    pub open spec fn jump(self, label: Label) -> Work {
        self.toward(encode::jump(), label)
    }

    pub open spec fn jump_if(self, cc: u8, label: Label) -> Work {
        self.toward(encode::jump_if(cc), label)
    }

    pub open spec fn call(self, label: Label) -> Work {
        self.toward(encode::call(), label)
    }

    pub open spec fn load_const(self, dst: Reg, value: u64) -> Work {
        self.emit(form(self.known, dst, value).code(dst)).knowing(dst, Some(value))
    }

    /// Addressed from the instruction pointer, so the program does not care
    /// where it was loaded and needs no relocation at startup.
    pub open spec fn load_addr(self, dst: Reg, data: DataId) -> Work {
        let written = self.emit(encode::lea_rip(dst));
        Work {
            relocs: self.relocs.push(Reloc { offset: (written.code.len() - 4) as usize, data }),
            ..written
        }.knowing(dst, None)
    }

    pub open spec fn load_slot(self, dst: Reg, disp: nat) -> Work {
        self.emit(encode::load_slot(dst, disp as u32)).knowing(dst, None)
    }

    pub open spec fn store_slot(self, disp: nat) -> Work {
        self.emit(encode::store_slot(Reg::Rax, disp as u32))
    }

    pub open spec fn alu(self, opcode: u8, dst: Reg, src: Reg) -> Work {
        self.emit(encode::alu(opcode, dst, src)).knowing(dst, None)
    }

    /// `syscall` returns in rax and destroys rcx and r11.
    pub open spec fn syscall(self) -> Work {
        self.emit(encode::syscall()).knowing(Reg::Rax, None).knowing(Reg::Rcx, None).knowing(
            Reg::R11,
            None,
        )
    }

    /// Back to the width of a class that is narrower than a word.
    pub open spec fn narrow(self, class: Class) -> Work {
        match class {
            Class::Fixed { bits } => if bits < 64 {
                self.load_const(Reg::Rcx, model::wrapped(class, u64::MAX)).alu(
                    0x21,
                    Reg::Rax,
                    Reg::Rcx,
                )
            } else if bits == 64 {
                self
            } else {
                self.fail()
            },
            _ => self,
        }
    }

    /// Where a label landed.
    pub open spec fn target(self, label: Label) -> Option<nat> {
        if label.0 < self.labels.len() {
            self.labels[label.0 as int]
        } else {
            None
        }
    }

    /// Whether a jump can be filled in.
    pub open spec fn lands(self, jump: (nat, Label)) -> bool {
        &&& jump.0 + 4 <= self.code.len()
        &&& self.target(jump.1) matches Some(at) && i32::MIN <= encode::away(jump.0, at)
            <= i32::MAX
    }

    pub open spec fn closes(self) -> bool {
        forall|i: int| 0 <= i < self.jumps.len() ==> self.lands(#[trigger] self.jumps[i])
    }

    /// The code, once the first `count` jumps are filled in.
    pub open spec fn with_jumps(self, count: int) -> Seq<u8>
        decreases count,
    {
        if count <= 0 {
            self.code
        } else {
            let (hole, label) = self.jumps[count - 1];
            encode::patched(
                self.with_jumps(count - 1),
                hole,
                encode::away(hole, self.target(label)->0),
            )
        }
    }

    pub open spec fn finished(self) -> Seq<u8> {
        self.with_jumps(self.jumps.len() as int)
    }

    /// Displacements lie apart in the code that is there, and what is known
    /// is of sixteen registers.
    pub open spec fn tidy(self) -> bool {
        &&& self.known.len() == 16
        &&& forall|i: int|
            0 <= i < self.jumps.len() ==> (#[trigger] self.jumps[i]).0 + 4 <= self.code.len()
        &&& forall|i: int|
            0 <= i < self.relocs.len() ==> (#[trigger] self.relocs[i]).offset + 4
                <= self.code.len()
        &&& forall|i: int, j: int|
            0 <= i < j < self.jumps.len() ==> (#[trigger] self.jumps[i]).0 + 4 <= (
            #[trigger] self.jumps[j]).0
        &&& forall|i: int, j: int|
            0 <= i < j < self.relocs.len() ==> (#[trigger] self.relocs[i]).offset + 4 <= (
            #[trigger] self.relocs[j]).offset
        &&& forall|i: int, j: int|
            0 <= i < self.jumps.len() && 0 <= j < self.relocs.len() ==> (
            #[trigger] self.jumps[i]).0 + 4 <= (#[trigger] self.relocs[j]).offset
                || self.relocs[j].offset + 4 <= self.jumps[i].0
    }

    /// Whether the displacements of jumps lie apart in the code that is there.
    pub open spec fn is_spaced(self) -> bool {
        &&& forall|i: int|
            0 <= i < self.jumps.len() ==> (#[trigger] self.jumps[i]).0 + 4 <= self.code.len()
        &&& forall|i: int, j: int|
            0 <= i < j < self.jumps.len() ==> (#[trigger] self.jumps[i]).0 + 4 <= (
            #[trigger] self.jumps[j]).0
    }

    /// Whether every jump of filled-in code leads to its label.
    pub open spec fn resolved(self, code: Seq<u8>) -> bool {
        &&& code.len() == self.code.len()
        &&& forall|i: int|
            0 <= i < self.jumps.len() ==> code.subrange(
                (#[trigger] self.jumps[i]).0 as int,
                self.jumps[i].0 as int + 4,
            ) == bytes::little_endian(
                (encode::away(self.jumps[i].0, self.target(self.jumps[i].1)->0)
                    % 0x1_0000_0000) as nat,
                4,
            )
    }
}

/// A register file of which nothing is known.
pub open spec fn nothing_known() -> Seq<Option<u64>> {
    Seq::new(16, |i: int| None::<u64>)
}

/// Filling in the jumps leaves every one of them leading to its label,
/// whatever was filled in after it.
pub proof fn every_jump_leads_to_its_label(work: Work)
    requires
        work.is_spaced(),
        work.closes(),
    ensures
        work.resolved(work.finished()),
{
    jumps_resolve(work, work.jumps.len() as int);
}

proof fn jumps_resolve(work: Work, count: int)
    requires
        work.is_spaced(),
        work.closes(),
        0 <= count <= work.jumps.len(),
    ensures
        work.with_jumps(count).len() == work.code.len(),
        forall|i: int|
            0 <= i < count ==> work.with_jumps(count).subrange(
                (#[trigger] work.jumps[i]).0 as int,
                work.jumps[i].0 as int + 4,
            ) == bytes::little_endian(
                (encode::away(work.jumps[i].0, work.target(work.jumps[i].1)->0)
                    % 0x1_0000_0000) as nat,
                4,
            ),
    decreases count,
{
    if count > 0 {
        jumps_resolve(work, count - 1);
        let (hole, label) = work.jumps[count - 1];
        let distance = (encode::away(hole, work.target(label)->0) % 0x1_0000_0000) as nat;
        bytes::little_endian_length(distance, 4);
        let before = work.with_jumps(count - 1);
        let now = work.with_jumps(count);
        assert(work.lands(work.jumps[count - 1]));
        assert forall|i: int| 0 <= i < count implies now.subrange(
            (#[trigger] work.jumps[i]).0 as int,
            work.jumps[i].0 as int + 4,
        ) == bytes::little_endian(
            (encode::away(work.jumps[i].0, work.target(work.jumps[i].1)->0)
                % 0x1_0000_0000) as nat,
            4,
        ) by {
            let at = work.jumps[i].0 as int;
            if i < count - 1 {
                assert(work.jumps[i].0 + 4 <= work.jumps[count - 1].0);
                assert(now.subrange(at, at + 4) =~= before.subrange(at, at + 4));
            } else {
                assert(now.subrange(at, at + 4) =~= bytes::little_endian(distance, 4));
            }
        }
    }
}

/// What a region stands in: the nearest `if`, as what it leaves with and
/// where it ends, and the nearest loop, as what it carries, where it goes
/// round, what it leaves with and where it ends.
#[derive(Clone, Copy, Debug)]
pub struct Around {
    pub branch: Option<(Range, Label)>,
    pub repeat: Option<(Range, Label, Range, Label)>,
}

/// A program, and the frame of the function at hand.
#[verifier::ext_equal]
pub struct Stage {
    pub program: Parts,
    pub layout: Layout,
    pub in_entry: bool,
}

/// How many bytes an offset comes to.
pub open spec fn distance(offset: Offset) -> int {
    match offset {
        Offset::Bytes(count) => count as int,
        Offset::Words(count) => count * WORD,
    }
}

/// Whether an instruction has room for it.
pub open spec fn reachable(offset: Offset) -> bool {
    i32::MIN <= distance(offset) <= i32::MAX
}

impl Stage {
    /// A word the caller has at the bottom of its frame, where it is not too
    /// far away.
    pub open spec fn passed(self, index: nat) -> Option<nat> {
        if self.layout.words() + 1 + index <= MOST_WORDS {
            Some(self.layout.passed(index))
        } else {
            None
        }
    }

    pub open spec fn read(self, work: Work, dst: Reg, value: ValueId) -> Work {
        match self.layout.source[value.0 as int] {
            Source::Const(word) => work.load_const(dst, word),
            Source::Addr(data) => work.load_addr(dst, data),
            Source::Slot(index) => if index < self.layout.slots {
                work.load_slot(dst, self.layout.slot(index as nat))
            } else {
                work.fail()
            },
            Source::Param(index) => match self.passed(index as nat) {
                Some(at) => work.load_slot(dst, at),
                None => work.fail(),
            },
        }
    }

    /// Write rax to wherever `value` lives. Only what is computed has a slot.
    pub open spec fn keep(self, work: Work, value: ValueId) -> Work {
        match self.layout.source[value.0 as int] {
            Source::Slot(index) => if index < self.layout.slots {
                work.store_slot(self.layout.slot(index as nat)).knowing(Reg::Rax, None)
            } else {
                work.fail()
            },
            _ => work.fail(),
        }
    }

    /// Put `left` in rax and `right` in rcx, which is what every two-operand
    /// form here works on.
    pub open spec fn pair(self, work: Work, left: ValueId, right: ValueId) -> Work {
        self.read(self.read(work, Reg::Rax, left), Reg::Rcx, right)
    }

    /// Sources into scratch, from the one at `from` on.
    pub open spec fn stash(self, work: Work, sources: Seq<ValueId>, from: int) -> Work
        decreases sources.len() - from,
    {
        if from < 0 || from >= sources.len() {
            work
        } else if from >= self.layout.widest {
            work.fail()
        } else {
            self.stash(
                self.read(work, Reg::Rax, sources[from]).store_slot(
                    self.layout.scratch(from as nat),
                ),
                sources,
                from + 1,
            )
        }
    }

    /// Scratch into destinations, from the one at `from` on.
    pub open spec fn unstash(self, work: Work, destinations: Seq<ValueId>, from: int) -> Work
        decreases destinations.len() - from,
    {
        if from < 0 || from >= destinations.len() {
            work
        } else if from >= self.layout.widest {
            work.fail()
        } else {
            self.unstash(
                self.keep(
                    work.load_slot(Reg::Rax, self.layout.scratch(from as nat)),
                    destinations[from],
                ),
                destinations,
                from + 1,
            )
        }
    }

    /// Hand `sources` over as `destinations`, through scratch so that a swap
    /// between two slots cannot overwrite its own input.
    pub open spec fn transfer(self, work: Work, sources: Seq<ValueId>, destinations: Seq<ValueId>)
        -> Work {
        if sources.len() == 0 {
            work
        } else {
            self.unstash(self.stash(work, sources, 0), destinations, 0).forget()
        }
    }

    /// Scratch into the words the caller reads, from the one at `from` on.
    pub open spec fn answer(self, work: Work, count: nat, from: int) -> Work
        decreases count - from,
    {
        if from < 0 || from >= count {
            work
        } else if from >= self.layout.widest || self.passed(from as nat) is None {
            work.fail()
        } else {
            self.answer(
                work.load_slot(Reg::Rax, self.layout.scratch(from as nat)).store_slot(
                    self.layout.passed(from as nat),
                ),
                count,
                from + 1,
            )
        }
    }

    /// Arguments into the bottom of the frame, from the one at `from` on.
    pub open spec fn pass(self, work: Work, args: Seq<ValueId>, from: int) -> Work
        decreases args.len() - from,
    {
        if from < 0 || from >= args.len() {
            work
        } else if from >= self.layout.outgoing {
            work.fail()
        } else {
            self.pass(
                self.read(work, Reg::Rax, args[from]).store_slot(8 * from as nat),
                args,
                from + 1,
            )
        }
    }

    /// What was answered, out of the bottom of the frame.
    pub open spec fn take(self, work: Work, results: Seq<ValueId>, from: int) -> Work
        decreases results.len() - from,
    {
        if from < 0 || from >= results.len() {
            work
        } else if from >= self.layout.outgoing {
            work.fail()
        } else {
            self.take(
                self.keep(work.load_slot(Reg::Rax, 8 * from as nat), results[from]),
                results,
                from + 1,
            )
        }
    }

    pub open spec fn call(
        self,
        work: Work,
        function: FunctionId,
        args: Seq<ValueId>,
        results: Seq<ValueId>,
    ) -> Work {
        self.take(
            self.pass(work, args, 0).call(Label(function.0 as usize)).forget(),
            results,
            0,
        )
    }

    pub open spec fn load_at(
        self,
        work: Work,
        width: Width,
        address: ValueId,
        offset: Offset,
        result: ValueId,
    ) -> Work {
        let held = self.read(work, Reg::Rcx, address);
        if reachable(offset) {
            let disp = distance(offset) as i32;
            let loaded = match width {
                Width::Byte => held.emit(encode::load_byte(disp)),
                Width::Word => held.emit(encode::load_word(disp)),
            };
            self.keep(loaded, result)
        } else {
            held.fail()
        }
    }

    pub open spec fn store_at(
        self,
        work: Work,
        width: Width,
        address: ValueId,
        offset: Offset,
        value: ValueId,
    ) -> Work {
        let held = self.pair(work, value, address);
        if reachable(offset) {
            let disp = distance(offset) as i32;
            match width {
                Width::Byte => held.emit(encode::store_byte(disp)),
                Width::Word => held.emit(encode::store_word(disp)),
            }
        } else {
            held.fail()
        }
    }

    /// The heap is what the kernel calls the break: asking for none of it
    /// answers where it is, and asking for more moves it.
    pub open spec fn grow(self, work: Work, size: ValueId, result: ValueId) -> Work {
        let found = self.keep(
            work.load_const(Reg::Rax, SYS_BRK).load_const(Reg::Rdi, 0).syscall(),
            result,
        );
        self.read(found, Reg::Rdi, size).alu(0x01, Reg::Rdi, Reg::Rax).load_const(
            Reg::Rax,
            SYS_BRK,
        ).syscall()
    }

    pub open spec fn platform_call(
        self,
        work: Work,
        platform: PlatformId,
        args: Seq<ValueId>,
        results: Seq<ValueId>,
    ) -> Work {
        let name = self.program.name(self.program.routine(platform).name);
        if name == "write"@ {
            if args.len() < 2 {
                work.fail()
            } else {
                // rax first, so stdout can be copied from it.
                let called = work.load_const(Reg::Rax, SYS_WRITE).load_const(Reg::Rdi, STDOUT);
                self.read(self.read(called, Reg::Rsi, args[0]), Reg::Rdx, args[1]).syscall()
            }
        } else if name == "exit"@ {
            if args.len() < 1 {
                work.fail()
            } else {
                self.read(work.load_const(Reg::Rax, SYS_EXIT), Reg::Rdi, args[0]).syscall()
            }
        } else if name == "grow"@ {
            if args.len() < 1 || results.len() < 1 {
                work.fail()
            } else {
                self.grow(work, args[0], results[0])
            }
        } else {
            work.fail()
        }
    }

    pub open spec fn opcode(op: Binary) -> u8 {
        match op {
            Binary::Add => 0x01,
            Binary::Sub => 0x29,
        }
    }

    pub open spec fn condition(relation: Relation) -> u8 {
        match relation {
            Relation::Equal => EQUAL,
            Relation::Less => BELOW,
        }
    }

    /// An instruction that holds no regions. Constants and addresses are
    /// materialised where they are read, never where they are written.
    pub open spec fn simple(self, work: Work, op: Op, results: Seq<ValueId>) -> Work {
        match op {
            Op::Binary { op, left, right } => self.keep(
                self.pair(work, left, right).alu(
                    Self::opcode(op),
                    Reg::Rax,
                    Reg::Rcx,
                ).narrow(self.program.class(results[0])),
                results[0],
            ),
            Op::Compare { relation, left, right } => self.keep(
                self.pair(work, left, right).emit(
                    encode::alu(0x39, Reg::Rax, Reg::Rcx),
                ).emit(encode::set_if(Self::condition(relation), Reg::Rax)),
                results[0],
            ),
            Op::Load { width, address, offset } => self.load_at(
                work,
                width,
                address,
                offset,
                results[0],
            ),
            Op::Store { width, address, offset, value } => self.store_at(
                work,
                width,
                address,
                offset,
                value,
            ),
            Op::Convert { class, value } => self.keep(
                self.read(work, Reg::Rax, value).narrow(class),
                results[0],
            ),
            Op::PlatformCall { platform, args } => self.platform_call(
                work,
                platform,
                self.program.values(args),
                results,
            ),
            Op::Call { function, args } => self.call(
                work,
                function,
                self.program.values(args),
                results,
            ),
            _ => work,
        }
    }

    /// Nothing calls into the entry, so leaving it is exiting.
    pub open spec fn leave(self, work: Work, values: Seq<ValueId>) -> Work {
        if self.in_entry {
            let called = work.load_const(Reg::Rax, SYS_EXIT);
            let told = if values.len() > 0 {
                self.read(called, Reg::Rdi, values[0])
            } else {
                called.load_const(Reg::Rdi, 0)
            };
            told.syscall()
        } else {
            let answered = self.answer(self.stash(work, values, 0), values.len(), 0);
            let closed = if self.layout.frame() > 0 {
                answered.emit(encode::close_frame(self.layout.frame() as u32))
            } else {
                answered
            };
            closed.emit(encode::ret())
        }
    }

    pub open spec fn terminator(self, work: Work, around: Around, end: Terminator) -> Work {
        let values = self.program.values(end.values);
        match end.exit {
            Exit::Yield => match around.branch {
                Some((results, after)) => self.transfer(
                    work,
                    values,
                    self.program.values(results),
                ).jump(after),
                None => work.fail(),
            },
            Exit::Continue => match around.repeat {
                Some((params, head, _, _)) => self.transfer(
                    work,
                    values,
                    self.program.values(params),
                ).jump(head),
                None => work.fail(),
            },
            Exit::Break => match around.repeat {
                Some((_, _, results, after)) => self.transfer(
                    work,
                    values,
                    self.program.values(results),
                ).jump(after),
                None => work.fail(),
            },
            Exit::Return => self.leave(work, values),
            Exit::Unreachable => work,
        }
    }

    /// A region's instructions from `from` on, and how it ends.
    pub open spec fn region(self, work: Work, around: Around, region: RegionId, from: int) -> Work
        decreases self.program.rank(region), self.program.region_ops(region).len() - from,
    {
        let ops = self.program.region_ops(region);
        if from < 0 || from >= ops.len() {
            self.terminator(work, around, self.program.region(region).terminator)
        } else {
            let results = self.program.region_results(region)[from];
            let next = match ops[from] {
                Op::If { condition, then_region, else_region } => if self.program.nests(
                    region,
                    then_region,
                ) && self.program.nests(region, else_region) {
                    let otherwise = work.next();
                    let after = work.label().next();
                    let within = Around { branch: Some((results, after)), ..around };
                    // test rax, rax
                    let tested = self.read(work.label().label(), Reg::Rax, condition).emit(
                        encode::alu(0x85, Reg::Rax, Reg::Rax),
                    ).jump_if(EQUAL, otherwise);
                    let then = self.region(tested, within, then_region, 0);
                    self.region(then.bind(otherwise), within, else_region, 0).bind(after)
                } else {
                    work.fail()
                },
                Op::Loop { initial, body } => if self.program.nests(region, body) {
                    let head = work.next();
                    let after = work.label().next();
                    let params = self.program.region(body).params;
                    let within = Around { repeat: Some((params, head, results, after)), ..around };
                    let moved = self.transfer(
                        work.label().label(),
                        self.program.values(initial),
                        self.program.values(params),
                    );
                    self.region(moved.bind(head), within, body, 0).bind(after)
                } else {
                    work.fail()
                },
                op => self.simple(work, op, self.program.values(results)),
            };
            self.region(next, around, region, from + 1)
        }
    }
}

/// A function: its label, its frame, and what it runs.
#[verifier::opaque]
pub open spec fn function(program: Parts, work: Work, id: FunctionId) -> Work {
    let declared = program.function(id);
    let layout = Layout::of(program, declared, id.0 == 0);
    let stage = Stage { program, layout, in_entry: id.0 == 0 };
    if layout.fits() {
        let bound = work.bind(Label(id.0 as usize));
        let opened = if layout.frame() > 0 {
            bound.emit(encode::open_frame(layout.frame() as u32))
        } else {
            bound
        };
        stage.region(opened, Around { branch: None, repeat: None }, declared.body, 0)
    } else {
        work.fail()
    }
}

/// The first `count` functions.
pub open spec fn functions(program: Parts, count: int) -> Work
    decreases count,
{
    if count <= 0 {
        Work {
            labels: Seq::new(program.functions.len(), |i: int| None::<nat>),
            ..Work::start()
        }
    } else {
        function(program, functions(program, count - 1), FunctionId((count - 1) as u32))
    }
}

/// What a program becomes, where this target has what it asks for.
pub open spec fn lowered(program: Parts) -> Option<(Seq<u8>, Seq<Reloc>)> {
    let work = functions(program, program.functions.len() as int);
    if program.functions.len() > u32::MAX || work.failed || work.labels.len() > usize::MAX
        || !work.closes() {
        None
    } else {
        Some((work.finished(), work.relocs))
    }
}

/// Code being written, with what the registers are known to hold.
#[derive(Debug)]
struct Writer {
    code: Encoder,
    labels: Vec<Option<usize>>,
    jumps: Vec<(usize, Label)>,
    relocs: Vec<Reloc>,
    known: Vec<Option<u64>>,
    failed: bool,
}

impl View for Writer {
    type V = Work;

    closed spec fn view(&self) -> Work {
        Work {
            code: self.code@,
            labels: self.labels@.map_values(
                |at: Option<usize>|
                    match at {
                        Some(at) => Some(at as nat),
                        None => None,
                    },
            ),
            jumps: self.jumps@.map_values(|jump: (usize, Label)| (jump.0 as nat, jump.1)),
            relocs: self.relocs@,
            known: self.known@,
            failed: self.failed,
        }
    }
}

impl Work {
    /// Tidy work, with the labels there were still there and nothing pointed
    /// at that is not.
    pub open spec fn follows(self, before: Work, program: Parts) -> bool {
        &&& self.tidy()
        &&& before.labels.len() <= self.labels.len()
        &&& self.aims(program)
    }

    /// Whether every datum pointed at is there.
    pub open spec fn aims(self, program: Parts) -> bool {
        forall|i: int|
            0 <= i < self.relocs.len() ==> (#[trigger] self.relocs[i]).data.0 < program.spans.len()
    }

    pub open spec fn good(self, program: Parts) -> bool {
        self.tidy() && self.aims(program)
    }
}

fn unknown() -> (known: Vec<Option<u64>>)
    ensures
        known@ == nothing_known(),
{
    let mut known: Vec<Option<u64>> = Vec::new();
    while known.len() < 16
        invariant
            known@.len() <= 16,
            forall|i: int| 0 <= i < known@.len() ==> #[trigger] known@[i] == None::<u64>,
        decreases 16 - known@.len(),
    {
        known.push(None);
    }
    assert(known@ =~= nothing_known());
    known
}

/// A word, as the signed number of the same 64 bits.
fn as_signed(value: u64) -> (narrow: i64)
    ensures
        narrow == signed(value),
{
    if value < 0x8000_0000_0000_0000 {
        value as i64
    } else {
        -((u64::MAX - value) as i64) - 1
    }
}

impl Writer {
    fn fail(&mut self)
        requires
            old(self)@.tidy(),
        ensures
            final(self)@.tidy(),
            final(self)@ == old(self)@.fail(),
    {
        self.failed = true;
        assert(self@ =~= old(self)@.fail());
    }

    fn label(&mut self) -> (label: Label)
        requires
            old(self)@.tidy(),
        ensures
            final(self)@.tidy(),
            final(self)@ == old(self)@.label(),
            label == old(self)@.next(),
            label.0 == old(self)@.labels.len(),
    {
        let label = Label(self.labels.len());
        self.labels.push(None);
        assert(self@ =~= old(self)@.label());
        label
    }

    fn bind(&mut self, label: Label)
        requires
            old(self)@.tidy(),
            label.0 < old(self)@.labels.len(),
        ensures
            final(self)@.tidy(),
            final(self)@ == old(self)@.bind(label),
    {
        let here: usize = self.code.here();
        self.labels.set(label.0, Some(here));
        self.known = unknown();
        assert(self@ =~= old(self)@.bind(label));
    }

    fn forget(&mut self)
        requires
            old(self)@.tidy(),
        ensures
            final(self)@.tidy(),
            final(self)@ == old(self)@.forget(),
    {
        self.known = unknown();
        assert(self@ =~= old(self)@.forget());
    }

    fn knowing(&mut self, reg: Reg, value: Option<u64>)
        requires
            old(self)@.tidy(),
        ensures
            final(self)@.tidy(),
            final(self)@ == old(self)@.knowing(reg, value),
    {
        self.known.set(reg.index(), value);
        assert(self@ =~= old(self)@.knowing(reg, value));
    }

    fn jump(&mut self, label: Label)
        requires
            old(self)@.tidy(),
        ensures
            final(self)@.tidy(),
            final(self)@ == old(self)@.jump(label),
    {
        proof {
            bytes::little_endian_length(0, 4);
        }
        let hole: usize = self.code.jump();
        self.jumps.push((hole, label));
        assert(self@ =~= old(self)@.jump(label));
    }

    fn jump_if(&mut self, cc: u8, label: Label)
        requires
            old(self)@.tidy(),
            cc < 16,
        ensures
            final(self)@.tidy(),
            final(self)@ == old(self)@.jump_if(cc, label),
    {
        proof {
            bytes::little_endian_length(0, 4);
        }
        let hole: usize = self.code.jump_if(cc);
        self.jumps.push((hole, label));
        assert(self@ =~= old(self)@.jump_if(cc, label));
    }

    fn call(&mut self, label: Label)
        requires
            old(self)@.tidy(),
        ensures
            final(self)@.tidy(),
            final(self)@ == old(self)@.call(label),
    {
        proof {
            bytes::little_endian_length(0, 4);
        }
        let hole: usize = self.code.call();
        self.jumps.push((hole, label));
        assert(self@ =~= old(self)@.call(label));
    }

    fn holding(&self, value: u64) -> (reg: Option<Reg>)
        requires
            self@.tidy(),
        ensures
            reg == holding(self@.known, value),
    {
        if self.known[0] == Some(value) {
            Some(Reg::Rax)
        } else if self.known[1] == Some(value) {
            Some(Reg::Rcx)
        } else if self.known[2] == Some(value) {
            Some(Reg::Rdx)
        } else if self.known[6] == Some(value) {
            Some(Reg::Rsi)
        } else if self.known[7] == Some(value) {
            Some(Reg::Rdi)
        } else if self.known[11] == Some(value) {
            Some(Reg::R11)
        } else {
            None
        }
    }

    fn load_const(&mut self, dst: Reg, value: u64)
        requires
            old(self)@.tidy(),
        ensures
            final(self)@.tidy(),
            final(self)@ == old(self)@.load_const(dst, value),
    {
        let away: i64 = as_signed(value);
        if self.known[dst.index()] == Some(value) {
            // Already there. Nothing to emit.
        } else if value == 0 {
            self.code.xor_self(dst);
        } else if let Some(src) = self.holding(value) {
            self.code.mov_reg(dst, src, value > u32::MAX as u64);
        } else if -128 <= away && away <= 127 {
            self.code.push_imm8(away as i8);
            self.code.pop(dst);
        } else if value <= u32::MAX as u64 {
            self.code.mov_imm32(dst, value as u32);
        } else if i32::MIN as i64 <= away && away <= i32::MAX as i64 {
            self.code.mov_sext_imm32(dst, away as i32);
        } else {
            self.code.mov_imm64(dst, value);
        }
        let ghost emitted = form(old(self)@.known, dst, value).code(dst);
        assert(self.code@ =~= old(self).code@ + emitted);
        self.known.set(dst.index(), Some(value));
        assert(self@ =~= old(self)@.load_const(dst, value));
    }

    fn load_addr(&mut self, dst: Reg, data: DataId)
        requires
            old(self)@.tidy(),
        ensures
            final(self)@.tidy(),
            final(self)@ == old(self)@.load_addr(dst, data),
    {
        proof {
            bytes::little_endian_length(0, 4);
        }
        let offset: usize = self.code.lea_rip(dst);
        self.relocs.push(Reloc { offset, data });
        self.known.set(dst.index(), None);
        assert(self@ =~= old(self)@.load_addr(dst, data));
    }

    fn load_slot(&mut self, dst: Reg, disp: u32)
        requires
            old(self)@.tidy(),
        ensures
            final(self)@.tidy(),
            final(self)@ == old(self)@.load_slot(dst, disp as nat),
    {
        self.code.load_slot(dst, disp);
        self.known.set(dst.index(), None);
        assert(self@ =~= old(self)@.load_slot(dst, disp as nat));
    }

    fn store_slot(&mut self, disp: u32)
        requires
            old(self)@.tidy(),
        ensures
            final(self)@.tidy(),
            final(self)@ == old(self)@.store_slot(disp as nat),
    {
        self.code.store_slot(Reg::Rax, disp);
        assert(self@ =~= old(self)@.store_slot(disp as nat));
    }

    fn alu(&mut self, opcode: u8, dst: Reg, src: Reg)
        requires
            old(self)@.tidy(),
        ensures
            final(self)@.tidy(),
            final(self)@ == old(self)@.alu(opcode, dst, src),
    {
        self.code.alu(opcode, dst, src);
        self.known.set(dst.index(), None);
        assert(self@ =~= old(self)@.alu(opcode, dst, src));
    }

    fn syscall(&mut self)
        requires
            old(self)@.tidy(),
        ensures
            final(self)@.tidy(),
            final(self)@ == old(self)@.syscall(),
    {
        self.code.syscall();
        self.known.set(0, None);
        self.known.set(1, None);
        self.known.set(11, None);
        assert(self@ =~= old(self)@.syscall());
    }

    fn narrow(&mut self, class: Class)
        requires
            old(self)@.tidy(),
        ensures
            final(self)@.tidy(),
            final(self)@ == old(self)@.narrow(class),
    {
        match class {
            Class::Fixed { bits } => if bits < 64 {
                let mask: u64 = wrap(class, u64::MAX);
                self.load_const(Reg::Rcx, mask);
                self.alu(0x21, Reg::Rax, Reg::Rcx);
            } else if bits > 64 {
                self.fail();
            },
            _ => {},
        }
    }
}

struct Lowering<'a> {
    program: &'a Program,
    plan: Plan,
    in_entry: bool,
}

impl View for Lowering<'_> {
    type V = Stage;

    closed spec fn view(&self) -> Stage {
        Stage { program: self.program@, layout: self.plan@, in_entry: self.in_entry }
    }
}

impl Lowering<'_> {
    closed spec fn ready(&self) -> bool {
        &&& self.program@.wf()
        &&& self.plan@.covers(self.program@)
        &&& self.plan@.fits()
    }

    fn slot(&self, index: u32) -> (at: u32)
        requires
            self.ready(),
            index < self@.layout.slots,
        ensures
            at == self@.layout.slot(index as nat),
    {
        8 * (self.plan.outgoing + index)
    }

    fn scratch(&self, index: u32) -> (at: u32)
        requires
            self.ready(),
            index < self@.layout.widest,
        ensures
            at == self@.layout.scratch(index as nat),
    {
        8 * (self.plan.outgoing + self.plan.slots + index)
    }

    /// Whether a word the caller has is not too far away.
    fn reaches(&self, index: u32) -> (reached: bool)
        requires
            self.ready(),
        ensures
            reached == (self@.passed(index as nat) is Some),
    {
        let words: u64 = self.plan.outgoing as u64 + self.plan.slots as u64
            + self.plan.widest as u64;
        words + 1 + index as u64 <= MOST_WORDS
    }

    fn passed(&self, index: u32) -> (at: u32)
        requires
            self.ready(),
            self@.passed(index as nat) is Some,
        ensures
            at == self@.layout.passed(index as nat),
    {
        8 * (self.plan.outgoing + self.plan.slots + self.plan.widest + 1 + index)
    }

    fn read(&self, out: &mut Writer, dst: Reg, value: ValueId)
        requires
            self.ready(),
            old(out)@.good(self@.program),
            self@.program.known(value),
        ensures
            final(out)@.follows(old(out)@, self@.program),
            final(out)@ == self@.read(old(out)@, dst, value),
    {
        match self.plan.source[value.index()] {
            Source::Const(word) => out.load_const(dst, word),
            Source::Addr(data) => {
                assert(self@.layout.source[value.0 as int] == Source::Addr(data));
                out.load_addr(dst, data);
            },
            Source::Slot(index) => {
                if index < self.plan.slots {
                    out.load_slot(dst, self.slot(index));
                } else {
                    out.fail();
                }
            },
            Source::Param(index) => {
                if self.reaches(index) {
                    out.load_slot(dst, self.passed(index));
                } else {
                    out.fail();
                }
            },
        }
    }

    fn keep(&self, out: &mut Writer, value: ValueId)
        requires
            self.ready(),
            old(out)@.good(self@.program),
            self@.program.known(value),
        ensures
            final(out)@.follows(old(out)@, self@.program),
            final(out)@ == self@.keep(old(out)@, value),
    {
        match self.plan.source[value.index()] {
            Source::Slot(index) => {
                if index < self.plan.slots {
                    out.store_slot(self.slot(index));
                    out.knowing(Reg::Rax, None);
                } else {
                    out.fail();
                }
            },
            _ => out.fail(),
        }
    }

    fn pair(&self, out: &mut Writer, left: ValueId, right: ValueId)
        requires
            self.ready(),
            old(out)@.good(self@.program),
            self@.program.known(left),
            self@.program.known(right),
        ensures
            final(out)@.follows(old(out)@, self@.program),
            final(out)@ == self@.pair(old(out)@, left, right),
    {
        self.read(out, Reg::Rax, left);
        self.read(out, Reg::Rcx, right);
    }

    fn stash(&self, out: &mut Writer, sources: Range)
        requires
            self.ready(),
            old(out)@.good(self@.program),
            sources.within(self@.program.operands.len()),
        ensures
            final(out)@.follows(old(out)@, self@.program),
            final(out)@ == self@.stash(old(out)@, self@.program.values(sources), 0),
    {
        let list = self.program.values(sources);
        proof {
            model::known_values(self@.program, sources);
        }
        let mut at: u32 = 0;
        while at < sources.len
            invariant
                self.ready(),
                list@ == self@.program.values(sources),
                list@.len() == sources.len,
                at <= sources.len,
                forall|i: int| 0 <= i < list@.len() ==> self@.program.known(#[trigger] list@[i]),
                out@.follows(old(out)@, self@.program),
                self@.stash(out@, list@, at as int) == self@.stash(old(out)@, list@, 0),
            decreases sources.len - at,
        {
            if at >= self.plan.widest {
                out.fail();
                return;
            }
            self.read(out, Reg::Rax, list[at as usize]);
            out.store_slot(self.scratch(at));
            at = at + 1;
        }
    }

    fn unstash(&self, out: &mut Writer, destinations: Range)
        requires
            self.ready(),
            old(out)@.good(self@.program),
            destinations.within(self@.program.operands.len()),
        ensures
            final(out)@.follows(old(out)@, self@.program),
            final(out)@ == self@.unstash(old(out)@, self@.program.values(destinations), 0),
    {
        let list = self.program.values(destinations);
        proof {
            model::known_values(self@.program, destinations);
        }
        let mut at: u32 = 0;
        while at < destinations.len
            invariant
                self.ready(),
                list@ == self@.program.values(destinations),
                list@.len() == destinations.len,
                at <= destinations.len,
                forall|i: int| 0 <= i < list@.len() ==> self@.program.known(#[trigger] list@[i]),
                out@.follows(old(out)@, self@.program),
                self@.unstash(out@, list@, at as int) == self@.unstash(old(out)@, list@, 0),
            decreases destinations.len - at,
        {
            if at >= self.plan.widest {
                out.fail();
                return;
            }
            out.load_slot(Reg::Rax, self.scratch(at));
            self.keep(out, list[at as usize]);
            at = at + 1;
        }
    }

    fn pass(&self, out: &mut Writer, args: Range)
        requires
            self.ready(),
            old(out)@.good(self@.program),
            args.within(self@.program.operands.len()),
        ensures
            final(out)@.follows(old(out)@, self@.program),
            final(out)@ == self@.pass(old(out)@, self@.program.values(args), 0),
    {
        let list = self.program.values(args);
        proof {
            model::known_values(self@.program, args);
        }
        let mut at: u32 = 0;
        while at < args.len
            invariant
                self.ready(),
                list@ == self@.program.values(args),
                list@.len() == args.len,
                at <= args.len,
                forall|i: int| 0 <= i < list@.len() ==> self@.program.known(#[trigger] list@[i]),
                out@.follows(old(out)@, self@.program),
                self@.pass(out@, list@, at as int) == self@.pass(old(out)@, list@, 0),
            decreases args.len - at,
        {
            if at >= self.plan.outgoing {
                out.fail();
                return;
            }
            self.read(out, Reg::Rax, list[at as usize]);
            out.store_slot(8 * at);
            at = at + 1;
        }
    }

    fn take(&self, out: &mut Writer, results: Range)
        requires
            self.ready(),
            old(out)@.good(self@.program),
            results.within(self@.program.operands.len()),
        ensures
            final(out)@.follows(old(out)@, self@.program),
            final(out)@ == self@.take(old(out)@, self@.program.values(results), 0),
    {
        let list = self.program.values(results);
        proof {
            model::known_values(self@.program, results);
        }
        let mut at: u32 = 0;
        while at < results.len
            invariant
                self.ready(),
                list@ == self@.program.values(results),
                list@.len() == results.len,
                at <= results.len,
                forall|i: int| 0 <= i < list@.len() ==> self@.program.known(#[trigger] list@[i]),
                out@.follows(old(out)@, self@.program),
                self@.take(out@, list@, at as int) == self@.take(old(out)@, list@, 0),
            decreases results.len - at,
        {
            if at >= self.plan.outgoing {
                out.fail();
                return;
            }
            out.load_slot(Reg::Rax, 8 * at);
            self.keep(out, list[at as usize]);
            at = at + 1;
        }
    }

    fn answer(&self, out: &mut Writer, count: u32)
        requires
            self.ready(),
            old(out)@.good(self@.program),
        ensures
            final(out)@.follows(old(out)@, self@.program),
            final(out)@ == self@.answer(old(out)@, count as nat, 0),
    {
        let mut at: u32 = 0;
        while at < count
            invariant
                self.ready(),
                at <= count,
                out@.follows(old(out)@, self@.program),
                self@.answer(out@, count as nat, at as int) == self@.answer(
                    old(out)@,
                    count as nat,
                    0,
                ),
            decreases count - at,
        {
            if at >= self.plan.widest || !self.reaches(at) {
                out.fail();
                return;
            }
            out.load_slot(Reg::Rax, self.scratch(at));
            out.store_slot(self.passed(at));
            at = at + 1;
        }
    }

    fn transfer(&self, out: &mut Writer, sources: Range, destinations: Range)
        requires
            self.ready(),
            old(out)@.good(self@.program),
            sources.within(self@.program.operands.len()),
            destinations.within(self@.program.operands.len()),
        ensures
            final(out)@.follows(old(out)@, self@.program),
            final(out)@ == self@.transfer(
                old(out)@,
                self@.program.values(sources),
                self@.program.values(destinations),
            ),
    {
        if sources.is_empty() {
            return;
        }
        self.stash(out, sources);
        self.unstash(out, destinations);
        out.forget();
    }

    fn call(&self, out: &mut Writer, function: FunctionId, args: Range, results: Range)
        requires
            self.ready(),
            old(out)@.good(self@.program),
            args.within(self@.program.operands.len()),
            results.within(self@.program.operands.len()),
        ensures
            final(out)@.follows(old(out)@, self@.program),
            final(out)@ == self@.call(
                old(out)@,
                function,
                self@.program.values(args),
                self@.program.values(results),
            ),
    {
        self.pass(out, args);
        out.call(Label(function.index()));
        out.forget();
        self.take(out, results);
    }

    fn load_at(&self, out: &mut Writer, width: Width, address: ValueId, offset: Offset, result: ValueId)
        requires
            self.ready(),
            old(out)@.good(self@.program),
            self@.program.known(address),
            self@.program.known(result),
        ensures
            final(out)@.follows(old(out)@, self@.program),
            final(out)@ == self@.load_at(old(out)@, width, address, offset, result),
    {
        self.read(out, Reg::Rcx, address);
        let ghost held = out@;
        match displacement(offset) {
            Some(disp) => {
                match width {
                    Width::Byte => {
                        out.code.load_byte(disp);
                        assert(out@ =~= held.emit(encode::load_byte(disp)));
                    },
                    Width::Word => {
                        out.code.load_word(disp);
                        assert(out@ =~= held.emit(encode::load_word(disp)));
                    },
                }
                self.keep(out, result);
            },
            None => out.fail(),
        }
    }

    fn store_at(&self, out: &mut Writer, width: Width, address: ValueId, offset: Offset, value: ValueId)
        requires
            self.ready(),
            old(out)@.good(self@.program),
            self@.program.known(address),
            self@.program.known(value),
        ensures
            final(out)@.follows(old(out)@, self@.program),
            final(out)@ == self@.store_at(old(out)@, width, address, offset, value),
    {
        self.pair(out, value, address);
        let ghost held = out@;
        match displacement(offset) {
            Some(disp) => match width {
                Width::Byte => {
                    out.code.store_byte(disp);
                    assert(out@ =~= held.emit(encode::store_byte(disp)));
                },
                Width::Word => {
                    out.code.store_word(disp);
                    assert(out@ =~= held.emit(encode::store_word(disp)));
                },
            },
            None => out.fail(),
        }
    }

    fn grow(&self, out: &mut Writer, size: ValueId, result: ValueId)
        requires
            self.ready(),
            old(out)@.good(self@.program),
            self@.program.known(size),
            self@.program.known(result),
        ensures
            final(out)@.follows(old(out)@, self@.program),
            final(out)@ == self@.grow(old(out)@, size, result),
    {
        out.load_const(Reg::Rax, SYS_BRK);
        out.load_const(Reg::Rdi, 0);
        out.syscall();
        self.keep(out, result);
        self.read(out, Reg::Rdi, size);
        out.alu(0x01, Reg::Rdi, Reg::Rax);
        out.load_const(Reg::Rax, SYS_BRK);
        out.syscall();
    }

    fn platform_call(&self, out: &mut Writer, platform: PlatformId, args: Range, results: Range)
        requires
            self.ready(),
            old(out)@.good(self@.program),
            platform.0 < self@.program.platform.len(),
            args.within(self@.program.operands.len()),
            results.within(self@.program.operands.len()),
        ensures
            final(out)@.follows(old(out)@, self@.program),
            final(out)@ == self@.platform_call(
                old(out)@,
                platform,
                self@.program.values(args),
                self@.program.values(results),
            ),
    {
        let list = self.program.values(args);
        proof {
            assert(self@.program.platform_fits(self@.program.platform[platform.0 as int]));
            model::known_values(self@.program, args);
            model::known_values(self@.program, results);
        }
        let name = self.program.name(self.program.platforms()[platform.index()].name);
        if same(name, "write") {
            if list.len() < 2 {
                out.fail();
            } else {
                // rax first, so stdout can be copied from it.
                out.load_const(Reg::Rax, SYS_WRITE);
                out.load_const(Reg::Rdi, STDOUT);
                self.read(out, Reg::Rsi, list[0]);
                self.read(out, Reg::Rdx, list[1]);
                out.syscall();
            }
        } else if same(name, "exit") {
            if list.len() < 1 {
                out.fail();
            } else {
                out.load_const(Reg::Rax, SYS_EXIT);
                self.read(out, Reg::Rdi, list[0]);
                out.syscall();
            }
        } else if same(name, "grow") {
            if list.len() < 1 || results.len() < 1 {
                out.fail();
            } else {
                let result = self.program.values(results)[0];
                self.grow(out, list[0], result);
            }
        } else {
            out.fail();
        }
    }

    fn simple(&self, out: &mut Writer, op: Op, results: Range)
        requires
            self.ready(),
            old(out)@.good(self@.program),
            self@.program.op_fits(op, results),
        ensures
            final(out)@.follows(old(out)@, self@.program),
            final(out)@ == self@.simple(old(out)@, op, self@.program.values(results)),
    {
        let list = self.program.values(results);
        proof {
            model::known_values(self@.program, results);
        }
        match op {
            Op::Binary { op, left, right } => {
                self.pair(out, left, right);
                match op {
                    Binary::Add => out.alu(0x01, Reg::Rax, Reg::Rcx),
                    Binary::Sub => out.alu(0x29, Reg::Rax, Reg::Rcx),
                }
                out.narrow(self.program.class(list[0]));
                self.keep(out, list[0]);
            },
            Op::Compare { relation, left, right } => {
                self.pair(out, left, right);
                let ghost held = out@;
                out.code.alu(0x39, Reg::Rax, Reg::Rcx);
                let ghost tested = out@;
                assert(tested =~= held.emit(encode::alu(0x39, Reg::Rax, Reg::Rcx)));
                let cc: u8 = match relation {
                    Relation::Equal => EQUAL,
                    Relation::Less => BELOW,
                };
                out.code.set_if(cc, Reg::Rax);
                assert(out@ =~= tested.emit(encode::set_if(cc, Reg::Rax)));
                self.keep(out, list[0]);
            },
            Op::Load { width, address, offset } => {
                self.load_at(out, width, address, offset, list[0]);
            },
            Op::Store { width, address, offset, value } => {
                self.store_at(out, width, address, offset, value);
            },
            Op::Convert { class, value } => {
                self.read(out, Reg::Rax, value);
                out.narrow(class);
                self.keep(out, list[0]);
            },
            Op::PlatformCall { platform, args } => {
                self.platform_call(out, platform, args, results);
            },
            Op::Call { function, args } => self.call(out, function, args, results),
            _ => {},
        }
    }

    fn leave(&self, out: &mut Writer, values: Range)
        requires
            self.ready(),
            old(out)@.good(self@.program),
            values.within(self@.program.operands.len()),
        ensures
            final(out)@.follows(old(out)@, self@.program),
            final(out)@ == self@.leave(old(out)@, self@.program.values(values)),
    {
        if self.in_entry {
            out.load_const(Reg::Rax, SYS_EXIT);
            if values.len() > 0 {
                proof {
                    model::known_values(self@.program, values);
                }
                let status = self.program.values(values)[0];
                self.read(out, Reg::Rdi, status);
            } else {
                out.load_const(Reg::Rdi, 0);
            }
            out.syscall();
        } else {
            self.stash(out, values);
            self.answer(out, values.len);
            let ghost answered = out@;
            let frame: u32 = 8 * (self.plan.outgoing + self.plan.slots + self.plan.widest);
            if frame > 0 {
                out.code.close_frame(frame);
                assert(out@ =~= answered.emit(encode::close_frame(frame)));
            }
            let ghost closed = out@;
            out.code.ret();
            assert(out@ =~= closed.emit(encode::ret()));
        }
    }

    fn terminator(&self, out: &mut Writer, around: Around, end: Terminator)
        requires
            self.ready(),
            old(out)@.good(self@.program),
            end.values.within(self@.program.operands.len()),
            around_fits(self@.program, around, old(out)@),
        ensures
            final(out)@.follows(old(out)@, self@.program),
            final(out)@ == self@.terminator(old(out)@, around, end),
    {
        match end.exit {
            Exit::Yield => match around.branch {
                Some((results, after)) => {
                    self.transfer(out, end.values, results);
                    out.jump(after);
                },
                None => out.fail(),
            },
            Exit::Continue => match around.repeat {
                Some((params, head, _, _)) => {
                    self.transfer(out, end.values, params);
                    out.jump(head);
                },
                None => out.fail(),
            },
            Exit::Break => match around.repeat {
                Some((_, _, results, after)) => {
                    self.transfer(out, end.values, results);
                    out.jump(after);
                },
                None => out.fail(),
            },
            Exit::Return => self.leave(out, end.values),
            Exit::Unreachable => {},
        }
    }

    fn region(&self, out: &mut Writer, around: Around, region: RegionId)
        requires
            self.ready(),
            old(out)@.good(self@.program),
            region.0 < self@.program.regions.len(),
            around_fits(self@.program, around, old(out)@),
        ensures
            final(out)@.follows(old(out)@, self@.program),
            final(out)@ == self@.region(old(out)@, around, region, 0),
        decreases self@.program.rank(region),
    {
        let run = self.program.region(region).ops;
        let mut at: u32 = 0;
        proof {
            assert(self@.program.region_fits(self@.program.regions[region.0 as int]));
        }
        while at < run.len
            invariant
                self.ready(),
                at <= run.len,
                region.0 < self@.program.regions.len(),
                run == self@.program.region(region).ops,
                run.within(self@.program.ops.len()),
                out@.follows(old(out)@, self@.program),
                around_fits(self@.program, around, out@),
                self@.region(out@, around, region, at as int) == self@.region(
                    old(out)@,
                    around,
                    region,
                    0,
                ),
            decreases run.len - at,
        {
            let (op, results) = self.program.step(region, at);
            let ghost inner = model::children(op);
            proof {
                model::inside(self@.program, region, at as int);
            }
            match op {
                Op::If { condition, then_region, else_region } => {
                    assert(inner[0] == then_region && inner[1] == else_region);
                    let otherwise = out.label();
                    let after = out.label();
                    self.read(out, Reg::Rax, condition);
                    let ghost held = out@;
                    out.code.alu(0x85, Reg::Rax, Reg::Rax);  // test rax, rax
                    assert(out@ =~= held.emit(encode::alu(0x85, Reg::Rax, Reg::Rax)));
                    out.jump_if(EQUAL, otherwise);
                    let within = Around { branch: Some((results, after)), repeat: around.repeat };
                    self.region(out, within, then_region);
                    out.bind(otherwise);
                    self.region(out, within, else_region);
                    out.bind(after);
                },
                Op::Loop { initial, body } => {
                    assert(inner[0] == body);
                    let head = out.label();
                    let after = out.label();
                    let params = self.program.region(body).params;
                    proof {
                        assert(self@.program.region_fits(
                            self@.program.regions[body.0 as int],
                        ));
                    }
                    self.transfer(out, initial, params);
                    out.bind(head);
                    let within = Around {
                        branch: around.branch,
                        repeat: Some((params, head, results, after)),
                    };
                    self.region(out, within, body);
                    out.bind(after);
                },
                _ => self.simple(out, op, results),
            }
            at = at + 1;
        }
        self.terminator(out, around, self.program.region(region).terminator);
    }
}

/// The distance an instruction adds, where it has room for it.
fn displacement(offset: Offset) -> (disp: Option<i32>)
    ensures
        disp is Some <==> reachable(offset),
        disp matches Some(found) ==> found == distance(offset),
{
    let count: i64 = match offset {
        Offset::Bytes(count) => count as i64,
        Offset::Words(count) => count as i64 * WORD,
    };
    if i32::MIN as i64 <= count && count <= i32::MAX as i64 {
        Some(count as i32)
    } else {
        None
    }
}

/// Whether what surrounds a region names values and labels that exist.
closed spec fn around_fits(program: Parts, around: Around, work: Work) -> bool {
    &&& around.branch matches Some((results, after)) ==> results.within(program.operands.len())
        && after.0 < work.labels.len()
    &&& around.repeat matches Some((params, head, results, after)) ==> params.within(
        program.operands.len(),
    ) && results.within(program.operands.len()) && head.0 < work.labels.len() && after.0
        < work.labels.len()
}

fn write_function(program: &Program, out: &mut Writer, id: FunctionId)
    requires
        program@.wf(),
        old(out)@.good(program@),
        id.0 < program@.functions.len(),
        program@.functions.len() <= old(out)@.labels.len(),
    ensures
        final(out)@.follows(old(out)@, program@),
        final(out)@ == function(program@, old(out)@, id),
{
    proof {
        reveal(function);
        assert(program@.function_fits(program@.functions[id.0 as int]));
    }
    let declared = program.functions()[id.index()];
    let plan = Plan::new(program, id);
    match plan.frame() {
        Some(frame) => {
            out.bind(Label(id.index()));
            let ghost bound = out@;
            if frame > 0 {
                out.code.open_frame(frame);
                assert(out@ =~= bound.emit(encode::open_frame(frame)));
            }
            let lowering = Lowering { program, plan, in_entry: id.0 == 0 };
            lowering.region(out, Around { branch: None, repeat: None }, declared.body);
        },
        None => out.fail(),
    }
}

/// Fill in the jumps of code, where every one has somewhere to go.
fn finish(out: Writer) -> (finished: Option<(Vec<u8>, Vec<Reloc>)>)
    requires
        out@.tidy(),
    ensures
        out@.labels.len() <= usize::MAX,
        finished is Some <==> out@.closes(),
        finished matches Some(done) ==> done.0@ == out@.finished() && done.1@ == out@.relocs,
        finished matches Some(done) ==> out@.resolved(done.0@),
{
    let ghost work = out@;
    let Writer { code, labels, jumps, relocs, known, failed } = out;
    let mut code = code;
    let count: usize = labels.len();
    let mut at: usize = 0;
    while at < jumps.len()
        invariant
            at <= jumps@.len(),
            count == labels@.len(),
            work == out@,
            work.tidy(),
            work.labels == labels@.map_values(
                |at: Option<usize>|
                    match at {
                        Some(at) => Some(at as nat),
                        None => None,
                    },
            ),
            work.jumps == jumps@.map_values(|jump: (usize, Label)| (jump.0 as nat, jump.1)),
            code@ == work.with_jumps(at as int),
            code@.len() == work.code.len(),
            forall|i: int| 0 <= i < at ==> work.lands(#[trigger] work.jumps[i]),
        decreases jumps@.len() - at,
    {
        let (hole, label) = jumps[at];
        assert(work.jumps[at as int] == (hole as nat, label));
        if label.0 >= count {
            return None;
        }
        match labels[label.0] {
            Some(target) => {
                if !code.patch(hole, target) {
                    return None;
                }
            },
            None => {
                return None;
            },
        }
        at = at + 1;
    }
    proof {
        every_jump_leads_to_its_label(work);
    }
    Some((code.finish(), relocs))
}

/// What a program becomes, or `None` where it asks for what this target does
/// not have.
pub fn attempt(program: &Program) -> (code: Option<Code>)
    requires
        program@.wf(),
    ensures
        match lowered(program@) {
            Some((bytes, relocs)) => code matches Some(found) && found.bytes@ == bytes
                && found.relocs@ == relocs,
            None => code is None,
        },
{
    let functions: usize = program.functions().len();
    if functions > u32::MAX as usize {
        return None;
    }
    let mut out = Writer {
        code: Encoder::default(),
        labels: Vec::new(),
        jumps: Vec::new(),
        relocs: Vec::new(),
        known: unknown(),
        failed: false,
    };
    while out.labels.len() < functions
        invariant
            out.labels@.len() <= functions,
            forall|i: int| 0 <= i < out.labels@.len() ==> #[trigger] out.labels@[i] == None::<usize>,
            out.code@ == Seq::<u8>::empty(),
            out.jumps@.len() == 0,
            out.relocs@.len() == 0,
            out.known@ == nothing_known(),
            !out.failed,
        decreases functions - out.labels@.len(),
    {
        out.labels.push(None);
    }
    assert(out@ =~= self::functions(program@, 0));
    let mut at: usize = 0;
    while at < functions
        invariant
            program@.wf(),
            functions == program@.functions.len(),
            functions <= u32::MAX,
            at <= functions,
            out@.good(program@),
            functions <= out@.labels.len(),
            out@ == self::functions(program@, at as int),
        decreases functions - at,
    {
        write_function(program, &mut out, FunctionId::at(at));
        at = at + 1;
    }
    if out.failed {
        return None;
    }
    match finish(out) {
        Some((bytes, relocs)) => Some(Code { bytes, relocs }),
        None => None,
    }
}

/// What a program becomes.
pub fn lower(program: &Program) -> (code: Code)
    requires
        program@.wf(),
        lowered(program@) is Some,
    ensures
        Some((code.bytes@, code.relocs@)) == lowered(program@),
{
    match attempt(program) {
        Some(code) => code,
        None => {
            assert(false);
            Code { bytes: Vec::new(), relocs: Vec::new() }
        },
    }
}

} // verus!
