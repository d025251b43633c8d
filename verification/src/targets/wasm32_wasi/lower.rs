//! `if` and `loop` are what wasm already has, so nothing is reconstructed.
//! A word is an `i32`; region parameters and results live in locals.
//!
//! - A transfer pushes every source before setting any destination, leaving
//!   the parallel move to wasm's operand stack.
//! - Returning from `_start` already exits zero, so a program ending in
//!   `exit 0` calls nothing and need not import `proc_exit`, which is most
//!   of an import section.

use super::module::as_signed;
use super::{Body, Code, Import, Layout, Placed, Segment, Written, CALL, DROP, END, I32_CONST};
use crate::ir::model;
use crate::ir::{
    wrap, Binary, Class, DataId, Exit, Function, Offset, Op, Origin, Parts, PlatformId,
    Program, Range, RegionId, Relation, Terminator, ValueId, Width,
};
use crate::targets::bytes;
use crate::targets::bytes::Bytes;
use crate::text::same;
use vstd::prelude::*;

verus! {

pub const STDOUT: i32 = 1;

/// Linear memory: the cell `fd_write` reports its byte count into, then the
/// vectors, four-byte aligned as WASI requires, then the data.
pub const NWRITTEN: i32 = 0;
pub const IOVECS: u32 = 8;
pub const IOVEC_LEN: u32 = 8;

pub const UNREACHABLE: u8 = 0x00;
pub const BLOCK: u8 = 0x02;
pub const LOOP: u8 = 0x03;
pub const IF: u8 = 0x04;
pub const ELSE: u8 = 0x05;
pub const BR: u8 = 0x0C;
pub const RETURN: u8 = 0x0F;
pub const LOCAL_GET: u8 = 0x20;
pub const LOCAL_SET: u8 = 0x21;
pub const I32_LOAD: u8 = 0x28;
pub const I32_LOAD8_U: u8 = 0x2D;
pub const I32_STORE: u8 = 0x36;
pub const I32_STORE8: u8 = 0x3A;
pub const I32_AND: u8 = 0x71;
pub const I32_SHL: u8 = 0x74;
pub const I32_SHR_U: u8 = 0x76;
pub const MEMORY_GROW: u8 = 0x40;
pub const I32_ADD: u8 = 0x6A;
pub const I32_SUB: u8 = 0x6B;
pub const I32_EQ: u8 = 0x46;
pub const I32_LT_U: u8 = 0x49;
pub const EMPTY: u8 = 0x40;

/// A word on this target, in bytes, and a page as a power of two.
pub const WORD: i64 = 4;
pub const PAGE_BITS: i32 = 16;

/// Where a value comes from when it is wanted.
#[derive(Clone, Copy, Debug, PartialEq, Eq, Structural)]
pub enum Source {
    Const(u64),
    Addr(DataId),
    Local(u32),
}

/// Where every value lives, and what the program asks of its surroundings.
#[verifier::ext_equal]
pub struct Places {
    pub source: Seq<Source>,
    /// How many locals the function at hand has so far.
    pub locals: nat,
    /// How many times something is written out.
    pub writes: nat,
    /// Whether the program stops by asking to.
    pub exits: bool,
    /// Whether it reaches into memory.
    pub touches: bool,
    /// Whether the function at hand returns from inside something.
    pub returns_inside: bool,
    /// Whether more was asked for than there is.
    pub failed: bool,
}

impl Places {
    /// Nothing placed yet, of `count` values.
    pub open spec fn start(count: nat) -> Places {
        Places {
            source: Seq::new(count, |i: int| Source::Local(0)),
            locals: 0,
            writes: 0,
            exits: false,
            touches: false,
            returns_inside: false,
            failed: false,
        }
    }

    pub open spec fn put(self, value: ValueId, source: Source) -> Places {
        Places { source: self.source.update(value.0 as int, source), ..self }
    }

    /// The next local is `value`'s.
    pub open spec fn give_local(self, value: ValueId) -> Places {
        if self.locals >= u32::MAX {
            Places { failed: true, ..self }
        } else {
            Places { locals: self.locals + 1, ..self.put(value, Source::Local(self.locals as u32)) }
        }
    }

    /// A local for each of `values`, in order, from the one at `from` on.
    pub open spec fn give_locals(self, values: Seq<ValueId>, from: int) -> Places
        decreases values.len() - from,
    {
        if from < 0 || from >= values.len() {
            self
        } else {
            self.give_local(values[from]).give_locals(values, from + 1)
        }
    }

    /// What an instruction defines, and what it needs around it.
    pub open spec fn place(self, program: Parts, op: Op, results: Seq<ValueId>) -> Places {
        match op {
            Op::Constant { value, .. } => self.put(results[0], Source::Const(value)),
            Op::AddressOf(data) => self.put(results[0], Source::Addr(data)),
            Op::Load { .. } => Places { touches: true, ..self.give_locals(results, 0) },
            Op::Store { .. } => Places { touches: true, ..self.give_locals(results, 0) },
            Op::PlatformCall { platform, .. } => {
                let name = program.name(program.routine(platform).name);
                let placed = self.give_locals(results, 0);
                if name == "write"@ {
                    if placed.writes >= 0x1000_0000 {
                        Places { failed: true, ..placed }
                    } else {
                        Places { writes: placed.writes + 1, ..placed }
                    }
                } else if name == "exit"@ {
                    Places { exits: true, ..placed }
                } else if name == "grow"@ {
                    Places { touches: true, ..placed }
                } else {
                    placed
                }
            },
            _ => self.give_locals(results, 0),
        }
    }

    /// A region's instructions from `from` on, each with the regions inside
    /// it.
    pub open spec fn walk(self, program: Parts, region: RegionId, from: int) -> Places
        decreases program.rank(region), program.region_ops(region).len() - from,
    {
        let ops = program.region_ops(region);
        if from < 0 || from >= ops.len() {
            if program.region(region).terminator.exit == Exit::Return && !program.is_body(region) {
                Places { returns_inside: true, ..self }
            } else {
                self
            }
        } else {
            let results = program.values(program.region_results(region)[from]);
            let placed = self.place(program, ops[from], results);
            let walked = match ops[from] {
                Op::If { then_region, else_region, .. } => if program.nests(region, then_region)
                    && program.nests(region, else_region) {
                    placed.enter(program, then_region).walk(program, then_region, 0).enter(
                        program,
                        else_region,
                    ).walk(program, else_region, 0)
                } else {
                    placed
                },
                Op::Loop { body, .. } => if program.nests(region, body) {
                    placed.enter(program, body).walk(program, body, 0)
                } else {
                    placed
                },
                _ => placed,
            };
            walked.walk(program, region, from + 1)
        }
    }

    /// A region's parameters are locals like the rest.
    pub open spec fn enter(self, program: Parts, region: RegionId) -> Places {
        self.give_locals(program.values(program.region(region).params), 0)
    }

    /// One function: locals restart, its parameters first.
    pub open spec fn function(self, program: Parts, function: Function) -> Places {
        Places { locals: 0, returns_inside: false, ..self }.give_locals(
            program.values(function.params),
            0,
        ).walk(program, function.body, 0)
    }

    /// The first `count` functions.
    pub open spec fn functions(program: Parts, count: int) -> Places
        decreases count,
    {
        if count <= 0 {
            Places::start(program.classes.len())
        } else {
            Places::functions(program, count - 1).function(program, program.functions[count - 1])
        }
    }
}

/// What is known of where things live, with locals counted as they are given.
#[derive(Debug)]
struct Plan {
    source: Vec<Source>,
    locals: u32,
    writes: u32,
    exits: bool,
    touches: bool,
    returns_inside: bool,
    failed: bool,
}

impl View for Plan {
    type V = Places;

    closed spec fn view(&self) -> Places {
        Places {
            source: self.source@,
            locals: self.locals as nat,
            writes: self.writes as nat,
            exits: self.exits,
            touches: self.touches,
            returns_inside: self.returns_inside,
            failed: self.failed,
        }
    }
}

impl Plan {
    /// Room for every value of a program, and nothing placed that is not
    /// there.
    closed spec fn covers(&self, program: Parts) -> bool {
        &&& self.source@.len() == program.classes.len()
        &&& self.writes <= 0x1000_0000
        &&& forall|v: int|
            0 <= v < self.source@.len() ==> (#[trigger] self.source@[v] matches Source::Addr(data)
                ==> data.0 < program.spans.len())
    }

    /// Nothing placed yet.
    fn new(program: &Program) -> (plan: Self)
        ensures
            plan.covers(program@),
            plan@ == Places::start(program@.classes.len()),
    {
        let mut source: Vec<Source> = Vec::new();
        while source.len() < program.values_count()
            invariant
                source@.len() <= program@.classes.len(),
                forall|v: int| 0 <= v < source@.len() ==> #[trigger] source@[v] == Source::Local(0),
            decreases program@.classes.len() - source@.len(),
        {
            source.push(Source::Local(0));
        }
        let plan = Plan {
            source,
            locals: 0,
            writes: 0,
            exits: false,
            touches: false,
            returns_inside: false,
            failed: false,
        };
        assert(plan@ =~= Places::start(program@.classes.len()));
        plan
    }

    fn give_local(&mut self, program: &Program, value: ValueId)
        requires
            old(self).covers(program@),
            program@.known(value),
        ensures
            final(self).covers(program@),
            final(self)@ == old(self)@.give_local(value),
    {
        if self.locals == u32::MAX {
            self.failed = true;
        } else {
            self.source.set(value.index(), Source::Local(self.locals));
            self.locals = self.locals + 1;
        }
    }

    fn give_locals(&mut self, program: &Program, values: &[ValueId])
        requires
            old(self).covers(program@),
            forall|i: int| 0 <= i < values@.len() ==> program@.known(#[trigger] values@[i]),
        ensures
            final(self).covers(program@),
            final(self)@ == old(self)@.give_locals(values@, 0),
    {
        let mut at: usize = 0;
        while at < values.len()
            invariant
                at <= values@.len(),
                self.covers(program@),
                forall|i: int| 0 <= i < values@.len() ==> program@.known(#[trigger] values@[i]),
                self@.give_locals(values@, at as int) == old(self)@.give_locals(values@, 0),
            decreases values@.len() - at,
        {
            self.give_local(program, values[at]);
            at = at + 1;
        }
    }

    fn place(&mut self, program: &Program, op: Op, results: Range)
        requires
            old(self).covers(program@),
            program@.wf(),
            program@.op_fits(op, results),
        ensures
            final(self).covers(program@),
            final(self)@ == old(self)@.place(program@, op, program@.values(results)),
    {
        let values = program.values(results);
        proof {
            model::known_values(program@, results);
        }
        match op {
            Op::Constant { value, .. } => {
                self.source.set(values[0].index(), Source::Const(value));
            },
            Op::AddressOf(data) => {
                self.source.set(values[0].index(), Source::Addr(data));
            },
            Op::Load { .. } => {
                self.give_locals(program, values);
                self.touches = true;
            },
            Op::Store { .. } => {
                self.give_locals(program, values);
                self.touches = true;
            },
            Op::PlatformCall { platform, .. } => {
                assert(program@.platform_fits(program@.platform[platform.0 as int]));
                let name = program.name(program.platforms()[platform.index()].name);
                self.give_locals(program, values);
                if same(name, "write") {
                    if self.writes >= 0x1000_0000 {
                        self.failed = true;
                    } else {
                        self.writes = self.writes + 1;
                    }
                } else if same(name, "exit") {
                    self.exits = true;
                } else if same(name, "grow") {
                    self.touches = true;
                }
            },
            _ => self.give_locals(program, values),
        }
    }

    fn enter(&mut self, program: &Program, region: RegionId)
        requires
            old(self).covers(program@),
            program@.wf(),
            region.0 < program@.regions.len(),
        ensures
            final(self).covers(program@),
            final(self)@ == old(self)@.enter(program@, region),
    {
        let params = program.region(region).params;
        proof {
            assert(program@.region_fits(program@.regions[region.0 as int]));
            model::known_values(program@, params);
        }
        self.give_locals(program, program.values(params));
    }

    fn walk(&mut self, program: &Program, region: RegionId, body: bool)
        requires
            old(self).covers(program@),
            program@.wf(),
            region.0 < program@.regions.len(),
            body == program@.is_body(region),
        ensures
            final(self).covers(program@),
            final(self)@ == old(self)@.walk(program@, region, 0),
        decreases program@.rank(region),
    {
        let run = program.region(region).ops;
        let mut at: u32 = 0;
        proof {
            assert(program@.region_fits(program@.regions[region.0 as int]));
        }
        while at < run.len
            invariant
                at <= run.len,
                run == program@.region(region).ops,
                run.within(program@.ops.len()),
                program@.wf(),
                region.0 < program@.regions.len(),
                self.covers(program@),
                self@.walk(program@, region, at as int) == old(self)@.walk(program@, region, 0),
            decreases run.len - at,
        {
            let (op, results) = program.step(region, at);
            let ghost inner = model::children(op);
            proof {
                model::inside(program@, region, at as int);
            }
            self.place(program, op, results);
            match op {
                Op::If { then_region, else_region, .. } => {
                    assert(inner[0] == then_region && inner[1] == else_region);
                    self.enter(program, then_region);
                    self.walk(program, then_region, false);
                    self.enter(program, else_region);
                    self.walk(program, else_region, false);
                },
                Op::Loop { body, .. } => {
                    assert(inner[0] == body);
                    self.enter(program, body);
                    self.walk(program, body, false);
                },
                _ => {},
            }
            at = at + 1;
        }
        if program.region(region).terminator.exit == Exit::Return && !body {
            self.returns_inside = true;
        }
    }

    fn function(&mut self, program: &Program, function: Function)
        requires
            old(self).covers(program@),
            program@.wf(),
            program@.functions.contains(function),
        ensures
            final(self).covers(program@),
            final(self)@ == old(self)@.function(program@, function),
    {
        self.locals = 0;
        self.returns_inside = false;
        proof {
            let f = program@.functions.index_of(function);
            assert(program@.function_fits(program@.functions[f]));
            model::known_values(program@, function.params);
        }
        self.give_locals(program, program.values(function.params));
        self.walk(program, function.body, true);
    }
}

/// What has been written so far.
#[verifier::ext_equal]
pub struct Emitted {
    pub body: Seq<u8>,
    /// Each call's vector, where its contents were known.
    pub iovecs: Seq<Option<(u32, u32)>>,
    /// Whether something came up that this target does not have.
    pub failed: bool,
}

impl Emitted {
    pub open spec fn emit(self, code: Seq<u8>) -> Emitted {
        Emitted { body: self.body + code, ..self }
    }

    pub open spec fn fail(self) -> Emitted {
        Emitted { failed: true, ..self }
    }
}

/// The two labels a terminator can branch to: the `loop` to go round
/// again, the `block` around it to leave.
#[derive(Clone, Copy, Debug, PartialEq, Eq, Structural)]
pub struct LoopFrame {
    pub params: Range,
    pub again: u32,
    pub results: Range,
    pub exit: u32,
}

/// What a region stands in.
#[derive(Clone, Copy, Debug, PartialEq, Eq, Structural)]
pub struct Around {
    /// How many labels enclose the instruction being emitted.
    pub depth: u32,
    /// What the nearest `if` leaves with.
    pub yields: Option<Range>,
    pub frame: Option<LoopFrame>,
}

/// A program whose values have been placed, and the function at hand.
#[verifier::ext_equal]
pub struct Setting {
    pub program: Parts,
    pub places: Places,
    /// Whether `proc_exit` is imported.
    pub exits: bool,
    pub in_entry: bool,
}

/// `i32.const`.
pub open spec fn i32_const(value: int) -> Seq<u8> {
    seq![I32_CONST] + bytes::signed_leb(value)
}

/// An instruction that takes one unsigned operand.
pub open spec fn indexed(opcode: u8, index: nat) -> Seq<u8> {
    seq![opcode] + bytes::unsigned_leb(index)
}

/// How many bytes an offset comes to.
pub open spec fn distance(offset: Offset) -> int {
    match offset {
        Offset::Bytes(count) => count as int,
        Offset::Words(count) => count * WORD,
    }
}

impl Setting {
    /// Where the program's data starts: past the vectors.
    pub open spec fn data_start(self) -> nat {
        (IOVECS + IOVEC_LEN * self.places.writes) as nat
    }

    pub open spec fn address(self, data: DataId) -> nat {
        let span = self.program.datum(data);
        match span.origin {
            Origin::Data => self.data_start() + span.start as nat,
            Origin::Globals => self.data_start() + self.program.data.len() + span.start as nat,
        }
    }

    /// The word a value is, where that is known before the program runs.
    pub open spec fn constant(self, value: ValueId) -> Option<nat> {
        match self.places.source[value.0 as int] {
            Source::Const(word) => Some(word as nat),
            Source::Addr(data) => Some(self.address(data)),
            Source::Local(_) => None,
        }
    }

    /// The index of `proc_exit`, where it is imported.
    pub open spec fn proc_exit(self) -> nat {
        if self.places.writes > 0 {
            1
        } else {
            0
        }
    }

    /// Imports come first in the index space.
    pub open spec fn imports(self) -> Seq<Import> {
        let write = if self.places.writes > 0 {
            seq![Import::FdWrite]
        } else {
            seq![]
        };
        if self.exits {
            write.push(Import::ProcExit)
        } else {
            write
        }
    }

    pub open spec fn push(self, out: Emitted, value: ValueId) -> Emitted {
        match self.places.source[value.0 as int] {
            Source::Local(index) => out.emit(indexed(LOCAL_GET, index as nat)),
            _ => {
                let word = self.constant(value)->0;
                if word <= u32::MAX {
                    out.emit(i32_const(super::module::signed(word as u32)))
                } else {
                    out.fail()
                }
            },
        }
    }

    /// Only what is computed has a local to be set.
    pub open spec fn set(self, out: Emitted, value: ValueId) -> Emitted {
        match self.places.source[value.0 as int] {
            Source::Local(index) => out.emit(indexed(LOCAL_SET, index as nat)),
            _ => out.fail(),
        }
    }

    pub open spec fn push_all(self, out: Emitted, values: Seq<ValueId>, from: int) -> Emitted
        decreases values.len() - from,
    {
        if from < 0 || from >= values.len() {
            out
        } else {
            self.push_all(self.push(out, values[from]), values, from + 1)
        }
    }

    /// The last of the first `count` first, as the operand stack has them.
    pub open spec fn set_all(self, out: Emitted, values: Seq<ValueId>, count: int) -> Emitted
        decreases count,
    {
        if count <= 0 || count > values.len() {
            out
        } else {
            self.set_all(self.set(out, values[count - 1]), values, count - 1)
        }
    }

    /// Hand `sources` over as `destinations`. Every source is pushed before
    /// any destination is set, so wasm's operand stack does the swapping.
    pub open spec fn transfer(self, out: Emitted, sources: Seq<ValueId>, destinations: Seq<ValueId>)
        -> Emitted {
        self.set_all(
            self.push_all(out, sources, 0),
            destinations,
            destinations.len() as int,
        )
    }

    /// Back to the width of a class that is narrower than a word.
    pub open spec fn narrow(self, out: Emitted, class: Class) -> Emitted {
        match class {
            Class::Fixed { bits } => if bits < 32 {
                out.emit(i32_const(model::wrapped(class, u64::MAX) as int) + seq![I32_AND])
            } else if bits == 32 {
                out
            } else {
                out.fail()
            },
            _ => out,
        }
    }

    /// The opcode for the width, then its alignment as a power of two and
    /// the constant part of its address.
    pub open spec fn access(self, out: Emitted, width: Width, offset: Offset, byte: u8, word: u8)
        -> Emitted {
        let at = distance(offset);
        if 0 <= at <= u32::MAX {
            match width {
                Width::Byte => out.emit(
                    indexed(byte, 0) + bytes::unsigned_leb(at as nat),
                ),
                Width::Word => out.emit(
                    indexed(word, 2) + bytes::unsigned_leb(at as nat),
                ),
            }
        } else {
            out.fail()
        }
    }

    /// A word stored at a known address.
    pub open spec fn store(self, out: Emitted, address: u32, value: ValueId) -> Emitted {
        self.push(out.emit(i32_const(super::module::signed(address))), value).emit(
            indexed(I32_STORE, 2) + bytes::unsigned_leb(0),
        )
    }

    pub open spec fn opcode(op: Binary) -> u8 {
        match op {
            Binary::Add => I32_ADD,
            Binary::Sub => I32_SUB,
        }
    }

    pub open spec fn relation(relation: Relation) -> u8 {
        match relation {
            Relation::Equal => I32_EQ,
            Relation::Less => I32_LT_U,
        }
    }

    /// Write bytes out. Where both are known the vector ships as initialised
    /// data; if not, the call fills it in for itself.
    pub open spec fn write(self, out: Emitted, args: Seq<ValueId>) -> Emitted {
        let index = out.iovecs.len();
        if args.len() < 2 || index >= self.places.writes {
            out.fail()
        } else {
            let iovec = (IOVECS + IOVEC_LEN * index) as u32;
            let filled = match (self.constant(args[0]), self.constant(args[1])) {
                (Some(base), Some(length)) => if base <= u32::MAX && length <= u32::MAX {
                    Emitted {
                        iovecs: out.iovecs.push(Some((base as u32, length as u32))),
                        ..out
                    }
                } else {
                    out.fail()
                },
                _ => self.store(
                    self.store(
                        Emitted { iovecs: out.iovecs.push(None), ..out },
                        iovec,
                        args[0],
                    ),
                    (iovec + 4) as u32,
                    args[1],
                ),
            };
            filled.emit(
                i32_const(STDOUT as int) + i32_const(super::module::signed(iovec)) + i32_const(1)
                    + i32_const(NWRITTEN as int) + indexed(CALL, 0) + seq![DROP],
            )
        }
    }

    /// Linear memory only grows in pages, and `memory.grow` answers with the
    /// old size, so the new region starts where it ended.
    pub open spec fn grow(self, out: Emitted, args: Seq<ValueId>, results: Seq<ValueId>) -> Emitted {
        if args.len() < 1 || results.len() < 1 {
            out.fail()
        } else {
            self.set(
                self.push(out, args[0]).emit(
                    i32_const(0xFFFF) + seq![I32_ADD] + i32_const(PAGE_BITS as int) + seq![I32_SHR_U]
                        + indexed(MEMORY_GROW, 0) + i32_const(PAGE_BITS as int) + seq![I32_SHL],
                ),
                results[0],
            )
        }
    }

    pub open spec fn platform_call(
        self,
        out: Emitted,
        platform: PlatformId,
        args: Seq<ValueId>,
        results: Seq<ValueId>,
    ) -> Emitted {
        let name = self.program.name(self.program.routine(platform).name);
        if name == "write"@ {
            self.write(out, args)
        } else if name == "exit"@ {
            if args.len() < 1 {
                out.fail()
            } else if self.exits {
                self.push(out, args[0]).emit(indexed(CALL, self.proc_exit()))
            } else {
                out
            }
        } else if name == "grow"@ {
            self.grow(out, args, results)
        } else {
            out.fail()
        }
    }

    /// An instruction that holds no regions.
    pub open spec fn simple(self, out: Emitted, op: Op, results: Seq<ValueId>) -> Emitted {
        match op {
            Op::Binary { op, left, right } => self.set(
                self.narrow(
                    self.push(self.push(out, left), right).emit(seq![Self::opcode(op)]),
                    self.program.class(results[0]),
                ),
                results[0],
            ),
            Op::Compare { relation, left, right } => self.set(
                self.push(self.push(out, left), right).emit(seq![Self::relation(relation)]),
                results[0],
            ),
            Op::Load { width, address, offset } => self.set(
                self.access(self.push(out, address), width, offset, I32_LOAD8_U, I32_LOAD),
                results[0],
            ),
            Op::Store { width, address, offset, value } => self.access(
                self.push(self.push(out, address), value),
                width,
                offset,
                I32_STORE8,
                I32_STORE,
            ),
            Op::Convert { class, value } => self.set(
                self.narrow(self.push(out, value), class),
                results[0],
            ),
            Op::PlatformCall { platform, args } => self.platform_call(
                out,
                platform,
                self.program.values(args),
                results,
            ),
            Op::Call { function, args } => if self.imports().len() + function.0 <= u32::MAX {
                self.set_all(
                    self.push_all(out, self.program.values(args), 0).emit(
                        indexed(CALL, self.imports().len() + function.0 as nat),
                    ),
                    results,
                    results.len() as int,
                )
            } else {
                out.fail()
            },
            _ => out,
        }
    }

    /// `br` counts labels outwards from the innermost, which is why the
    /// depth a label was opened at is what gets remembered.
    pub open spec fn branch(self, out: Emitted, around: Around, label: u32) -> Emitted {
        if label < around.depth {
            out.emit(indexed(BR, (around.depth - 1 - label) as nat))
        } else {
            out.fail()
        }
    }

    pub open spec fn terminator(self, out: Emitted, around: Around, end: Terminator) -> Emitted {
        let values = self.program.values(end.values);
        match end.exit {
            // The `end` that closes the if is the branch.
            Exit::Yield => match around.yields {
                Some(results) => self.transfer(out, values, self.program.values(results)),
                None => out.fail(),
            },
            Exit::Continue => match around.frame {
                Some(frame) => self.branch(
                    self.transfer(out, values, self.program.values(frame.params)),
                    around,
                    frame.again,
                ),
                None => out.fail(),
            },
            Exit::Break => match around.frame {
                Some(frame) => self.branch(
                    self.transfer(out, values, self.program.values(frame.results)),
                    around,
                    frame.exit,
                ),
                None => out.fail(),
            },
            // `_start` returns nothing of its own: WASI takes the status
            // through `proc_exit`, and falling off the end means success.
            Exit::Return => if !self.in_entry {
                self.push_all(out, values, 0).emit(seq![RETURN])
            } else if self.exits {
                self.push_all(out, values, 0).emit(indexed(CALL, self.proc_exit()))
            } else {
                out
            },
            Exit::Unreachable => if around.depth > 0 {
                out.emit(seq![UNREACHABLE])
            } else {
                out
            },
        }
    }

    /// Inside one of the regions of an `if`.
    pub open spec fn inside_if(around: Around, results: Range) -> Around {
        Around { depth: (around.depth + 1) as u32, yields: Some(results), ..around }
    }

    /// Inside a `loop` that stands in a `block`.
    pub open spec fn inside_loop(around: Around, params: Range, results: Range) -> Around {
        Around {
            depth: (around.depth + 2) as u32,
            frame: Some(
                LoopFrame {
                    params,
                    again: (around.depth + 1) as u32,
                    results,
                    exit: around.depth,
                },
            ),
            ..around
        }
    }

    /// A region's instructions from `from` on, and how it ends.
    pub open spec fn region(self, out: Emitted, around: Around, region: RegionId, from: int)
        -> Emitted
        decreases self.program.rank(region), self.program.region_ops(region).len() - from,
    {
        let ops = self.program.region_ops(region);
        if from < 0 || from >= ops.len() {
            self.terminator(out, around, self.program.region(region).terminator)
        } else {
            let results = self.program.region_results(region)[from];
            let next = match ops[from] {
                Op::If { condition, then_region, else_region } => if self.program.nests(
                    region,
                    then_region,
                ) && self.program.nests(region, else_region) && around.depth < u32::MAX {
                    let within = Self::inside_if(around, results);
                    let opened = self.push(out, condition).emit(seq![IF, EMPTY]);
                    let then = self.region(opened, within, then_region, 0);
                    self.region(then.emit(seq![ELSE]), within, else_region, 0).emit(seq![END])
                } else {
                    out.fail()
                },
                Op::Loop { initial, body } => if self.program.nests(region, body) && around.depth
                    < u32::MAX - 1 {
                    let params = self.program.region(body).params;
                    let entered = self.transfer(
                        out,
                        self.program.values(initial),
                        self.program.values(params),
                    );
                    self.region(
                        entered.emit(seq![BLOCK, EMPTY, LOOP, EMPTY]),
                        Self::inside_loop(around, params, results),
                        body,
                        0,
                    ).emit(seq![END, END])
                } else {
                    out.fail()
                },
                op => self.simple(out, op, self.program.values(results)),
            };
            self.region(next, around, region, from + 1)
        }
    }

    /// What a function runs, with nothing around it.
    pub open spec fn function(self, out: Emitted, function: Function) -> Emitted {
        self.region(
            Emitted { body: seq![], ..out },
            Around { depth: 0, yields: None, frame: None },
            function.body,
            0,
        )
    }
}

/// The setting for a function of a program.
pub open spec fn setting(program: Parts, in_entry: bool) -> Setting {
    let places = Places::functions(program, program.functions.len() as int);
    let ungated = Setting { program, places, exits: false, in_entry };
    Setting { exits: ungated.needs_proc_exit(), ..ungated }
}

impl Setting {
    /// Falling off the end of `_start` already means success, so an entry
    /// returning a constant zero costs nothing and needs no import. One that
    /// returns from inside something has to leave some other way.
    pub open spec fn needs_proc_exit(self) -> bool {
        let end = self.program.region(self.program.functions[0].body).terminator;
        let values = self.program.values(end.values);
        ||| self.places.exits
        ||| Places::functions(self.program, 1).returns_inside
        ||| end.exit != Exit::Return
        ||| values.len() > 0 && self.constant(values[0]) != Some(0nat)
    }
}

/// The first `count` functions, and what is written by then.
pub open spec fn functions(program: Parts, count: int) -> (Seq<Written>, Emitted)
    decreases count,
{
    if count <= 0 {
        (seq![], Emitted { body: seq![], iovecs: seq![], failed: false })
    } else {
        let before = functions(program, count - 1);
        let function = program.functions[count - 1];
        let out = setting(program, count == 1).function(before.1, function);
        let locals = Places::functions(program, count).locals;
        let body = Written {
            params: function.params.len,
            locals: if locals > function.params.len {
                (locals - function.params.len) as u32
            } else {
                0
            },
            answers: if count == 1 {
                0
            } else {
                function.answers.len
            },
            code: out.body,
        };
        (before.0.push(body), out)
    }
}

/// The first `count` vectors. A call whose arguments were not constant fills
/// its own.
pub open spec fn vectors(iovecs: Seq<Option<(u32, u32)>>, count: int) -> Seq<u8>
    decreases count,
{
    if count <= 0 {
        seq![]
    } else {
        let (base, length) = match iovecs[count - 1] {
            Some(known) => known,
            None => (0, 0),
        };
        vectors(iovecs, count - 1) + bytes::little_endian(base as nat, 4) + bytes::little_endian(
            length as nat,
            4,
        )
    }
}

/// Whether there is anything in a run of bytes but zeros, which memory holds
/// to begin with.
pub open spec fn all_zero(run: Seq<u8>) -> bool {
    forall|i: int| 0 <= i < run.len() ==> #[trigger] run[i] == 0
}

/// What memory starts out with: the vectors, the data, the globals, each
/// where there is something to say.
pub open spec fn segments(
    program: Parts,
    iovecs: Seq<Option<(u32, u32)>>,
    data_start: nat,
) -> Seq<Placed> {
    let known = vectors(iovecs, iovecs.len() as int);
    let first = if all_zero(known) {
        seq![]
    } else {
        seq![Placed { offset: IOVECS, bytes: known }]
    };
    let second = if program.data.len() == 0 {
        first
    } else {
        first.push(Placed { offset: data_start as u32, bytes: program.data })
    };
    if program.globals.len() == 0 {
        second
    } else {
        second.push(
            Placed {
                offset: (data_start + program.data.len()) as u32,
                bytes: program.globals,
            },
        )
    }
}

/// What a program becomes, where this target has what it asks for.
pub open spec fn lowered(program: Parts) -> Option<Layout> {
    let whole = setting(program, true);
    let (bodies, out) = functions(program, program.functions.len() as int);
    if program.data.len() > u32::MAX || program.globals.len() > u32::MAX || whole.places.failed
        || out.failed || whole.data_start() + program.data.len() > u32::MAX {
        None
    } else {
        let data = segments(program, out.iovecs, whole.data_start());
        Some(
            Layout {
                bodies,
                entry: 0,
                data,
                imports: whole.imports(),
                memory: whole.imports().len() > 0 || data.len() > 0 || whole.places.touches,
            },
        )
    }
}

#[derive(Debug)]
struct Out {
    body: Bytes,
    iovecs: Vec<Option<(u32, u32)>>,
    failed: bool,
}

impl View for Out {
    type V = Emitted;

    closed spec fn view(&self) -> Emitted {
        Emitted { body: self.body@, iovecs: self.iovecs@, failed: self.failed }
    }
}

impl Out {
    fn byte(&mut self, byte: u8)
        ensures
            final(self)@ == old(self)@.emit(seq![byte]),
    {
        self.body.byte(byte);
        assert(self@ =~= old(self)@.emit(seq![byte]));
    }

    fn pair(&mut self, first: u8, second: u8)
        ensures
            final(self)@ == old(self)@.emit(seq![first, second]),
    {
        self.body.byte(first);
        self.body.byte(second);
        assert(self@ =~= old(self)@.emit(seq![first, second]));
    }

    fn fail(&mut self)
        ensures
            final(self)@ == old(self)@.fail(),
    {
        self.failed = true;
    }

    fn constant_i32(&mut self, value: i32)
        ensures
            final(self)@ == old(self)@.emit(i32_const(value as int)),
    {
        self.body.byte(I32_CONST);
        self.body.sleb(value);
        assert(self@ =~= old(self)@.emit(i32_const(value as int)));
    }

    fn indexed(&mut self, opcode: u8, index: u32)
        ensures
            final(self)@ == old(self)@.emit(indexed(opcode, index as nat)),
    {
        self.body.byte(opcode);
        self.body.uleb(index);
        assert(self@ =~= old(self)@.emit(indexed(opcode, index as nat)));
    }

    fn aligned(&mut self, opcode: u8, align: u32, at: u32)
        ensures
            final(self)@ == old(self)@.emit(
                indexed(opcode, align as nat) + bytes::unsigned_leb(at as nat),
            ),
    {
        self.indexed(opcode, align);
        self.body.uleb(at);
        assert(self@ =~= old(self)@.emit(
            indexed(opcode, align as nat) + bytes::unsigned_leb(at as nat),
        ));
    }
}

struct Lowering<'a> {
    program: &'a Program,
    plan: Plan,
    exits: bool,
    in_entry: bool,
}

impl View for Lowering<'_> {
    type V = Setting;

    closed spec fn view(&self) -> Setting {
        Setting {
            program: self.program@,
            places: self.plan@,
            exits: self.exits,
            in_entry: self.in_entry,
        }
    }
}

impl Lowering<'_> {
    closed spec fn ready(&self) -> bool {
        &&& self.program@.wf()
        &&& self.plan.covers(self.program@)
        &&& self.program@.data.len() <= u32::MAX
        &&& self.program@.globals.len() <= u32::MAX
    }

    fn data_start(&self) -> (start: u32)
        requires
            self.ready(),
        ensures
            start == self@.data_start(),
    {
        IOVECS + IOVEC_LEN * self.plan.writes
    }

    fn constant(&self, value: ValueId) -> (word: Option<u64>)
        requires
            self.ready(),
            self@.program.known(value),
        ensures
            match self@.constant(value) {
                Some(known) => word == Some(known as u64) && known <= u64::MAX,
                None => word is None,
            },
    {
        match self.plan.source[value.index()] {
            Source::Const(word) => Some(word),
            Source::Addr(data) => {
                assert(self.plan.source@[value.0 as int] == Source::Addr(data));
                assert(self.program@.span_fits(self.program@.spans[data.0 as int]));
                let span = self.program.datum(data);
                let base: u64 = match span.origin {
                    Origin::Data => self.data_start() as u64,
                    Origin::Globals => self.data_start() as u64 + self.program.data().len() as u64,
                };
                Some(base + span.start as u64)
            },
            Source::Local(_) => None,
        }
    }

    fn push(&self, out: &mut Out, value: ValueId)
        requires
            self.ready(),
            self@.program.known(value),
        ensures
            final(out)@ == self@.push(old(out)@, value),
    {
        match self.plan.source[value.index()] {
            Source::Local(index) => out.indexed(LOCAL_GET, index),
            _ => match self.constant(value) {
                Some(word) => if word <= u32::MAX as u64 {
                    out.constant_i32(as_signed(word as u32));
                } else {
                    out.fail();
                },
                None => {},
            },
        }
    }

    fn set(&self, out: &mut Out, value: ValueId)
        requires
            self.ready(),
            self@.program.known(value),
        ensures
            final(out)@ == self@.set(old(out)@, value),
    {
        match self.plan.source[value.index()] {
            Source::Local(index) => out.indexed(LOCAL_SET, index),
            _ => out.fail(),
        }
    }

    fn push_all(&self, out: &mut Out, values: Range)
        requires
            self.ready(),
            values.within(self@.program.operands.len()),
        ensures
            final(out)@ == self@.push_all(old(out)@, self@.program.values(values), 0),
    {
        let list = self.program.values(values);
        proof {
            model::known_values(self@.program, values);
        }
        let mut at: usize = 0;
        while at < list.len()
            invariant
                self.ready(),
                at <= list@.len(),
                forall|i: int| 0 <= i < list@.len() ==> self@.program.known(#[trigger] list@[i]),
                self@.push_all(out@, list@, at as int) == self@.push_all(old(out)@, list@, 0),
            decreases list@.len() - at,
        {
            self.push(out, list[at]);
            at = at + 1;
        }
    }

    fn set_all(&self, out: &mut Out, values: Range)
        requires
            self.ready(),
            values.within(self@.program.operands.len()),
        ensures
            final(out)@ == self@.set_all(
                old(out)@,
                self@.program.values(values),
                values.len as int,
            ),
    {
        let list = self.program.values(values);
        proof {
            model::known_values(self@.program, values);
        }
        let mut count: usize = list.len();
        while count > 0
            invariant
                self.ready(),
                count <= list@.len(),
                forall|i: int| 0 <= i < list@.len() ==> self@.program.known(#[trigger] list@[i]),
                self@.set_all(out@, list@, count as int) == self@.set_all(
                    old(out)@,
                    list@,
                    list@.len() as int,
                ),
            decreases count,
        {
            count = count - 1;
            self.set(out, list[count]);
        }
    }

    fn transfer(&self, out: &mut Out, sources: Range, destinations: Range)
        requires
            self.ready(),
            sources.within(self@.program.operands.len()),
            destinations.within(self@.program.operands.len()),
        ensures
            final(out)@ == self@.transfer(
                old(out)@,
                self@.program.values(sources),
                self@.program.values(destinations),
            ),
    {
        self.push_all(out, sources);
        self.set_all(out, destinations);
    }

    fn narrow(&self, out: &mut Out, class: Class)
        ensures
            final(out)@ == self@.narrow(old(out)@, class),
    {
        match class {
            Class::Fixed { bits } => if bits < 32 {
                let mask: u64 = wrap(class, u64::MAX);
                proof {
                    vstd::arithmetic::power2::lemma_pow2_pos(bits as nat);
                    vstd::arithmetic::power2::lemma2_to64();
                    if bits < 31 {
                        vstd::arithmetic::power2::lemma_pow2_strictly_increases(bits as nat, 31);
                    }
                    vstd::arithmetic::div_mod::lemma_mod_bound(
                        u64::MAX as int,
                        model::modulus(class) as int,
                    );
                    assert(mask < 0x8000_0000);
                }
                out.constant_i32(mask as i32);
                out.byte(I32_AND);
                assert(out@ =~= self@.narrow(old(out)@, class));
            } else if bits > 32 {
                out.fail();
            },
            _ => {},
        }
    }

    fn access(&self, out: &mut Out, width: Width, offset: Offset, byte: u8, word: u8)
        ensures
            final(out)@ == self@.access(old(out)@, width, offset, byte, word),
    {
        let at: i64 = match offset {
            Offset::Bytes(count) => count as i64,
            Offset::Words(count) => count as i64 * WORD,
        };
        if 0 <= at && at <= u32::MAX as i64 {
            match width {
                Width::Byte => out.aligned(byte, 0, at as u32),
                Width::Word => out.aligned(word, 2, at as u32),
            }
        } else {
            out.fail();
        }
    }

    fn store(&self, out: &mut Out, address: u32, value: ValueId)
        requires
            self.ready(),
            self@.program.known(value),
        ensures
            final(out)@ == self@.store(old(out)@, address, value),
    {
        out.constant_i32(as_signed(address));
        self.push(out, value);
        out.aligned(I32_STORE, 2, 0);  // Four-byte alignment, as a power of two.
    }

    fn write(&self, out: &mut Out, args: Range)
        requires
            self.ready(),
            args.within(self@.program.operands.len()),
        ensures
            final(out)@ == self@.write(old(out)@, self@.program.values(args)),
    {
        let list = self.program.values(args);
        proof {
            model::known_values(self@.program, args);
        }
        let index: usize = out.iovecs.len();
        if list.len() < 2 || index >= self.plan.writes as usize {
            out.fail();
            return;
        }
        assert(self@.program.known(list@[0]) && self@.program.known(list@[1]));
        let iovec: u32 = IOVECS + IOVEC_LEN * index as u32;
        match (self.constant(list[0]), self.constant(list[1])) {
            (Some(base), Some(length)) => {
                if base <= u32::MAX as u64 && length <= u32::MAX as u64 {
                    out.iovecs.push(Some((base as u32, length as u32)));
                } else {
                    out.fail();
                }
            },
            _ => {
                out.iovecs.push(None);
                self.store(out, iovec, list[0]);
                self.store(out, iovec + 4, list[1]);
            },
        }
        let ghost filled = out@;
        out.constant_i32(STDOUT);
        out.constant_i32(as_signed(iovec));
        out.constant_i32(1);
        out.constant_i32(NWRITTEN);
        out.indexed(CALL, 0);
        out.byte(DROP);  // The errno, which there is nobody to tell.
        assert(out@ =~= filled.emit(
            i32_const(STDOUT as int) + i32_const(super::module::signed(iovec)) + i32_const(1)
                + i32_const(NWRITTEN as int) + indexed(CALL, 0) + seq![DROP],
        ));
    }

    fn grow(&self, out: &mut Out, args: Range, results: Range)
        requires
            self.ready(),
            args.within(self@.program.operands.len()),
            results.within(self@.program.operands.len()),
        ensures
            final(out)@ == self@.grow(
                old(out)@,
                self@.program.values(args),
                self@.program.values(results),
            ),
    {
        proof {
            model::known_values(self@.program, args);
            model::known_values(self@.program, results);
        }
        if args.len() < 1 || results.len() < 1 {
            out.fail();
            return;
        }
        let size = self.program.values(args)[0];
        let result = self.program.values(results)[0];
        self.push(out, size);
        let ghost pushed = out@;
        out.constant_i32(0xFFFF);
        out.byte(I32_ADD);
        out.constant_i32(PAGE_BITS);
        out.byte(I32_SHR_U);
        out.indexed(MEMORY_GROW, 0);
        out.constant_i32(PAGE_BITS);
        out.byte(I32_SHL);
        assert(out@ =~= pushed.emit(
            i32_const(0xFFFF) + seq![I32_ADD] + i32_const(PAGE_BITS as int) + seq![I32_SHR_U]
                + indexed(MEMORY_GROW, 0) + i32_const(PAGE_BITS as int) + seq![I32_SHL],
        ));
        self.set(out, result);
    }

    fn proc_exit(&self) -> (index: u32)
        ensures
            index == self@.proc_exit(),
    {
        if self.plan.writes > 0 {
            1
        } else {
            0
        }
    }

    fn platform_call(&self, out: &mut Out, platform: PlatformId, args: Range, results: Range)
        requires
            self.ready(),
            platform.0 < self@.program.platform.len(),
            args.within(self@.program.operands.len()),
            results.within(self@.program.operands.len()),
        ensures
            final(out)@ == self@.platform_call(
                old(out)@,
                platform,
                self@.program.values(args),
                self@.program.values(results),
            ),
    {
        proof {
            assert(self@.program.platform_fits(self@.program.platform[platform.0 as int]));
            model::known_values(self@.program, args);
        }
        let name = self.program.name(self.program.platforms()[platform.index()].name);
        if same(name, "write") {
            self.write(out, args);
        } else if same(name, "exit") {
            if args.len() < 1 {
                out.fail();
            } else if self.exits {
                let status = self.program.values(args)[0];
                self.push(out, status);
                out.indexed(CALL, self.proc_exit());
            }
        } else if same(name, "grow") {
            self.grow(out, args, results);
        } else {
            out.fail();
        }
    }

    fn imports(&self) -> (imports: Vec<Import>)
        ensures
            imports@ == self@.imports(),
    {
        let mut imports: Vec<Import> = Vec::new();
        if self.plan.writes > 0 {
            imports.push(Import::FdWrite);
        }
        if self.exits {
            imports.push(Import::ProcExit);
        }
        assert(imports@ =~= self@.imports());
        imports
    }

    fn simple(&self, out: &mut Out, op: Op, results: Range)
        requires
            self.ready(),
            self@.program.op_fits(op, results),
        ensures
            final(out)@ == self@.simple(old(out)@, op, self@.program.values(results)),
    {
        let list = self.program.values(results);
        proof {
            model::known_values(self@.program, results);
        }
        match op {
            Op::Binary { op, left, right } => {
                self.push(out, left);
                self.push(out, right);
                match op {
                    Binary::Add => out.byte(I32_ADD),
                    Binary::Sub => out.byte(I32_SUB),
                }
                self.narrow(out, self.program.class(list[0]));
                self.set(out, list[0]);
            },
            Op::Compare { relation, left, right } => {
                self.push(out, left);
                self.push(out, right);
                match relation {
                    Relation::Equal => out.byte(I32_EQ),
                    Relation::Less => out.byte(I32_LT_U),
                }
                self.set(out, list[0]);
            },
            Op::Load { width, address, offset } => {
                self.push(out, address);
                self.access(out, width, offset, I32_LOAD8_U, I32_LOAD);
                self.set(out, list[0]);
            },
            Op::Store { width, address, offset, value } => {
                self.push(out, address);
                self.push(out, value);
                self.access(out, width, offset, I32_STORE8, I32_STORE);
            },
            Op::Convert { class, value } => {
                self.push(out, value);
                self.narrow(out, class);
                self.set(out, list[0]);
            },
            Op::PlatformCall { platform, args } => {
                self.platform_call(out, platform, args, results);
            },
            Op::Call { function, args } => {
                let imports: u32 = self.imports().len() as u32;
                if function.0 <= u32::MAX - imports {
                    self.push_all(out, args);
                    out.indexed(CALL, imports + function.0);
                    self.set_all(out, results);
                } else {
                    out.fail();
                }
            },
            _ => {},
        }
    }

    fn branch(&self, out: &mut Out, around: Around, label: u32)
        ensures
            final(out)@ == self@.branch(old(out)@, around, label),
    {
        if label < around.depth {
            out.indexed(BR, around.depth - 1 - label);
        } else {
            out.fail();
        }
    }

    fn terminator(&self, out: &mut Out, around: Around, end: Terminator)
        requires
            self.ready(),
            end.values.within(self@.program.operands.len()),
            around_fits(self@.program, around),
        ensures
            final(out)@ == self@.terminator(old(out)@, around, end),
    {
        match end.exit {
            Exit::Yield => match around.yields {
                Some(results) => self.transfer(out, end.values, results),
                None => out.fail(),
            },
            Exit::Continue => match around.frame {
                Some(frame) => {
                    self.transfer(out, end.values, frame.params);
                    self.branch(out, around, frame.again);
                },
                None => out.fail(),
            },
            Exit::Break => match around.frame {
                Some(frame) => {
                    self.transfer(out, end.values, frame.results);
                    self.branch(out, around, frame.exit);
                },
                None => out.fail(),
            },
            Exit::Return => {
                if !self.in_entry {
                    self.push_all(out, end.values);
                    out.byte(RETURN);
                } else if self.exits {
                    self.push_all(out, end.values);
                    out.indexed(CALL, self.proc_exit());
                }
            },
            Exit::Unreachable => {
                if around.depth > 0 {
                    out.byte(UNREACHABLE);
                }
            },
        }
    }

    fn region(&self, out: &mut Out, around: Around, region: RegionId)
        requires
            self.ready(),
            region.0 < self@.program.regions.len(),
            around_fits(self@.program, around),
        ensures
            final(out)@ == self@.region(old(out)@, around, region, 0),
        decreases self@.program.rank(region),
    {
        let run = self.program.region(region).ops;
        let mut at: u32 = 0;
        proof {
            assert(self@.program.region_fits(self@.program.regions[region.0 as int]));
        }
        while at < run.len
            invariant
                self.ready(),
                at <= run.len,
                region.0 < self@.program.regions.len(),
                around_fits(self@.program, around),
                run == self@.program.region(region).ops,
                run.within(self@.program.ops.len()),
                self@.region(out@, around, region, at as int) == self@.region(
                    old(out)@,
                    around,
                    region,
                    0,
                ),
            decreases run.len - at,
        {
            let (op, results) = self.program.step(region, at);
            let ghost inner = model::children(op);
            proof {
                model::inside(self@.program, region, at as int);
            }
            match op {
                Op::If { condition, then_region, else_region } => {
                    assert(inner[0] == then_region && inner[1] == else_region);
                    if around.depth < u32::MAX {
                        let within = Around {
                            depth: around.depth + 1,
                            yields: Some(results),
                            frame: around.frame,
                        };
                        self.push(out, condition);
                        out.pair(IF, EMPTY);
                        self.region(out, within, then_region);
                        out.byte(ELSE);
                        self.region(out, within, else_region);
                        out.byte(END);
                    } else {
                        out.fail();
                    }
                },
                Op::Loop { initial, body } => {
                    assert(inner[0] == body);
                    if around.depth < u32::MAX - 1 {
                        let params = self.program.region(body).params;
                        assert(self@.program.region_fits(
                            self@.program.regions[body.0 as int],
                        ));
                        self.transfer(out, initial, params);
                        let ghost entered = out@;
                        out.pair(BLOCK, EMPTY);
                        out.pair(LOOP, EMPTY);
                        assert(out@ =~= entered.emit(seq![BLOCK, EMPTY, LOOP, EMPTY]));
                        let within = Around {
                            depth: around.depth + 2,
                            yields: around.yields,
                            frame: Some(
                                LoopFrame {
                                    params,
                                    again: around.depth + 1,
                                    results,
                                    exit: around.depth,
                                },
                            ),
                        };
                        self.region(out, within, body);
                        out.pair(END, END);
                    } else {
                        out.fail();
                    }
                },
                _ => self.simple(out, op, results),
            }
            at = at + 1;
        }
        self.terminator(out, around, self.program.region(region).terminator);
    }
}

/// Whether what surrounds a region names values that exist.
closed spec fn around_fits(program: Parts, around: Around) -> bool {
    &&& around.yields matches Some(results) ==> results.within(program.operands.len())
    &&& around.frame matches Some(frame) ==> frame.params.within(program.operands.len())
        && frame.results.within(program.operands.len())
}

/// The plan of a whole program, with each function's local count and whether
/// the entry returns from inside something.
fn plan(program: &Program) -> (planned: (Plan, Vec<u32>, bool))
    requires
        program@.wf(),
    ensures
        planned.0.covers(program@),
        planned.0@ == Places::functions(program@, program@.functions.len() as int),
        planned.1@.len() == program@.functions.len(),
        forall|f: int|
            0 <= f < planned.1@.len() ==> #[trigger] planned.1@[f] == Places::functions(
                program@,
                f + 1,
            ).locals,
        planned.2 == Places::functions(program@, 1).returns_inside,
{
    let functions = program.functions();
    let mut plan = Plan::new(program);
    let mut frames: Vec<u32> = Vec::new();
    let mut entry_returns_inside = false;
    let mut at: usize = 0;
    while at < functions.len()
        invariant
            program@.wf(),
            functions@ == program@.functions,
            at <= functions@.len(),
            plan.covers(program@),
            plan@ == Places::functions(program@, at as int),
            frames@.len() == at,
            forall|f: int|
                0 <= f < at ==> #[trigger] frames@[f] == Places::functions(program@, f + 1).locals,
            at > 0 ==> entry_returns_inside == Places::functions(program@, 1).returns_inside,
        decreases functions@.len() - at,
    {
        assert(program@.functions.contains(functions@[at as int]));
        plan.function(program, functions[at]);
        if at == 0 {
            entry_returns_inside = plan.returns_inside;
        }
        frames.push(plan.locals);
        at = at + 1;
    }
    (plan, frames, entry_returns_inside)
}

fn put_vectors(iovecs: &Vec<Option<(u32, u32)>>) -> (out: Bytes)
    ensures
        out@ == vectors(iovecs@, iovecs@.len() as int),
{
    let mut out = Bytes::default();
    let mut at: usize = 0;
    while at < iovecs.len()
        invariant
            at <= iovecs@.len(),
            out@ == vectors(iovecs@, at as int),
        decreases iovecs@.len() - at,
    {
        let (base, length): (u32, u32) = match iovecs[at] {
            Some(known) => known,
            None => (0, 0),
        };
        out.le32(base);
        out.le32(length);
        at = at + 1;
    }
    out
}

fn is_all_zero(run: &Vec<u8>) -> (zero: bool)
    ensures
        zero == all_zero(run@),
{
    let mut at: usize = 0;
    while at < run.len()
        invariant
            at <= run@.len(),
            forall|i: int| 0 <= i < at ==> #[trigger] run@[i] == 0,
        decreases run@.len() - at,
    {
        if run[at] != 0 {
            return false;
        }
        at = at + 1;
    }
    true
}

fn put_segments(program: &Program, iovecs: &Vec<Option<(u32, u32)>>, data_start: u32) -> (data: Vec<
    Segment,
>)
    requires
        data_start + program@.data.len() <= u32::MAX,
    ensures
        data@.map_values(|segment: Segment| segment@) == segments(
            program@,
            iovecs@,
            data_start as nat,
        ),
{
    let mut data: Vec<Segment> = Vec::new();
    let known = put_vectors(iovecs).finish();
    if !is_all_zero(&known) {
        data.push(Segment { offset: IOVECS, bytes: known });
    }
    if program.data().len() > 0 {
        data.push(
            Segment { offset: data_start, bytes: vstd::slice::slice_to_vec(program.data()) },
        );
    }
    if program.globals().len() > 0 {
        data.push(
            Segment {
                offset: data_start + program.data().len() as u32,
                bytes: vstd::slice::slice_to_vec(program.globals()),
            },
        );
    }
    assert(data@.map_values(|segment: Segment| segment@) =~= segments(
        program@,
        iovecs@,
        data_start as nat,
    ));
    data
}

/// What a program becomes, or `None` where it asks for what this target does
/// not have.
pub fn attempt(program: &Program) -> (code: Option<Code>)
    requires
        program@.wf(),
    ensures
        match lowered(program@) {
            Some(layout) => code matches Some(found) && found@ == layout,
            None => code is None,
        },
{
    let most: usize = u32::MAX as usize;
    if program.data().len() > most || program.globals().len() > most {
        return None;
    }
    let (plan, frames, returns_inside) = plan(program);
    if plan.failed {
        return None;
    }
    let mut state = Lowering { program, plan, exits: false, in_entry: true };
    proof {
        assert(program@.function_fits(program@.functions[0]));
        assert(program@.region_fits(program@.regions[program@.functions[0].body.0 as int]));
    }
    let end = program.region(program.functions()[0].body).terminator;
    let leaves = if end.exit != Exit::Return {
        true
    } else if end.values.len() > 0 {
        proof {
            model::known_values(program@, end.values);
        }
        let status = program.values(end.values)[0];
        match state.constant(status) {
            Some(word) => word != 0,
            None => true,
        }
    } else {
        false
    };
    let exits = state.plan.exits || returns_inside || leaves;
    proof {
        assert(exits == state@.needs_proc_exit());
    }
    state.exits = exits;
    assert(state@ =~= setting(program@, true));
    let mut out = Out { body: Bytes::default(), iovecs: Vec::new(), failed: false };
    let mut bodies: Vec<Body> = Vec::new();
    let functions = program.functions();
    let mut at: usize = 0;
    assert(bodies@.map_values(|body: Body| body@) =~= seq![]);
    while at < functions.len()
        invariant
            program@.wf(),
            functions@ == program@.functions,
            state.ready(),
            state@ == (Setting { in_entry: state.in_entry, ..setting(program@, true) }),
            frames@.len() == functions@.len(),
            forall|f: int|
                0 <= f < frames@.len() ==> #[trigger] frames@[f] == Places::functions(
                    program@,
                    f + 1,
                ).locals,
            at <= functions@.len(),
            at == 0 ==> out@ == self::functions(program@, 0).1,
            at > 0 ==> out@ == self::functions(program@, at as int).1,
            bodies@.map_values(|body: Body| body@) == self::functions(program@, at as int).0,
        decreases functions@.len() - at,
    {
        let function = functions[at];
        proof {
            assert(program@.function_fits(program@.functions[at as int]));
        }
        state.in_entry = at == 0;
        out.body = Bytes::default();
        let around = Around { depth: 0, yields: None, frame: None };
        assert(state@ =~= setting(program@, at == 0));
        state.region(&mut out, around, function.body);
        let mut fresh = Bytes::default();
        let ghost written = out@;
        std::mem::swap(&mut fresh, &mut out.body);
        let params: u32 = function.params.len;
        let code = fresh.finish();
        out.body.bytes(code.as_slice());
        assert(out@ =~= written);
        let body = Body {
            params,
            locals: if frames[at] > params {
                frames[at] - params
            } else {
                0
            },
            answers: if at == 0 {
                0
            } else {
                function.answers.len
            },
            code,
        };
        let ghost before = bodies@;
        bodies.push(body);
        at = at + 1;
        assert(bodies@.map_values(|body: Body| body@) =~= before.map_values(
            |body: Body| body@,
        ).push(body@));
    }
    let data_start: u32 = state.data_start();
    if out.failed || program.data().len() > (u32::MAX - data_start) as usize {
        return None;
    }
    let data = put_segments(program, &out.iovecs, data_start);
    let imports = state.imports();
    let memory = imports.len() > 0 || data.len() > 0 || state.plan.touches;
    proof {
        assert(state@.imports() == setting(program@, true).imports());
        assert(data@.len() == data@.map_values(|segment: Segment| segment@).len());
    }
    let code = Code { bodies, entry: 0, data, imports, memory };
    assert(code@ =~= lowered(program@)->0);
    Some(code)
}

/// What a program becomes.
pub fn lower(program: &Program) -> (code: Code)
    requires
        program@.wf(),
        lowered(program@) is Some,
    ensures
        Some(code@) == lowered(program@),
{
    match attempt(program) {
        Some(code) => code,
        None => {
            assert(false);
            Code {
                bodies: Vec::new(),
                entry: 0,
                data: Vec::new(),
                imports: Vec::new(),
                memory: false,
            }
        },
    }
}

} // verus!
