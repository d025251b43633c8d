//! Lowering the IR to 6502 code.
//!
//! Every value that is not a constant or an address lives in a two-byte
//! frame slot, reached as `(FP),Y`, so a frame holds at most 128 of them.
//! Two-operand forms read their operands into the scratch pairs and work
//! there, which is unhurried and obviously correct.

use super::assembler::{Assembler, Cc, Label, Listing};
use super::{
    Code, ARGS, ARG_COUNT, CSP, CSTACK_TOP, FP, FRAMES_TOP, HEAP, HOOK_EXIT, HOOK_WRITE, LOAD, PTR,
    R0, T0, T0_HIGH, T1, T1_HIGH,
};
use crate::ir::model;
use crate::ir::{
    wrap, Binary, Class, DataId, Exit, FunctionId, Offset, Op, Origin, Parts, PlatformId,
    Program, Range, RegionId, Relation, Terminator, ValueId, Width,
};
use crate::text::same;
use vstd::prelude::*;

verus! {

/// A word here is the width of an address.
pub const WORD: i64 = 2;
pub const WORD_BITS: u16 = 16;

/// Where a value comes from when it is wanted.
#[derive(Clone, Copy, Debug, PartialEq, Eq, Structural)]
pub enum Source {
    Const(u64),
    Addr(DataId),
    Slot(u8),
}

/// What a region stands in: the nearest `if`, as what it leaves with and
/// where it ends, and the nearest loop, as what it carries, where it goes
/// round, what it leaves with and where it ends.
#[derive(Clone, Copy, Debug)]
pub struct Around {
    pub branch: Option<(Range, Label)>,
    pub repeat: Option<(Range, Label, Range, Label)>,
}

/// Code so far, where each value lives, and how big the frame at hand is.
#[verifier::ext_equal]
pub struct Work {
    pub code: Listing,
    pub source: Seq<Source>,
    pub frame: u8,
}

/// A program, and where its data sits.
#[verifier::ext_equal]
pub struct Machine {
    pub program: Parts,
    pub data: u16,
}

/// How wide a class is held, which for anything unfixed is a word.
pub open spec fn width(class: Class) -> u16 {
    match class {
        Class::Fixed { bits } => bits,
        _ => WORD_BITS,
    }
}

/// How many bytes an offset comes to.
pub open spec fn distance(offset: Offset) -> int {
    match offset {
        Offset::Bytes(count) => count as int,
        Offset::Words(count) => count * WORD,
    }
}

/// A distance a single index register can reach.
pub open spec fn indexable(offset: Offset) -> bool {
    0 <= distance(offset) <= 0xFF
}

/// As many low bits as `bits`.
pub open spec fn low_bits(bits: u16) -> u64 {
    model::wrapped(Class::Fixed { bits }, u64::MAX)
}

impl Listing {
    /// A literal word, into a zero-page pair.
    pub open spec fn set_pair(self, pair: u8, value: u16) -> Listing {
        self.lda_imm(super::assembler::low(value as nat)).sta_zp(pair).lda_imm(
            super::assembler::high(value as nat),
        ).sta_zp((pair + 1) as u8)
    }

    /// `FP` down by the frame.
    pub open spec fn open_frame(self, frame: u8) -> Listing {
        self.lda_zp(FP).sec().sbc_imm(frame).sta_zp(FP).lda_zp((FP + 1) as u8).sbc_imm(0).sta_zp(
            (FP + 1) as u8,
        )
    }

    /// `FP` back up again.
    pub open spec fn close_frame(self, frame: u8) -> Listing {
        self.lda_zp(FP).clc().adc_imm(frame).sta_zp(FP).lda_zp((FP + 1) as u8).adc_imm(0).sta_zp(
            (FP + 1) as u8,
        )
    }

    /// `T0 = T0 op T1`, low byte then high, carrying between them -- or
    /// only the low byte, when the class is narrow enough that the machine's
    /// own wrapping is the answer.
    pub open spec fn arithmetic(self, op: Binary, narrow: bool) -> Listing {
        let started = match op {
            Binary::Add => self.lda_zp(T0).clc().adc_zp(T1).sta_zp(T0),
            Binary::Sub => self.lda_zp(T0).sec().sbc_zp(T1).sta_zp(T0),
        };
        let upper = if narrow {
            started.lda_imm(0)
        } else {
            match op {
                Binary::Add => started.lda_zp(T0_HIGH).adc_zp(T1_HIGH),
                Binary::Sub => started.lda_zp(T0_HIGH).sbc_zp(T1_HIGH),
            }
        };
        upper.sta_zp(T0_HIGH)
    }

    /// The low `bits` of `T0`, where those are not whole bytes.
    pub open spec fn mask(self, bits: u16) -> Listing {
        if bits < 8 {
            self.lda_zp(T0).and_imm(super::assembler::low(low_bits(bits) as nat)).sta_zp(T0)
        } else if 8 < bits < 16 {
            self.lda_zp(T0_HIGH).and_imm(
                super::assembler::high(low_bits(bits) as nat),
            ).sta_zp(T0_HIGH)
        } else if bits > WORD_BITS {
            self.fail()
        } else {
            self
        }
    }

    /// The C stack the hooks read, which grows down two bytes at a time.
    pub open spec fn push_pair(self, pair: u8) -> Listing {
        self.sec().lda_zp(CSP).sbc_imm(2).sta_zp(CSP).lda_zp((CSP + 1) as u8).sbc_imm(0).sta_zp(
            (CSP + 1) as u8,
        ).ldy_imm(0).lda_zp(pair).sta_ind_y(CSP).iny().lda_zp((pair + 1) as u8).sta_ind_y(CSP)
    }

    pub open spec fn drop_pushed(self, count: u8) -> Listing {
        self.clc().lda_zp(CSP).adc_imm(count).sta_zp(CSP).lda_zp((CSP + 1) as u8).adc_imm(
            0,
        ).sta_zp((CSP + 1) as u8)
    }
}

impl Work {
    pub open spec fn fail(self) -> Work {
        Work { code: self.code.fail(), ..self }
    }

    pub open spec fn put(self, value: ValueId, source: Source) -> Work {
        Work { source: self.source.update(value.0 as int, source), ..self }
    }

    /// The next slot of the frame is `value`'s.
    pub open spec fn give_slot(self, value: ValueId) -> Work {
        if self.frame > 253 {
            self.fail()
        } else {
            Work { frame: (self.frame + 2) as u8, ..self.put(value, Source::Slot(self.frame)) }
        }
    }

    /// A slot for each of `values`, in order, from the one at `from` on.
    pub open spec fn give_slots(self, values: Seq<ValueId>, from: int) -> Work
        decreases values.len() - from,
    {
        if from < 0 || from >= values.len() {
            self
        } else {
            self.give_slot(values[from]).give_slots(values, from + 1)
        }
    }

    /// What an instruction defines.
    pub open spec fn place(self, op: Op, results: Seq<ValueId>) -> Work {
        match op {
            Op::Constant { value, .. } => self.put(results[0], Source::Const(value)),
            Op::AddressOf(data) => self.put(results[0], Source::Addr(data)),
            _ => self.give_slots(results, 0),
        }
    }

    /// Write a zero-page pair into `value`'s slot. Only what is computed has
    /// one.
    pub open spec fn write_slot(self, value: ValueId, pair: u8) -> Work {
        match self.source[value.0 as int] {
            Source::Slot(offset) => Work {
                code: self.code.ldy_imm(offset).lda_zp(pair).sta_ind_y(FP).iny().lda_zp(
                    (pair + 1) as u8,
                ).sta_ind_y(FP),
                ..self
            },
            _ => self.fail(),
        }
    }
}

impl Machine {
    /// What a region's instructions from `from` on define.
    pub open spec fn plan_results(self, work: Work, region: RegionId, from: int) -> Work
        decreases self.program.region_ops(region).len() - from,
    {
        let ops = self.program.region_ops(region);
        if from < 0 || from >= ops.len() {
            work
        } else {
            let results = self.program.values(self.program.region_results(region)[from]);
            self.plan_results(work.place(ops[from], results), region, from + 1)
        }
    }

    /// The regions inside a region's instructions from `from` on, after the
    /// run they sit in, so that each stays one scan.
    pub open spec fn plan_nested(self, work: Work, region: RegionId, from: int) -> Work
        decreases self.program.rank(region), 0int, self.program.region_ops(region).len() - from,
    {
        let ops = self.program.region_ops(region);
        if from < 0 || from >= ops.len() {
            work
        } else {
            let next = match ops[from] {
                Op::If { then_region, else_region, .. } => if self.program.nests(
                    region,
                    then_region,
                ) && self.program.nests(region, else_region) {
                    self.plan(self.plan(work, then_region), else_region)
                } else {
                    work
                },
                Op::Loop { body, .. } => if self.program.nests(region, body) {
                    self.plan(work, body)
                } else {
                    work
                },
                _ => work,
            };
            self.plan_nested(next, region, from + 1)
        }
    }

    /// Give a slot to every value the frame has to hold.
    pub open spec fn plan(self, work: Work, region: RegionId) -> Work
        decreases self.program.rank(region), 1int, 0int,
    {
        let params = self.program.values(self.program.region(region).params);
        self.plan_nested(
            self.plan_results(work.give_slots(params, 0), region, 0),
            region,
            0,
        )
    }

    /// Where a datum sits. The image is loaded into RAM, so both regions
    /// are writable and they differ only in where they begin.
    pub open spec fn address(self, data: DataId) -> nat {
        let span = self.program.datum(data);
        match span.origin {
            Origin::Data => self.data as nat + span.start as nat,
            Origin::Globals => self.data as nat + self.program.data.len() + span.start as nat,
        }
    }

    /// Read `value` into a zero-page pair.
    pub open spec fn read(self, work: Work, pair: u8, value: ValueId) -> Work {
        match work.source[value.0 as int] {
            Source::Const(word) => if word <= 0xFFFF {
                Work { code: work.code.set_pair(pair, word as u16), ..work }
            } else {
                work.fail()
            },
            Source::Addr(data) => if self.address(data) <= 0xFFFF {
                Work { code: work.code.set_pair(pair, self.address(data) as u16), ..work }
            } else {
                work.fail()
            },
            Source::Slot(offset) => Work {
                code: work.code.ldy_imm(offset).lda_ind_y(FP).sta_zp(pair).iny().lda_ind_y(
                    FP,
                ).sta_zp((pair + 1) as u8),
                ..work
            },
        }
    }

    pub open spec fn pair(self, work: Work, left: ValueId, right: ValueId) -> Work {
        self.read(self.read(work, T0, left), T1, right)
    }

    /// Arguments arrive in fixed pairs, so a callee takes its own copies
    /// before anything it calls can overwrite them.
    pub open spec fn take_args(self, work: Work, params: Seq<ValueId>, from: int) -> Work
        decreases params.len() - from,
    {
        if from < 0 || from >= params.len() {
            work
        } else if from >= 120 {
            work.fail()
        } else {
            self.take_args(work.write_slot(params[from], (ARGS + 2 * from) as u8), params, from + 1)
        }
    }

    pub open spec fn pass_args(self, work: Work, args: Seq<ValueId>, from: int) -> Work
        decreases args.len() - from,
    {
        if from < 0 || from >= args.len() {
            work
        } else if from >= ARG_COUNT {
            work.fail()
        } else {
            self.pass_args(self.read(work, (ARGS + 2 * from) as u8, args[from]), args, from + 1)
        }
    }

    pub open spec fn call(
        self,
        work: Work,
        function: FunctionId,
        args: Seq<ValueId>,
        results: Seq<ValueId>,
    ) -> Work {
        let passed = self.pass_args(work, args, 0);
        let called = Work { code: passed.code.jsr(Label(function.0 as usize)), ..passed };
        if results.len() > 0 {
            called.write_slot(results[0], R0)
        } else {
            called
        }
    }

    /// Whatever the source made meaningful, kept as far as the class is
    /// wide.
    pub open spec fn convert(self, work: Work, class: Class, value: ValueId, result: ValueId)
        -> Work {
        let held = self.read(work, T0, value);
        let own = width(self.program.class(value));
        let bits = if width(class) < own {
            width(class)
        } else {
            own
        };
        let cleared = if bits <= 8 {
            held.code.lda_imm(0).sta_zp(T0_HIGH)
        } else {
            held.code
        };
        Work { code: cleared.mask(bits), ..held }.write_slot(result, T0)
    }

    /// Sources through the scratch pairs, from the one at `from` on.
    pub open spec fn read_moved(self, work: Work, sources: Seq<ValueId>, from: int) -> Work
        decreases sources.len() - from,
    {
        if from < 0 || from >= sources.len() {
            work
        } else {
            let pair = if from == 0 {
                T0
            } else {
                T1
            };
            self.read_moved(self.read(work, pair, sources[from]), sources, from + 1)
        }
    }

    pub open spec fn write_moved(self, work: Work, destinations: Seq<ValueId>, from: int) -> Work
        decreases destinations.len() - from,
    {
        if from < 0 || from >= destinations.len() {
            work
        } else {
            let pair = if from == 0 {
                T0
            } else {
                T1
            };
            self.write_moved(work.write_slot(destinations[from], pair), destinations, from + 1)
        }
    }

    /// Through the scratch pairs, so a swap cannot overwrite its own input.
    /// Only two values move at a time, which is all any region here carries.
    pub open spec fn transfer(
        self,
        work: Work,
        sources: Seq<ValueId>,
        destinations: Seq<ValueId>,
    ) -> Work {
        if sources.len() > 2 {
            work.fail()
        } else {
            self.write_moved(self.read_moved(work, sources, 0), destinations, 0)
        }
    }

    pub open spec fn load_at(
        self,
        work: Work,
        width: Width,
        address: ValueId,
        offset: Offset,
        result: ValueId,
    ) -> Work {
        let held = self.read(work, PTR, address);
        if !indexable(offset) {
            held.fail()
        } else {
            let code = held.code.ldy_imm(distance(offset) as u8).lda_ind_y(PTR).sta_zp(T0);
            let upper = match width {
                Width::Byte => code.lda_imm(0),
                Width::Word => code.iny().lda_ind_y(PTR),
            };
            Work { code: upper.sta_zp(T0_HIGH), ..held }.write_slot(result, T0)
        }
    }

    pub open spec fn store_at(
        self,
        work: Work,
        width: Width,
        address: ValueId,
        offset: Offset,
        value: ValueId,
    ) -> Work {
        let held = self.read(self.read(work, T0, value), PTR, address);
        if !indexable(offset) {
            held.fail()
        } else {
            let code = held.code.ldy_imm(distance(offset) as u8).lda_zp(T0).sta_ind_y(PTR);
            match width {
                Width::Byte => Work { code, ..held },
                Width::Word => Work {
                    code: code.iny().lda_zp(T0_HIGH).sta_ind_y(PTR),
                    ..held
                },
            }
        }
    }

    /// The hook takes the descriptor and the buffer on the C stack, and the
    /// count in A and X.
    pub open spec fn write(self, work: Work, args: Seq<ValueId>) -> Work {
        if args.len() < 2 {
            work.fail()
        } else {
            let described = Work { code: work.code.set_pair(T1, 1).push_pair(T1), ..work };
            let buffer = self.read(described, T1, args[0]);
            let pushed = Work { code: buffer.code.push_pair(T1), ..buffer };
            let counted = self.read(pushed, T0, args[1]);
            Work {
                code: counted.code.ldx_zp(T0_HIGH).lda_zp(T0).jsr_abs(
                    HOOK_WRITE,
                ).drop_pushed(4),
                ..counted
            }
        }
    }

    pub open spec fn exit(self, work: Work, args: Seq<ValueId>) -> Work {
        if args.len() < 1 {
            work.fail()
        } else {
            let held = self.read(work, T0, args[0]);
            Work { code: held.code.lda_zp(T0).jmp_abs(HOOK_EXIT), ..held }
        }
    }

    /// There is no kernel to ask, so the region is the next unused memory
    /// above the image.
    pub open spec fn grow(self, work: Work, args: Seq<ValueId>, results: Seq<ValueId>) -> Work {
        if args.len() < 1 || results.len() < 1 {
            work.fail()
        } else {
            let held = self.read(work, T0, args[0]);
            let upper = (HEAP + 1) as u8;
            let kept = held.code.lda_zp(HEAP).sta_zp(T1).lda_zp(upper).sta_zp(T1_HIGH);
            let code = kept.clc().lda_zp(HEAP).adc_zp(T0).sta_zp(HEAP).lda_zp(upper).adc_zp(
                T0_HIGH,
            ).sta_zp(upper);
            Work { code, ..held }.write_slot(results[0], T1)
        }
    }

    pub open spec fn platform_call(
        self,
        work: Work,
        platform: PlatformId,
        args: Seq<ValueId>,
        results: Seq<ValueId>,
    ) -> Work {
        let name = self.program.name(self.program.routine(platform).name);
        if name == "write"@ {
            self.write(work, args)
        } else if name == "exit"@ {
            self.exit(work, args)
        } else if name == "grow"@ {
            self.grow(work, args, results)
        } else {
            work.fail()
        }
    }

    /// An instruction that holds no regions.
    pub open spec fn simple(self, work: Work, op: Op, results: Seq<ValueId>) -> Work {
        match op {
            Op::Binary { op, left, right } => {
                let held = self.pair(work, left, right);
                let bits = width(self.program.class(results[0]));
                Work { code: held.code.arithmetic(op, bits <= 8).mask(bits), ..held }.write_slot(
                    results[0],
                    T0,
                )
            },
            Op::Compare { relation, left, right } => {
                let held = self.pair(work, left, right);
                Work { code: held.code.comparison(relation), ..held }.write_slot(results[0], T0)
            },
            Op::Load { width, address, offset } => self.load_at(
                work,
                width,
                address,
                offset,
                results[0],
            ),
            Op::Store { width, address, offset, value } => self.store_at(
                work,
                width,
                address,
                offset,
                value,
            ),
            Op::Convert { class, value } => self.convert(work, class, value, results[0]),
            Op::PlatformCall { platform, args } => self.platform_call(
                work,
                platform,
                self.program.values(args),
                results,
            ),
            Op::Call { function, args } => self.call(
                work,
                function,
                self.program.values(args),
                results,
            ),
            _ => work,
        }
    }

    pub open spec fn terminator(self, work: Work, around: Around, end: Terminator) -> Work {
        let values = self.program.values(end.values);
        match end.exit {
            Exit::Yield => match around.branch {
                Some((results, after)) => {
                    let moved = self.transfer(work, values, self.program.values(results));
                    Work { code: moved.code.jmp(after), ..moved }
                },
                None => work.fail(),
            },
            Exit::Continue => match around.repeat {
                Some((params, head, _, _)) => {
                    let moved = self.transfer(work, values, self.program.values(params));
                    Work { code: moved.code.jmp(head), ..moved }
                },
                None => work.fail(),
            },
            Exit::Break => match around.repeat {
                Some((_, _, results, after)) => {
                    let moved = self.transfer(work, values, self.program.values(results));
                    Work { code: moved.code.jmp(after), ..moved }
                },
                None => work.fail(),
            },
            Exit::Return => {
                let held = if values.len() > 0 {
                    self.read(work, R0, values[0])
                } else {
                    work
                };
                let closed = if held.frame > 0 {
                    held.code.close_frame(held.frame)
                } else {
                    held.code
                };
                Work { code: closed.rts(), ..held }
            },
            // Nothing follows, so nothing has to be emitted to avoid it.
            Exit::Unreachable => Work { code: work.code.rts(), ..work },
        }
    }

    /// A region's instructions from `from` on, and how it ends.
    pub open spec fn region(self, work: Work, around: Around, region: RegionId, from: int) -> Work
        decreases self.program.rank(region), self.program.region_ops(region).len() - from,
    {
        let ops = self.program.region_ops(region);
        if from < 0 || from >= ops.len() {
            self.terminator(work, around, self.program.region(region).terminator)
        } else {
            let results = self.program.region_results(region)[from];
            let next = match ops[from] {
                Op::If { condition, then_region, else_region } => if self.program.nests(
                    region,
                    then_region,
                ) && self.program.nests(region, else_region) {
                    let otherwise = work.code.next();
                    let after = work.code.label().next();
                    let held = self.read(
                        Work { code: work.code.label().label(), ..work },
                        T0,
                        condition,
                    );
                    let within = Around { branch: Some((results, after)), ..around };
                    let tested = held.code.lda_zp(T0).ora_zp(T0_HIGH).branch(
                        Cc::Equal,
                        otherwise,
                    );
                    let then = self.region(Work { code: tested, ..held }, within, then_region, 0);
                    let both = self.region(
                        Work { code: then.code.bind(otherwise), ..then },
                        within,
                        else_region,
                        0,
                    );
                    Work { code: both.code.bind(after), ..both }
                } else {
                    work.fail()
                },
                Op::Loop { initial, body } => if self.program.nests(region, body) {
                    let head = work.code.next();
                    let after = work.code.label().next();
                    let params = self.program.region(body).params;
                    let moved = self.transfer(
                        Work { code: work.code.label().label(), ..work },
                        self.program.values(initial),
                        self.program.values(params),
                    );
                    let within = Around {
                        repeat: Some((params, head, results, after)),
                        ..around
                    };
                    let done = self.region(
                        Work { code: moved.code.bind(head), ..moved },
                        within,
                        body,
                        0,
                    );
                    Work { code: done.code.bind(after), ..done }
                } else {
                    work.fail()
                },
                op => self.simple(work, op, self.program.values(results)),
            };
            self.region(next, around, region, from + 1)
        }
    }

    /// A function: its frame, its arguments into it, and what it runs.
    #[verifier::opaque]
    pub open spec fn function(self, work: Work, id: FunctionId) -> Work {
        let function = self.program.function(id);
        let bound = Work {
            code: work.code.bind(Label(id.0 as usize)),
            frame: 0,
            ..work
        };
        let planned = self.plan(bound, function.body);
        let opened = if planned.frame > 0 {
            Work { code: planned.code.open_frame(planned.frame), ..planned }
        } else {
            planned
        };
        self.region(
            self.take_args(opened, self.program.values(function.params), 0),
            Around { branch: None, repeat: None },
            function.body,
            0,
        )
    }

    /// The first `count` functions.
    pub open spec fn functions(self, work: Work, count: int) -> Work
        decreases count,
    {
        if count <= 0 {
            work
        } else {
            self.function(self.functions(work, count - 1), FunctionId((count - 1) as u32))
        }
    }
}

/// A label for each of the first `count` functions.
pub open spec fn with_starts(code: Listing, count: nat) -> Listing {
    Listing { labels: code.labels + Seq::new(count, |i: int| None::<nat>), ..code }
}

impl Listing {
    /// The hardware stack, the two software stacks, the heap past the end
    /// of the image, then the entry; its result is the program's status.
    pub open spec fn reset(self, heap: u16) -> Listing {
        self.ldx_imm(0xFF).txs().set_pair(CSP, CSTACK_TOP).set_pair(FP, FRAMES_TOP).set_pair(
            HEAP,
            heap,
        ).jsr(Label(0)).lda_zp(R0).jmp_abs(HOOK_EXIT)
    }

    /// `T0 = T0 relation T1`, as one or zero.
    pub open spec fn comparison(self, relation: Relation) -> Listing {
        let yes = self.next();
        let done = self.label().next();
        let no = self.label().label().next();
        let labelled = self.label().label().label();
        let decided = match relation {
            Relation::Equal => labelled.lda_zp(T0).cmp_zp(T1).branch(Cc::NotEqual, no).lda_zp(
                T0_HIGH,
            ).cmp_zp(T1_HIGH).branch(Cc::Equal, yes).bind(no),
            // Unsigned, high byte first; the low byte only decides a tie.
            Relation::Less => labelled.lda_zp(T0_HIGH).cmp_zp(T1_HIGH).branch(Cc::NoCarry, yes).branch(
                Cc::NotEqual,
                no,
            ).lda_zp(T0).cmp_zp(T1).branch(Cc::NoCarry, yes).bind(no),
        };
        decided.set_pair(T0, 0).jmp(done).bind(yes).set_pair(T0, 1).bind(done)
    }
}

/// Code being written, with where each value lives.
#[derive(Debug)]
struct Writer {
    code: Assembler,
    source: Vec<Source>,
    frame: u8,
}

impl View for Writer {
    type V = Work;

    closed spec fn view(&self) -> Work {
        Work { code: self.code@, source: self.source@, frame: self.frame }
    }
}

impl Work {
    /// Room for every value of a program, and nothing placed that is not
    /// there.
    pub open spec fn covers(self, program: Parts) -> bool {
        &&& self.code.tidy()
        &&& self.source.len() == program.classes.len()
        &&& forall|v: int|
            0 <= v < self.source.len() ==> (#[trigger] self.source[v] matches Source::Addr(data)
                ==> data.0 < program.spans.len())
    }

    /// The same, with the labels there were still there.
    pub open spec fn follows(self, before: Work, program: Parts) -> bool {
        &&& self.covers(program)
        &&& before.code.labels.len() <= self.code.labels.len()
        &&& before.code.far == self.code.far
    }
}

fn set_pair(code: &mut Assembler, pair: u8, value: u16)
    requires
        old(code)@.tidy(),
        pair < 255,
    ensures
        final(code)@.tidy(),
        final(code)@ == old(code)@.set_pair(pair, value),
{
    code.lda_imm((value % 256) as u8);
    code.sta_zp(pair);
    code.lda_imm((value / 256) as u8);
    code.sta_zp(pair + 1);
}

/// `FP` down by the frame, or back up again.
fn adjust_frame(code: &mut Assembler, frame: u8, open: bool)
    requires
        old(code)@.tidy(),
    ensures
        final(code)@.tidy(),
        open ==> final(code)@ == old(code)@.open_frame(frame),
        !open ==> final(code)@ == old(code)@.close_frame(frame),
{
    code.lda_zp(FP);
    if open {
        code.sec();
        code.sbc_imm(frame);
    } else {
        code.clc();
        code.adc_imm(frame);
    }
    code.sta_zp(FP);
    code.lda_zp(FP + 1);
    if open {
        code.sbc_imm(0);
    } else {
        code.adc_imm(0);
    }
    code.sta_zp(FP + 1);
}

fn arithmetic(code: &mut Assembler, op: Binary, narrow: bool)
    requires
        old(code)@.tidy(),
    ensures
        final(code)@.tidy(),
        final(code)@ == old(code)@.arithmetic(op, narrow),
{
    code.lda_zp(T0);
    match op {
        Binary::Add => {
            code.clc();
            code.adc_zp(T1);
        },
        Binary::Sub => {
            code.sec();
            code.sbc_zp(T1);
        },
    }
    code.sta_zp(T0);
    if narrow {
        code.lda_imm(0);
    } else {
        code.lda_zp(T0_HIGH);
        match op {
            Binary::Add => code.adc_zp(T1_HIGH),
            Binary::Sub => code.sbc_zp(T1_HIGH),
        }
    }
    code.sta_zp(T0_HIGH);
}

fn mask(code: &mut Assembler, bits: u16)
    requires
        old(code)@.tidy(),
    ensures
        final(code)@.tidy(),
        final(code)@ == old(code)@.mask(bits),
{
    let kept: u64 = wrap(Class::Fixed { bits }, u64::MAX);
    if bits < 8 {
        code.lda_zp(T0);
        code.and_imm((kept % 256) as u8);
        code.sta_zp(T0);
    } else if 8 < bits && bits < 16 {
        code.lda_zp(T0_HIGH);
        code.and_imm((kept / 256 % 256) as u8);
        code.sta_zp(T0_HIGH);
    } else if bits > WORD_BITS {
        code.fail();
    }
}

fn push_pair(code: &mut Assembler, pair: u8)
    requires
        old(code)@.tidy(),
        pair < 255,
    ensures
        final(code)@.tidy(),
        final(code)@ == old(code)@.push_pair(pair),
{
    code.sec();
    code.lda_zp(CSP);
    code.sbc_imm(2);
    code.sta_zp(CSP);
    code.lda_zp(CSP + 1);
    code.sbc_imm(0);
    code.sta_zp(CSP + 1);

    code.ldy_imm(0);
    code.lda_zp(pair);
    code.sta_ind_y(CSP);
    code.iny();
    code.lda_zp(pair + 1);
    code.sta_ind_y(CSP);
}

fn drop_pushed(code: &mut Assembler, count: u8)
    requires
        old(code)@.tidy(),
    ensures
        final(code)@.tidy(),
        final(code)@ == old(code)@.drop_pushed(count),
{
    code.clc();
    code.lda_zp(CSP);
    code.adc_imm(count);
    code.sta_zp(CSP);
    code.lda_zp(CSP + 1);
    code.adc_imm(0);
    code.sta_zp(CSP + 1);
}

/// `T0 = T0 relation T1`, as one or zero.
fn comparison(code: &mut Assembler, relation: Relation)
    requires
        old(code)@.tidy(),
    ensures
        final(code)@.tidy(),
        final(code)@ == old(code)@.comparison(relation),
        final(code)@.labels.len() == old(code)@.labels.len() + 3,
{
    let yes = code.label();
    let done = code.label();
    let no = code.label();
    match relation {
        Relation::Equal => {
            code.lda_zp(T0);
            code.cmp_zp(T1);
            code.branch(Cc::NotEqual, no);
            code.lda_zp(T0_HIGH);
            code.cmp_zp(T1_HIGH);
            code.branch(Cc::Equal, yes);
            code.bind(no);
        },
        Relation::Less => {
            code.lda_zp(T0_HIGH);
            code.cmp_zp(T1_HIGH);
            code.branch(Cc::NoCarry, yes);
            code.branch(Cc::NotEqual, no);
            code.lda_zp(T0);
            code.cmp_zp(T1);
            code.branch(Cc::NoCarry, yes);
            code.bind(no);
        },
    }
    set_pair(code, T0, 0);
    code.jmp(done);
    code.bind(yes);
    set_pair(code, T0, 1);
    code.bind(done);
}

fn reset(code: &mut Assembler, heap: u16)
    requires
        old(code)@.tidy(),
    ensures
        final(code)@.tidy(),
        final(code)@ == old(code)@.reset(heap),
{
    code.ldx_imm(0xFF);
    code.txs();
    set_pair(code, CSP, CSTACK_TOP);
    set_pair(code, FP, FRAMES_TOP);
    set_pair(code, HEAP, heap);
    code.jsr(Label(0));
    code.lda_zp(R0);
    code.jmp_abs(HOOK_EXIT);
}

/// How wide a class is held, which for anything unfixed is a word.
fn bits(class: Class) -> (bits: u16)
    ensures
        bits == width(class),
{
    match class {
        Class::Fixed { bits } => bits,
        _ => WORD_BITS,
    }
}

/// A byte distance, which is what the machine addresses in.
fn displacement(offset: Offset) -> (at: Option<u8>)
    ensures
        at is Some <==> indexable(offset),
        at matches Some(found) ==> found == distance(offset),
{
    let count: i64 = match offset {
        Offset::Bytes(count) => count as i64,
        Offset::Words(count) => count as i64 * WORD,
    };
    if 0 <= count && count <= 0xFF {
        Some(count as u8)
    } else {
        None
    }
}

impl Writer {
    fn give_slot(&mut self, program: &Program, value: ValueId)
        requires
            old(self)@.covers(program@),
            program@.known(value),
        ensures
            final(self)@.follows(old(self)@, program@),
            final(self)@ == old(self)@.give_slot(value),
    {
        if self.frame > 253 {
            self.code.fail();
        } else {
            self.source.set(value.index(), Source::Slot(self.frame));
            self.frame = self.frame + 2;
        }
    }

    fn give_slots(&mut self, program: &Program, values: Range)
        requires
            old(self)@.covers(program@),
            program@.wf(),
            values.within(program@.operands.len()),
        ensures
            final(self)@.follows(old(self)@, program@),
            final(self)@ == old(self)@.give_slots(program@.values(values), 0),
    {
        let list = program.values(values);
        proof {
            model::known_values(program@, values);
        }
        let mut at: usize = 0;
        while at < list.len()
            invariant
                at <= list@.len(),
                self@.follows(old(self)@, program@),
                forall|i: int| 0 <= i < list@.len() ==> program@.known(#[trigger] list@[i]),
                self@.give_slots(list@, at as int) == old(self)@.give_slots(list@, 0),
            decreases list@.len() - at,
        {
            self.give_slot(program, list[at]);
            at = at + 1;
        }
    }

    fn place(&mut self, program: &Program, op: Op, results: Range)
        requires
            old(self)@.covers(program@),
            program@.wf(),
            program@.op_fits(op, results),
        ensures
            final(self)@.follows(old(self)@, program@),
            final(self)@ == old(self)@.place(op, program@.values(results)),
    {
        proof {
            model::known_values(program@, results);
        }
        match op {
            Op::Constant { value, .. } => {
                let result = program.values(results)[0];
                self.source.set(result.index(), Source::Const(value));
            },
            Op::AddressOf(data) => {
                let result = program.values(results)[0];
                self.source.set(result.index(), Source::Addr(data));
            },
            _ => self.give_slots(program, results),
        }
    }

    fn write_slot(&mut self, program: &Program, value: ValueId, pair: u8)
        requires
            old(self)@.covers(program@),
            program@.known(value),
            pair < 255,
        ensures
            final(self)@.follows(old(self)@, program@),
            final(self)@ == old(self)@.write_slot(value, pair),
    {
        match self.source[value.index()] {
            Source::Slot(offset) => {
                self.code.ldy_imm(offset);
                self.code.lda_zp(pair);
                self.code.sta_ind_y(FP);
                self.code.iny();
                self.code.lda_zp(pair + 1);
                self.code.sta_ind_y(FP);
            },
            _ => self.code.fail(),
        }
    }
}

struct Lowering<'a> {
    program: &'a Program,
    data: u16,
}

impl View for Lowering<'_> {
    type V = Machine;

    closed spec fn view(&self) -> Machine {
        Machine { program: self.program@, data: self.data }
    }
}

impl Lowering<'_> {
    closed spec fn ready(&self) -> bool {
        self.program@.wf() && self.program@.data.len() <= 0xFFFF
    }

    fn plan_results(&self, out: &mut Writer, region: RegionId)
        requires
            self.ready(),
            old(out)@.covers(self@.program),
            region.0 < self@.program.regions.len(),
        ensures
            final(out)@.follows(old(out)@, self@.program),
            final(out)@ == self@.plan_results(old(out)@, region, 0),
    {
        let run = self.program.region(region).ops;
        let mut at: u32 = 0;
        proof {
            assert(self@.program.region_fits(self@.program.regions[region.0 as int]));
        }
        while at < run.len
            invariant
                self.ready(),
                at <= run.len,
                region.0 < self@.program.regions.len(),
                run == self@.program.region(region).ops,
                run.within(self@.program.ops.len()),
                out@.follows(old(out)@, self@.program),
                self@.plan_results(out@, region, at as int) == self@.plan_results(
                    old(out)@,
                    region,
                    0,
                ),
            decreases run.len - at,
        {
            let (op, results) = self.program.step(region, at);
            out.place(self.program, op, results);
            at = at + 1;
        }
    }

    fn plan(&self, out: &mut Writer, region: RegionId)
        requires
            self.ready(),
            old(out)@.covers(self@.program),
            region.0 < self@.program.regions.len(),
        ensures
            final(out)@.follows(old(out)@, self@.program),
            final(out)@ == self@.plan(old(out)@, region),
        decreases self@.program.rank(region),
    {
        let params = self.program.region(region).params;
        let run = self.program.region(region).ops;
        proof {
            assert(self@.program.region_fits(self@.program.regions[region.0 as int]));
        }
        out.give_slots(self.program, params);
        self.plan_results(out, region);
        let ghost planned = out@;
        let mut at: u32 = 0;
        while at < run.len
            invariant
                self.ready(),
                at <= run.len,
                region.0 < self@.program.regions.len(),
                run == self@.program.region(region).ops,
                run.within(self@.program.ops.len()),
                out@.follows(old(out)@, self@.program),
                self@.plan_nested(out@, region, at as int) == self@.plan_nested(planned, region, 0),
            decreases run.len - at,
        {
            let (op, results) = self.program.step(region, at);
            let ghost inner = model::children(op);
            proof {
                model::inside(self@.program, region, at as int);
            }
            match op {
                Op::If { then_region, else_region, .. } => {
                    assert(inner[0] == then_region && inner[1] == else_region);
                    self.plan(out, then_region);
                    self.plan(out, else_region);
                },
                Op::Loop { body, .. } => {
                    assert(inner[0] == body);
                    self.plan(out, body);
                },
                _ => {},
            }
            at = at + 1;
        }
    }

    fn address(&self, data: DataId) -> (at: u64)
        requires
            self.ready(),
            data.0 < self@.program.spans.len(),
        ensures
            at == self@.address(data),
    {
        assert(self@.program.span_fits(self@.program.spans[data.0 as int]));
        let span = self.program.datum(data);
        match span.origin {
            Origin::Data => self.data as u64 + span.start as u64,
            Origin::Globals => self.data as u64 + self.program.data().len() as u64
                + span.start as u64,
        }
    }

    fn read(&self, out: &mut Writer, pair: u8, value: ValueId)
        requires
            self.ready(),
            old(out)@.covers(self@.program),
            self@.program.known(value),
            pair < 255,
        ensures
            final(out)@.follows(old(out)@, self@.program),
            final(out)@ == self@.read(old(out)@, pair, value),
    {
        match out.source[value.index()] {
            Source::Const(word) => {
                if word <= 0xFFFF {
                    set_pair(&mut out.code, pair, word as u16);
                } else {
                    out.code.fail();
                }
            },
            Source::Addr(data) => {
                assert(out@.source[value.0 as int] == Source::Addr(data));
                let at: u64 = self.address(data);
                if at <= 0xFFFF {
                    set_pair(&mut out.code, pair, at as u16);
                } else {
                    out.code.fail();
                }
            },
            Source::Slot(offset) => {
                out.code.ldy_imm(offset);
                out.code.lda_ind_y(FP);
                out.code.sta_zp(pair);
                out.code.iny();
                out.code.lda_ind_y(FP);
                out.code.sta_zp(pair + 1);
            },
        }
    }

    fn pair(&self, out: &mut Writer, left: ValueId, right: ValueId)
        requires
            self.ready(),
            old(out)@.covers(self@.program),
            self@.program.known(left),
            self@.program.known(right),
        ensures
            final(out)@.follows(old(out)@, self@.program),
            final(out)@ == self@.pair(old(out)@, left, right),
    {
        self.read(out, T0, left);
        self.read(out, T1, right);
    }

    fn take_args(&self, out: &mut Writer, params: Range)
        requires
            self.ready(),
            old(out)@.covers(self@.program),
            params.within(self@.program.operands.len()),
        ensures
            final(out)@.follows(old(out)@, self@.program),
            final(out)@ == self@.take_args(old(out)@, self@.program.values(params), 0),
    {
        let list = self.program.values(params);
        proof {
            model::known_values(self@.program, params);
        }
        let mut at: usize = 0;
        while at < list.len()
            invariant
                self.ready(),
                list@ == self@.program.values(params),
                at <= list@.len(),
                at <= 120,
                forall|i: int| 0 <= i < list@.len() ==> self@.program.known(#[trigger] list@[i]),
                out@.follows(old(out)@, self@.program),
                self@.take_args(out@, list@, at as int) == self@.take_args(old(out)@, list@, 0),
            decreases list@.len() - at,
        {
            if at >= 120 {
                out.code.fail();
                return;
            }
            out.write_slot(self.program, list[at], ARGS + 2 * at as u8);
            at = at + 1;
        }
    }

    fn call(&self, out: &mut Writer, function: FunctionId, args: Range, results: Range)
        requires
            self.ready(),
            old(out)@.covers(self@.program),
            args.within(self@.program.operands.len()),
            results.within(self@.program.operands.len()),
        ensures
            final(out)@.follows(old(out)@, self@.program),
            final(out)@ == self@.call(
                old(out)@,
                function,
                self@.program.values(args),
                self@.program.values(results),
            ),
    {
        let list = self.program.values(args);
        proof {
            model::known_values(self@.program, args);
            model::known_values(self@.program, results);
        }
        let mut at: usize = 0;
        let mut refused = false;
        while at < list.len() && !refused
            invariant
                self.ready(),
                at <= list@.len(),
                at <= ARG_COUNT,
                forall|i: int| 0 <= i < list@.len() ==> self@.program.known(#[trigger] list@[i]),
                out@.follows(old(out)@, self@.program),
                refused ==> out@ == self@.pass_args(old(out)@, list@, 0),
                !refused ==> self@.pass_args(out@, list@, at as int) == self@.pass_args(
                    old(out)@,
                    list@,
                    0,
                ),
            decreases list@.len() - at, (if refused { 0int } else { 1int }),
        {
            if at >= ARG_COUNT as usize {
                out.code.fail();
                refused = true;
            } else {
                self.read(out, ARGS + 2 * at as u8, list[at]);
                at = at + 1;
            }
        }
        out.code.jsr(Label(function.index()));
        if results.len() > 0 {
            let result = self.program.values(results)[0];
            out.write_slot(self.program, result, R0);
        }
    }

    fn convert(&self, out: &mut Writer, class: Class, value: ValueId, result: ValueId)
        requires
            self.ready(),
            old(out)@.covers(self@.program),
            self@.program.known(value),
            self@.program.known(result),
        ensures
            final(out)@.follows(old(out)@, self@.program),
            final(out)@ == self@.convert(old(out)@, class, value, result),
    {
        self.read(out, T0, value);
        let own: u16 = bits(self.program.class(value));
        let wanted: u16 = bits(class);
        let kept: u16 = if wanted < own {
            wanted
        } else {
            own
        };
        if kept <= 8 {
            out.code.lda_imm(0);
            out.code.sta_zp(T0_HIGH);
        }
        mask(&mut out.code, kept);
        out.write_slot(self.program, result, T0);
    }

    fn transfer(&self, out: &mut Writer, sources: Range, destinations: Range)
        requires
            self.ready(),
            old(out)@.covers(self@.program),
            sources.within(self@.program.operands.len()),
            destinations.within(self@.program.operands.len()),
        ensures
            final(out)@.follows(old(out)@, self@.program),
            final(out)@ == self@.transfer(
                old(out)@,
                self@.program.values(sources),
                self@.program.values(destinations),
            ),
    {
        if sources.len() > 2 {
            out.code.fail();
            return;
        }
        let from = self.program.values(sources);
        let to = self.program.values(destinations);
        proof {
            model::known_values(self@.program, sources);
            model::known_values(self@.program, destinations);
        }
        let mut at: usize = 0;
        while at < from.len()
            invariant
                self.ready(),
                at <= from@.len(),
                forall|i: int| 0 <= i < from@.len() ==> self@.program.known(#[trigger] from@[i]),
                out@.follows(old(out)@, self@.program),
                self@.read_moved(out@, from@, at as int) == self@.read_moved(old(out)@, from@, 0),
            decreases from@.len() - at,
        {
            let pair: u8 = if at == 0 {
                T0
            } else {
                T1
            };
            self.read(out, pair, from[at]);
            at = at + 1;
        }
        let ghost held = out@;
        at = 0;
        while at < to.len()
            invariant
                self.ready(),
                at <= to@.len(),
                forall|i: int| 0 <= i < to@.len() ==> self@.program.known(#[trigger] to@[i]),
                out@.follows(old(out)@, self@.program),
                self@.write_moved(out@, to@, at as int) == self@.write_moved(held, to@, 0),
            decreases to@.len() - at,
        {
            let pair: u8 = if at == 0 {
                T0
            } else {
                T1
            };
            out.write_slot(self.program, to[at], pair);
            at = at + 1;
        }
    }

    fn load_at(
        &self,
        out: &mut Writer,
        width: Width,
        address: ValueId,
        offset: Offset,
        result: ValueId,
    )
        requires
            self.ready(),
            old(out)@.covers(self@.program),
            self@.program.known(address),
            self@.program.known(result),
        ensures
            final(out)@.follows(old(out)@, self@.program),
            final(out)@ == self@.load_at(old(out)@, width, address, offset, result),
    {
        self.read(out, PTR, address);
        match displacement(offset) {
            Some(at) => {
                out.code.ldy_imm(at);
                out.code.lda_ind_y(PTR);
                out.code.sta_zp(T0);
                match width {
                    Width::Byte => out.code.lda_imm(0),
                    Width::Word => {
                        out.code.iny();
                        out.code.lda_ind_y(PTR);
                    },
                }
                out.code.sta_zp(T0_HIGH);
                out.write_slot(self.program, result, T0);
            },
            None => out.code.fail(),
        }
    }

    fn store_at(
        &self,
        out: &mut Writer,
        width: Width,
        address: ValueId,
        offset: Offset,
        value: ValueId,
    )
        requires
            self.ready(),
            old(out)@.covers(self@.program),
            self@.program.known(address),
            self@.program.known(value),
        ensures
            final(out)@.follows(old(out)@, self@.program),
            final(out)@ == self@.store_at(old(out)@, width, address, offset, value),
    {
        self.read(out, T0, value);
        self.read(out, PTR, address);
        match displacement(offset) {
            Some(at) => {
                out.code.ldy_imm(at);
                out.code.lda_zp(T0);
                out.code.sta_ind_y(PTR);
                match width {
                    Width::Byte => {},
                    Width::Word => {
                        out.code.iny();
                        out.code.lda_zp(T0_HIGH);
                        out.code.sta_ind_y(PTR);
                    },
                }
            },
            None => out.code.fail(),
        }
    }

    fn write(&self, out: &mut Writer, args: Range)
        requires
            self.ready(),
            old(out)@.covers(self@.program),
            args.within(self@.program.operands.len()),
        ensures
            final(out)@.follows(old(out)@, self@.program),
            final(out)@ == self@.write(old(out)@, self@.program.values(args)),
    {
        let list = self.program.values(args);
        proof {
            model::known_values(self@.program, args);
        }
        if list.len() < 2 {
            out.code.fail();
            return;
        }
        set_pair(&mut out.code, T1, 1);
        push_pair(&mut out.code, T1);
        self.read(out, T1, list[0]);
        push_pair(&mut out.code, T1);
        self.read(out, T0, list[1]);
        out.code.ldx_zp(T0_HIGH);
        out.code.lda_zp(T0);
        out.code.jsr_abs(HOOK_WRITE);
        drop_pushed(&mut out.code, 4);
    }

    fn exit(&self, out: &mut Writer, args: Range)
        requires
            self.ready(),
            old(out)@.covers(self@.program),
            args.within(self@.program.operands.len()),
        ensures
            final(out)@.follows(old(out)@, self@.program),
            final(out)@ == self@.exit(old(out)@, self@.program.values(args)),
    {
        let list = self.program.values(args);
        proof {
            model::known_values(self@.program, args);
        }
        if list.len() < 1 {
            out.code.fail();
            return;
        }
        self.read(out, T0, list[0]);
        out.code.lda_zp(T0);
        out.code.jmp_abs(HOOK_EXIT);
    }

    fn grow(&self, out: &mut Writer, args: Range, results: Range)
        requires
            self.ready(),
            old(out)@.covers(self@.program),
            args.within(self@.program.operands.len()),
            results.within(self@.program.operands.len()),
        ensures
            final(out)@.follows(old(out)@, self@.program),
            final(out)@ == self@.grow(
                old(out)@,
                self@.program.values(args),
                self@.program.values(results),
            ),
    {
        let list = self.program.values(args);
        let answers = self.program.values(results);
        proof {
            model::known_values(self@.program, args);
            model::known_values(self@.program, results);
        }
        if list.len() < 1 || answers.len() < 1 {
            out.code.fail();
            return;
        }
        self.read(out, T0, list[0]);
        out.code.lda_zp(HEAP);
        out.code.sta_zp(T1);
        out.code.lda_zp(HEAP + 1);
        out.code.sta_zp(T1_HIGH);

        out.code.clc();
        out.code.lda_zp(HEAP);
        out.code.adc_zp(T0);
        out.code.sta_zp(HEAP);
        out.code.lda_zp(HEAP + 1);
        out.code.adc_zp(T0_HIGH);
        out.code.sta_zp(HEAP + 1);

        out.write_slot(self.program, answers[0], T1);
    }

    fn platform_call(&self, out: &mut Writer, platform: PlatformId, args: Range, results: Range)
        requires
            self.ready(),
            old(out)@.covers(self@.program),
            platform.0 < self@.program.platform.len(),
            args.within(self@.program.operands.len()),
            results.within(self@.program.operands.len()),
        ensures
            final(out)@.follows(old(out)@, self@.program),
            final(out)@ == self@.platform_call(
                old(out)@,
                platform,
                self@.program.values(args),
                self@.program.values(results),
            ),
    {
        proof {
            assert(self@.program.platform_fits(self@.program.platform[platform.0 as int]));
        }
        let name = self.program.name(self.program.platforms()[platform.index()].name);
        if same(name, "write") {
            self.write(out, args);
        } else if same(name, "exit") {
            self.exit(out, args);
        } else if same(name, "grow") {
            self.grow(out, args, results);
        } else {
            out.code.fail();
        }
    }

    fn simple(&self, out: &mut Writer, op: Op, results: Range)
        requires
            self.ready(),
            old(out)@.covers(self@.program),
            self@.program.op_fits(op, results),
        ensures
            final(out)@.follows(old(out)@, self@.program),
            final(out)@ == self@.simple(old(out)@, op, self@.program.values(results)),
    {
        let list = self.program.values(results);
        proof {
            model::known_values(self@.program, results);
        }
        match op {
            Op::Binary { op, left, right } => {
                self.pair(out, left, right);
                let width: u16 = bits(self.program.class(list[0]));
                arithmetic(&mut out.code, op, width <= 8);
                mask(&mut out.code, width);
                out.write_slot(self.program, list[0], T0);
            },
            Op::Compare { relation, left, right } => {
                self.pair(out, left, right);
                comparison(&mut out.code, relation);
                out.write_slot(self.program, list[0], T0);
            },
            Op::Load { width, address, offset } => {
                self.load_at(out, width, address, offset, list[0]);
            },
            Op::Store { width, address, offset, value } => {
                self.store_at(out, width, address, offset, value);
            },
            Op::Convert { class, value } => self.convert(out, class, value, list[0]),
            Op::PlatformCall { platform, args } => {
                self.platform_call(out, platform, args, results);
            },
            Op::Call { function, args } => self.call(out, function, args, results),
            _ => {},
        }
    }

    fn terminator(&self, out: &mut Writer, around: Around, end: Terminator)
        requires
            self.ready(),
            old(out)@.covers(self@.program),
            end.values.within(self@.program.operands.len()),
            around_fits(self@.program, around, old(out)@),
        ensures
            final(out)@.follows(old(out)@, self@.program),
            final(out)@ == self@.terminator(old(out)@, around, end),
    {
        match end.exit {
            Exit::Yield => match around.branch {
                Some((results, after)) => {
                    self.transfer(out, end.values, results);
                    out.code.jmp(after);
                },
                None => out.code.fail(),
            },
            Exit::Continue => match around.repeat {
                Some((params, head, _, _)) => {
                    self.transfer(out, end.values, params);
                    out.code.jmp(head);
                },
                None => out.code.fail(),
            },
            Exit::Break => match around.repeat {
                Some((_, _, results, after)) => {
                    self.transfer(out, end.values, results);
                    out.code.jmp(after);
                },
                None => out.code.fail(),
            },
            Exit::Return => {
                if end.values.len() > 0 {
                    proof {
                        model::known_values(self@.program, end.values);
                    }
                    let value = self.program.values(end.values)[0];
                    self.read(out, R0, value);
                }
                if out.frame > 0 {
                    let frame: u8 = out.frame;
                    adjust_frame(&mut out.code, frame, false);
                }
                out.code.rts();
            },
            Exit::Unreachable => out.code.rts(),
        }
    }

    fn region(&self, out: &mut Writer, around: Around, region: RegionId)
        requires
            self.ready(),
            old(out)@.covers(self@.program),
            region.0 < self@.program.regions.len(),
            around_fits(self@.program, around, old(out)@),
        ensures
            final(out)@.follows(old(out)@, self@.program),
            final(out)@ == self@.region(old(out)@, around, region, 0),
        decreases self@.program.rank(region),
    {
        let run = self.program.region(region).ops;
        let mut at: u32 = 0;
        proof {
            assert(self@.program.region_fits(self@.program.regions[region.0 as int]));
        }
        while at < run.len
            invariant
                self.ready(),
                at <= run.len,
                region.0 < self@.program.regions.len(),
                run == self@.program.region(region).ops,
                run.within(self@.program.ops.len()),
                out@.follows(old(out)@, self@.program),
                around_fits(self@.program, around, out@),
                self@.region(out@, around, region, at as int) == self@.region(
                    old(out)@,
                    around,
                    region,
                    0,
                ),
            decreases run.len - at,
        {
            let (op, results) = self.program.step(region, at);
            let ghost inner = model::children(op);
            proof {
                model::inside(self@.program, region, at as int);
            }
            match op {
                Op::If { condition, then_region, else_region } => {
                    assert(inner[0] == then_region && inner[1] == else_region);
                    let otherwise = out.code.label();
                    let after = out.code.label();
                    self.read(out, T0, condition);
                    out.code.lda_zp(T0);
                    out.code.ora_zp(T0_HIGH);
                    out.code.branch(Cc::Equal, otherwise);
                    let within = Around { branch: Some((results, after)), repeat: around.repeat };
                    self.region(out, within, then_region);
                    out.code.bind(otherwise);
                    self.region(out, within, else_region);
                    out.code.bind(after);
                },
                Op::Loop { initial, body } => {
                    assert(inner[0] == body);
                    let head = out.code.label();
                    let after = out.code.label();
                    let params = self.program.region(body).params;
                    proof {
                        assert(self@.program.region_fits(
                            self@.program.regions[body.0 as int],
                        ));
                    }
                    self.transfer(out, initial, params);
                    out.code.bind(head);
                    let within = Around {
                        branch: around.branch,
                        repeat: Some((params, head, results, after)),
                    };
                    self.region(out, within, body);
                    out.code.bind(after);
                },
                _ => self.simple(out, op, results),
            }
            at = at + 1;
        }
        self.terminator(out, around, self.program.region(region).terminator);
    }

    fn function(&self, out: &mut Writer, id: FunctionId)
        requires
            self.ready(),
            old(out)@.covers(self@.program),
            id.0 < self@.program.functions.len(),
            self@.program.functions.len() <= old(out)@.code.labels.len(),
        ensures
            final(out)@.follows(old(out)@, self@.program),
            final(out)@ == self@.function(old(out)@, id),
    {
        proof {
            reveal(Machine::function);
            assert(self@.program.function_fits(self@.program.functions[id.0 as int]));
        }
        let function = self.program.functions()[id.index()];
        out.code.bind(Label(id.index()));
        out.frame = 0;
        self.plan(out, function.body);
        if out.frame > 0 {
            let frame: u8 = out.frame;
            adjust_frame(&mut out.code, frame, true);
        }
        self.take_args(out, function.params);
        self.region(out, Around { branch: None, repeat: None }, function.body);
    }
}

/// Whether what surrounds a region names values and labels that exist.
closed spec fn around_fits(program: Parts, around: Around, work: Work) -> bool {
    &&& around.branch matches Some((results, after)) ==> results.within(program.operands.len())
        && after.0 < work.code.labels.len()
    &&& around.repeat matches Some((params, head, results, after)) ==> params.within(
        program.operands.len(),
    ) && results.within(program.operands.len()) && head.0 < work.code.labels.len() && after.0
        < work.code.labels.len()
}

/// Where the code of a program begins: past its data.
pub open spec fn origin(program: Parts) -> nat {
    LOAD as nat + program.data.len() + program.globals.len()
}

/// A program's code with holes in it, for a heap that begins at `heap` and
/// branches some of which are known not to reach.
#[verifier::opaque]
pub open spec fn assembled(program: Parts, heap: u16, far: Seq<bool>) -> Listing {
    let machine = Machine { program, data: LOAD };
    let code = with_starts(
        Listing::start(origin(program) as u16, far),
        program.functions.len(),
    ).reset(heap);
    let work = Work {
        code,
        source: Seq::new(program.classes.len(), |i: int| Source::Slot(0)),
        frame: 0,
    };
    machine.functions(work, program.functions.len() as int).code
}

/// How many of the first `count` branches are not known to be far.
pub open spec fn unlengthened(far: Seq<bool>, count: nat) -> nat
    decreases count,
{
    if count == 0 {
        0
    } else {
        let last = count - 1;
        unlengthened(far, last as nat) + if last < far.len() && far[last] {
            0nat
        } else {
            1nat
        }
    }
}

/// One past the highest branch, of the first `count`.
pub open spec fn widest(branches: Seq<nat>, count: int) -> nat
    decreases count,
{
    if count <= 0 {
        0
    } else {
        let below = widest(branches, count - 1);
        if branches[count - 1] + 1 > below {
            branches[count - 1] + 1
        } else {
            below
        }
    }
}

/// With `branches` known not to reach either.
pub open spec fn lengthened(far: Seq<bool>, branches: Seq<nat>) -> Seq<bool> {
    let reach = widest(branches, branches.len() as int);
    let count = if reach > far.len() {
        reach
    } else {
        far.len()
    };
    Seq::new(count, |i: int| (i < far.len() && far[i]) || branches.contains(i as nat))
}

/// Assembled until nothing changes. Two things are only knowable once the
/// addresses are: which branches reach their target in two bytes, and where
/// the image ends, since with no kernel and no mapping the heap is whatever
/// address space the image does not occupy. Lengthening a branch can push
/// another out of reach, so this repeats rather than assuming one pass.
pub open spec fn settled(program: Parts, heap: u16, far: Seq<bool>) -> Option<Seq<u8>>
    decreases unlengthened(far, 0x1_0000), 0xFFFF - heap,
{
    let code = assembled(program, heap, far);
    let end = origin(program) + code.finished().len();
    if origin(program) > 0xFFFF || program.functions.len() > u32::MAX || code.failed
        || !code.closes() {
        None
    } else if code.short().len() > 0 {
        let more = lengthened(far, code.short());
        if unlengthened(more, 0x1_0000) < unlengthened(far, 0x1_0000) {
            settled(program, heap, more)
        } else {
            None
        }
    } else if end > 0xFFFF {
        None
    } else if end <= heap {
        Some(code.finished())
    } else {
        settled(program, end as u16, far)
    }
}

/// Code has settled when it was assembled for a heap past its own end, with
/// every branch that is short reaching its target.
pub proof fn settled_code_fits_its_own_addresses(program: Parts, heap: u16, far: Seq<bool>)
    requires
        settled(program, heap, far) is Some,
    ensures
        exists|last: u16, lengths: Seq<bool>|
            {
                let code = #[trigger] assembled(program, last, lengths);
                &&& settled(program, heap, far) == Some(code.finished())
                &&& !code.failed
                &&& code.closes()
                &&& code.short().len() == 0
                &&& origin(program) + code.finished().len() <= last
            },
    decreases unlengthened(far, 0x1_0000), 0xFFFF - heap,
{
    let code = assembled(program, heap, far);
    let end = origin(program) + code.finished().len();
    if code.short().len() > 0 {
        settled_code_fits_its_own_addresses(program, heap, lengthened(far, code.short()));
    } else if end > heap {
        settled_code_fits_its_own_addresses(program, end as u16, far);
    }
}

/// Marking a branch far that was not leaves fewer that are not.
proof fn lengthening_progresses(far: Seq<bool>, branches: Seq<nat>, branch: nat, count: nat)
    requires
        branches.contains(branch),
        !(branch < far.len() && far[branch as int]),
    ensures
        unlengthened(lengthened(far, branches), count) <= unlengthened(far, count),
        branch < count ==> unlengthened(lengthened(far, branches), count) < unlengthened(
            far,
            count,
        ),
    decreases count,
{
    if count > 0 {
        let last = (count - 1) as nat;
        lengthening_progresses(far, branches, branch, last);
        let more = lengthened(far, branches);
        if last == branch {
            let i = choose|i: int| 0 <= i < branches.len() && branches[i] == branch;
            widest_is_past(branches, branches.len() as int, i);
            assert(more[last as int]);
        } else if last < far.len() && far[last as int] {
            assert(more[last as int]);
        }
    }
}

proof fn widest_is_past(branches: Seq<nat>, count: int, i: int)
    requires
        0 <= i < count <= branches.len(),
    ensures
        branches[i] < widest(branches, count),
    decreases count,
{
    if i < count - 1 {
        widest_is_past(branches, count - 1, i);
    }
}

/// A branch that does not reach was not known to be far, and its number is
/// no more than its place.
proof fn a_short_branch_was_near(code: Listing, count: int)
    requires
        code.tidy(),
        code.closes(),
        0 <= count <= code.near.len(),
    ensures
        forall|i: int|
            0 <= i < code.overflowed(count).len() ==> #[trigger] code.overflowed(count)[i]
                < 0x1_0000 && !code.is_far(code.overflowed(count)[i]),
    decreases count,
{
    if count > 0 {
        a_short_branch_was_near(code, count - 1);
        let near = code.near[count - 1];
        let before = code.overflowed(count - 1);
        assert(near.2 <= near.0 && !code.is_far(near.2));
        assert forall|i: int| 0 <= i < code.overflowed(count).len() implies
            #[trigger] code.overflowed(count)[i] < 0x1_0000 && !code.is_far(
            code.overflowed(count)[i],
        ) by {
            if i < before.len() {
                assert(code.overflowed(count)[i] == before[i]);
            } else {
                assert(code.overflowed(count)[i] == near.2);
            }
        }
    }
}

fn lengthen(far: &Vec<bool>, branches: &Vec<usize>) -> (more: Vec<bool>)
    requires
        forall|i: int| 0 <= i < branches@.len() ==> (#[trigger] branches@[i]) < 0x1_0000,
    ensures
        more@ == lengthened(far@, branches@.map_values(|branch: usize| branch as nat)),
{
    let ghost numbers = branches@.map_values(|branch: usize| branch as nat);
    let mut reach: usize = 0;
    let mut at: usize = 0;
    while at < branches.len()
        invariant
            at <= branches@.len(),
            numbers == branches@.map_values(|branch: usize| branch as nat),
            forall|i: int| 0 <= i < branches@.len() ==> (#[trigger] branches@[i]) < 0x1_0000,
            reach == widest(numbers, at as int),
            forall|i: int| 0 <= i < at ==> #[trigger] branches@[i] < reach,
        decreases branches@.len() - at,
    {
        if branches[at] + 1 > reach {
            reach = branches[at] + 1;
        }
        at = at + 1;
    }
    let mut more: Vec<bool> = vstd::slice::slice_to_vec(far.as_slice());
    while more.len() < reach
        invariant
            far@.len() <= more@.len(),
            more@.len() <= (if reach > far@.len() {
                reach as nat
            } else {
                far@.len()
            }),
            forall|i: int| 0 <= i < more@.len() ==> #[trigger] more@[i] == (i < far@.len() && far@[i]),
        decreases reach - more@.len(),
    {
        more.push(false);
    }
    at = 0;
    while at < branches.len()
        invariant
            at <= branches@.len(),
            forall|i: int| 0 <= i < branches@.len() ==> #[trigger] branches@[i] < reach,
            more@.len() == (if reach > far@.len() {
                reach as nat
            } else {
                far@.len()
            }),
            forall|i: int|
                0 <= i < more@.len() ==> #[trigger] more@[i] == ((i < far@.len() && far@[i])
                    || marked(branches@, at as int, i)),
        decreases branches@.len() - at,
    {
        let ghost before = more@;
        more.set(branches[at], true);
        proof {
            assert forall|i: int| 0 <= i < more@.len() implies #[trigger] more@[i] == ((i
                < far@.len() && far@[i]) || marked(branches@, at + 1, i)) by {
                if i == branches@[at as int] {
                    assert(marked(branches@, at + 1, i));
                } else {
                    assert(more@[i] == before[i]);
                    if marked(branches@, at + 1, i) {
                        let j = choose|j: int|
                            0 <= j < at + 1 && #[trigger] branches@[j] as int == i;
                        assert(j < at);
                    }
                }
            }
        }
        at = at + 1;
    }
    proof {
        assert forall|i: int| 0 <= i < more@.len() implies #[trigger] more@[i] == ((i < far@.len()
            && far@[i]) || numbers.contains(i as nat)) by {
            if marked(branches@, at as int, i) {
                let j = choose|j: int| 0 <= j < at && #[trigger] branches@[j] as int == i;
                assert(numbers[j] == i as nat);
            }
            if numbers.contains(i as nat) {
                let j = choose|j: int| 0 <= j < numbers.len() && numbers[j] == i as nat;
                assert(branches@[j] as int == i);
            }
        }
        assert(more@ =~= lengthened(far@, numbers));
    }
    more
}

/// Whether `i` is one of the first `count` branches.
spec fn marked(branches: Seq<usize>, count: int, i: int) -> bool {
    exists|j: int| 0 <= j < count && #[trigger] branches[j] as int == i
}

fn assemble(program: &Program, heap: u16, far: Vec<bool>) -> (code: Assembler)
    requires
        program@.wf(),
        origin(program@) <= 0xFFFF,
        program@.functions.len() <= u32::MAX,
    ensures
        code@.tidy(),
        code@.far == far@,
        code@ == assembled(program@, heap, far@),
{
    // The data sits at the front of the image and the code after it, so the
    // code's own addresses depend on how much data there is.
    reveal(assembled);
    let blob: usize = program.data().len() + program.globals().len();
    let start: u16 = LOAD + blob as u16;
    let mut code = Assembler::new(start, far);
    let functions: usize = program.functions().len();
    let mut at: usize = 0;
    assert(code@ =~= with_starts(Listing::start(start, far@), 0));
    while at < functions
        invariant
            at <= functions,
            code@.tidy(),
            code@ == with_starts(Listing::start(start, far@), at as nat),
        decreases functions - at,
    {
        code.label();
        at = at + 1;
        assert(code@ =~= with_starts(Listing::start(start, far@), at as nat));
    }
    reset(&mut code, heap);
    let mut source: Vec<Source> = Vec::new();
    while source.len() < program.values_count()
        invariant
            source@.len() <= program@.classes.len(),
            forall|v: int| 0 <= v < source@.len() ==> #[trigger] source@[v] == Source::Slot(0),
        decreases program@.classes.len() - source@.len(),
    {
        source.push(Source::Slot(0));
    }
    let mut out = Writer { code, source, frame: 0 };
    let lowering = Lowering { program, data: LOAD };
    let ghost machine = Machine { program: program@, data: LOAD };
    let ghost begun = Work {
        code: with_starts(
            Listing::start(origin(program@) as u16, far@),
            program@.functions.len(),
        ).reset(heap),
        source: Seq::new(program@.classes.len(), |i: int| Source::Slot(0)),
        frame: 0,
    };
    assert(out@ =~= begun);
    at = 0;
    while at < functions
        invariant
            at <= functions,
            functions == program@.functions.len(),
            functions <= u32::MAX,
            out@.code.far == far@,
            lowering.ready(),
            lowering@ == machine,
            machine.program == program@,
            out@.covers(program@),
            functions <= out@.code.labels.len(),
            out@ == machine.functions(begun, at as int),
        decreases functions - at,
    {
        lowering.function(&mut out, FunctionId::at(at));
        at = at + 1;
    }
    out.code
}

/// The code of a program, or `None` where it asks for what this target does
/// not have.
pub fn attempt(program: &Program) -> (code: Option<Code>)
    requires
        program@.wf(),
    ensures
        match settled(program@, LOAD, seq![]) {
            Some(bytes) => code matches Some(found) && found.bytes@ == bytes && found.reset
                == origin(program@),
            None => code is None,
        },
{
    let most: usize = (0xFFFF - LOAD) as usize;
    if program.data().len() > most || program.globals().len() > most - program.data().len()
        || program.functions().len() > u32::MAX as usize {
        return None;
    }
    let start: u16 = LOAD + (program.data().len() + program.globals().len()) as u16;
    let mut far: Vec<bool> = Vec::new();
    let mut heap: u16 = LOAD;
    assert(far@ =~= seq![]);
    loop
        invariant
            program@.wf(),
            start == origin(program@),
            program@.functions.len() <= u32::MAX,
            settled(program@, heap, far@) == settled(program@, LOAD, seq![]),
        decreases unlengthened(far@, 0x1_0000), 0xFFFF - heap,
    {
        let known = vstd::slice::slice_to_vec(far.as_slice());
        let code = assemble(program, heap, known);
        let ghost listing = code@;
        if code.failed() {
            return None;
        }
        match code.finish() {
            None => {
                return None;
            },
            Some((bytes, overflowed)) => {
                if overflowed.len() > 0 {
                    let ghost numbers = overflowed@.map_values(|branch: usize| branch as nat);
                    proof {
                        a_short_branch_was_near(listing, listing.near.len() as int);
                        assert forall|i: int| 0 <= i < overflowed@.len() implies (
                        #[trigger] overflowed@[i]) < 0x1_0000 by {
                            assert(numbers[i] < 0x1_0000);
                        }
                        assert(numbers.contains(numbers[0]));
                        lengthening_progresses(far@, numbers, numbers[0], 0x1_0000);
                    }
                    far = lengthen(&far, &overflowed);
                } else {
                    if bytes.len() > (0xFFFF - start) as usize {
                        return None;
                    }
                    let end: u16 = start + bytes.len() as u16;
                    if end <= heap {
                        return Some(Code { bytes, reset: start });
                    }
                    heap = end;
                }
            },
        }
    }
}

} // verus!
