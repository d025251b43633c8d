//! The data model: operations, regions, declarations, and the pools they
//! live in.

use super::Program;
pub use crate::pool::Range;
use crate::pool::NameTable;
use vstd::prelude::*;

verus! {

/// A value, by the order it was minted in.
#[derive(Clone, Copy, Debug, PartialEq, Eq, PartialOrd, Ord, Hash, Structural)]
pub struct ValueId(pub u32);

impl ValueId {
    /// The one at `index`, of the four billion a program may have.
    pub fn at(index: usize) -> (id: Self)
        requires
            index <= u32::MAX,
        ensures
            id.0 == index,
    {
        Self(index as u32)
    }

    pub fn index(self) -> (index: usize)
        ensures
            index == self.0,
    {
        self.0 as usize
    }
}

/// A datum.
#[derive(Clone, Copy, Debug, PartialEq, Eq, PartialOrd, Ord, Hash, Structural)]
pub struct DataId(pub u32);

impl DataId {
    /// The one at `index`, of the four billion a program may have.
    pub fn at(index: usize) -> (id: Self)
        requires
            index <= u32::MAX,
        ensures
            id.0 == index,
    {
        Self(index as u32)
    }

    pub fn index(self) -> (index: usize)
        ensures
            index == self.0,
    {
        self.0 as usize
    }
}

/// A function.
#[derive(Clone, Copy, Debug, PartialEq, Eq, PartialOrd, Ord, Hash, Structural)]
pub struct FunctionId(pub u32);

impl FunctionId {
    /// The one at `index`, of the four billion a program may have.
    pub fn at(index: usize) -> (id: Self)
        requires
            index <= u32::MAX,
        ensures
            id.0 == index,
    {
        Self(index as u32)
    }

    pub fn index(self) -> (index: usize)
        ensures
            index == self.0,
    {
        self.0 as usize
    }
}

/// A platform routine.
#[derive(Clone, Copy, Debug, PartialEq, Eq, PartialOrd, Ord, Hash, Structural)]
pub struct PlatformId(pub u32);

impl PlatformId {
    /// The one at `index`, of the four billion a program may have.
    pub fn at(index: usize) -> (id: Self)
        requires
            index <= u32::MAX,
        ensures
            id.0 == index,
    {
        Self(index as u32)
    }

    pub fn index(self) -> (index: usize)
        ensures
            index == self.0,
    {
        self.0 as usize
    }
}

/// A region.
#[derive(Clone, Copy, Debug, PartialEq, Eq, PartialOrd, Ord, Hash, Structural)]
pub struct RegionId(pub u32);

impl RegionId {
    /// The one at `index`, of the four billion a program may have.
    pub fn at(index: usize) -> (id: Self)
        requires
            index <= u32::MAX,
        ensures
            id.0 == index,
    {
        Self(index as u32)
    }

    pub fn index(self) -> (index: usize)
        ensures
            index == self.0,
    {
        self.0 as usize
    }
}

/// An instruction.
#[derive(Clone, Copy, Debug, PartialEq, Eq, PartialOrd, Ord, Hash, Structural)]
pub struct OpId(pub u32);

impl OpId {
    /// The one at `index`, of the four billion a program may have.
    pub fn at(index: usize) -> (id: Self)
        requires
            index <= u32::MAX,
        ensures
            id.0 == index,
    {
        Self(index as u32)
    }

    pub fn index(self) -> (index: usize)
        ensures
            index == self.0,
    {
        self.0 as usize
    }
}

/// A name, held as a run of characters in the program's own pool. The IR
/// never reads those characters: names are compared and copied as integers,
/// and the text comes back only to render one.
#[derive(Clone, Copy, Debug, PartialEq, Eq, PartialOrd, Ord, Hash, Structural)]
pub struct Symbol(pub u32);

impl Symbol {
    /// The one at `index`, of the four billion a program may have.
    pub fn at(index: usize) -> (id: Self)
        requires
            index <= u32::MAX,
        ensures
            id.0 == index,
    {
        Self(index as u32)
    }

    pub fn index(self) -> (index: usize)
        ensures
            index == self.0,
    {
        self.0 as usize
    }
}

/// Which of a program's two regions a datum sits in.
///
/// They are kept apart so that a target may map what is only read
/// differently from what is written, and so that a program writing nothing
/// needs no writable region at all.
#[derive(Clone, Copy, Debug, PartialEq, Eq, Structural)]
pub enum Origin {
    Data,
    Globals,
}

/// Where a datum sits, and how long it is.
#[derive(Clone, Copy, Debug, PartialEq, Eq, Structural)]
pub struct Span {
    pub origin: Origin,
    pub start: u32,
    pub len: u32,
}

#[derive(Clone, Copy, Debug, PartialEq, Eq, Structural)]
pub enum Class {
    /// As wide as an address, whatever the target's is.
    Word,
    /// Arithmetic in Z/2^bits: wrapping is the meaning, not an overflow a
    /// target may or may not have. One wider than `bits` narrows after each
    /// operation, and one narrower writes no program that uses it.
    Fixed { bits: u16 },
    Address,
}

/// What a program cannot compute for itself. A target provides what it has
/// and rejects the rest by name.
#[derive(Clone, Copy, Debug, PartialEq, Eq, Structural)]
pub struct Platform {
    pub name: Symbol,
    pub params: Range,
    pub answers: Range,
}

#[derive(Clone, Copy, Debug, PartialEq, Eq, Structural)]
pub enum Binary {
    Add,
    Sub,
}

#[derive(Clone, Copy, Debug, PartialEq, Eq, Structural)]
pub enum Relation {
    Equal,
    /// Unsigned, like every comparison on a word.
    Less,
}

#[derive(Clone, Copy, Debug, PartialEq, Eq, Structural)]
pub enum Width {
    Byte,
    Word,
}

/// A distance from an address, in units the target scales. `Words` is how a
/// machine with a word narrower than 64 bits keeps its own stride.
#[derive(Clone, Copy, Debug, PartialEq, Eq, Structural)]
pub enum Offset {
    Bytes(i32),
    Words(i32),
}

#[allow(inconsistent_fields)]
#[derive(Clone, Copy, Debug, PartialEq, Eq, Structural)]
pub enum Op {
    Constant { class: Class, value: u64 },
    AddressOf(DataId),
    Binary { op: Binary, left: ValueId, right: ValueId },
    Compare { relation: Relation, left: ValueId, right: ValueId },
    Load { width: Width, address: ValueId, offset: Offset },
    Store { width: Width, address: ValueId, offset: Offset, value: ValueId },
    /// `value` read as `class`, which is the only place a width changes.
    /// Everything else works at the width its operands already have, so a
    /// target need not normalise after each operation.
    Convert { class: Class, value: ValueId },
    PlatformCall { platform: PlatformId, args: Range },
    Call { function: FunctionId, args: Range },
    If { condition: ValueId, then_region: RegionId, else_region: RegionId },
    /// Runs `body` with `initial`, then with whatever each `Continue`
    /// carries, until a `Break` leaves.
    Loop { initial: Range, body: RegionId },
}

#[derive(Clone, Copy, Debug, PartialEq, Eq, Structural)]
pub enum Exit {
    /// Leave the enclosing `if`, giving it its results.
    Yield,
    Continue,
    Break,
    Return,
    Unreachable,
}

#[derive(Clone, Copy, Debug, PartialEq, Eq, Structural)]
pub struct Terminator {
    pub exit: Exit,
    pub values: Range,
}

impl Terminator {
    /// The end of a region that nothing reaches.
    pub open spec fn nowhere() -> Self {
        Terminator { exit: Exit::Unreachable, values: Range { start: 0, len: 0 } }
    }

    /// The end of a region that nothing reaches.
    pub fn unreachable() -> (terminator: Self)
        ensures
            terminator == Terminator::nowhere(),
    {
        Terminator { exit: Exit::Unreachable, values: Range { start: 0, len: 0 } }
    }
}

#[derive(Clone, Copy, Debug, PartialEq, Eq, Structural)]
pub struct Region {
    pub params: Range,
    /// The instructions, contiguous, so that walking one is a scan.
    pub ops: Range,
    pub terminator: Terminator,
}

#[derive(Clone, Copy, Debug, PartialEq, Eq, Structural)]
pub struct Function {
    pub name: Symbol,
    /// The values its parameters are, minted with it.
    pub params: Range,
    pub answers: Range,
    pub body: RegionId,
}

/// What a [`Program`] holds.
#[verifier::ext_equal]
pub struct Parts {
    pub platform: Seq<Platform>,
    pub data: Seq<u8>,
    pub globals: Seq<u8>,
    pub spans: Seq<Span>,
    pub functions: Seq<Function>,
    pub classes: Seq<Class>,
    pub signature: Seq<Class>,
    pub ops: Seq<Op>,
    pub results: Seq<Range>,
    pub operands: Seq<ValueId>,
    pub regions: Seq<Region>,
    pub names: NameTable,
}

/// The regions an instruction holds.
pub open spec fn children(op: Op) -> Seq<RegionId> {
    match op {
        Op::If { then_region, else_region, .. } => seq![then_region, else_region],
        Op::Loop { body, .. } => seq![body],
        _ => seq![],
    }
}

impl Parts {
    pub open spec fn name(self, symbol: Symbol) -> Seq<char> {
        self.names.name(symbol.0 as int)
    }

    pub open spec fn values(self, run: Range) -> Seq<ValueId> {
        run.read(self.operands)
    }

    pub open spec fn class(self, value: ValueId) -> Class {
        self.classes[value.0 as int]
    }

    pub open spec fn region(self, region: RegionId) -> Region {
        self.regions[region.0 as int]
    }

    pub open spec fn datum(self, data: DataId) -> Span {
        self.spans[data.0 as int]
    }

    pub open spec fn function(self, function: FunctionId) -> Function {
        self.functions[function.0 as int]
    }

    pub open spec fn routine(self, platform: PlatformId) -> Platform {
        self.platform[platform.0 as int]
    }

    /// The instructions of a region.
    pub open spec fn region_ops(self, region: RegionId) -> Seq<Op> {
        self.region(region).ops.read(self.ops)
    }

    /// What each instruction of a region defines.
    pub open spec fn region_results(self, region: RegionId) -> Seq<Range> {
        self.region(region).ops.read(self.results)
    }

    /// Whether a region is what some function runs, rather than a part of
    /// another.
    pub open spec fn is_body(self, region: RegionId) -> bool {
        exists|f: int| 0 <= f < self.functions.len() && (#[trigger] self.functions[f]).body == region
    }

    /// How deep the regions inside one may go: more than for any of those.
    pub open spec fn rank(self, region: RegionId) -> nat {
        if self.is_body(region) {
            self.regions.len()
        } else {
            region.0 as nat
        }
    }

    /// Whether `child` may stand inside `region`.
    pub open spec fn nests(self, region: RegionId, child: RegionId) -> bool {
        &&& child.0 < self.regions.len()
        &&& !self.is_body(child)
        &&& self.is_body(region) || child.0 < region.0
    }

    pub open spec fn known(self, value: ValueId) -> bool {
        value.0 < self.classes.len()
    }

    /// Whether everything an instruction names exists.
    pub open spec fn names_only_what_exists(self, op: Op) -> bool {
        match op {
            Op::Constant { .. } => true,
            Op::AddressOf(data) => data.0 < self.spans.len(),
            Op::Binary { left, right, .. } => self.known(left) && self.known(right),
            Op::Compare { left, right, .. } => self.known(left) && self.known(right),
            Op::Load { address, .. } => self.known(address),
            Op::Store { address, value, .. } => self.known(address) && self.known(value),
            Op::Convert { value, .. } => self.known(value),
            Op::PlatformCall { platform, args } => platform.0 < self.platform.len() && args.within(
                self.operands.len(),
            ),
            Op::Call { function, args } => function.0 < self.functions.len() && args.within(
                self.operands.len(),
            ),
            Op::If { condition, then_region, else_region } => self.known(condition) && then_region.0
                < self.regions.len() && else_region.0 < self.regions.len(),
            Op::Loop { initial, body } => initial.within(self.operands.len()) && body.0
                < self.regions.len(),
        }
    }

    /// Whether `count` is how many values an instruction defines.
    pub open spec fn defines(self, op: Op, count: nat) -> bool {
        match op {
            Op::Store { .. } => count == 0,
            Op::PlatformCall { platform, .. } => count == self.routine(platform).answers.len,
            Op::Call { function, .. } => count == self.function(function).answers.len,
            Op::If { .. } => true,
            Op::Loop { .. } => true,
            _ => count == 1,
        }
    }

    /// An instruction that fits the program, with what it defines.
    pub open spec fn op_fits(self, op: Op, results: Range) -> bool {
        &&& self.names_only_what_exists(op)
        &&& results.within(self.operands.len())
        &&& self.defines(op, results.len as nat)
    }

    pub open spec fn region_fits(self, region: Region) -> bool {
        &&& region.params.within(self.operands.len())
        &&& region.ops.within(self.ops.len())
        &&& region.terminator.values.within(self.operands.len())
    }

    pub open spec fn function_fits(self, function: Function) -> bool {
        &&& function.name.0 < self.names.len()
        &&& function.params.within(self.operands.len())
        &&& function.answers.within(self.signature.len())
        &&& function.body.0 < self.regions.len()
    }

    pub open spec fn platform_fits(self, platform: Platform) -> bool {
        &&& platform.name.0 < self.names.len()
        &&& platform.params.within(self.signature.len())
        &&& platform.answers.within(self.signature.len())
    }

    pub open spec fn span_fits(self, span: Span) -> bool {
        match span.origin {
            Origin::Data => span.start + span.len <= self.data.len(),
            Origin::Globals => span.start + span.len <= self.globals.len(),
        }
    }

    /// Whether what a region holds stands inside it.
    pub open spec fn region_nests(self, region: RegionId) -> bool {
        forall|at: int, c: int|
            self.region(region).ops.start <= at < self.region(region).ops.start + self.region(
                region,
            ).ops.len && 0 <= c < children(self.ops[at]).len() ==> self.nests(
                region,
                #[trigger] children(self.ops[at])[c],
            )
    }

    /// Parts that refer to nothing they lack, with regions that nest.
    pub open spec fn fits(self) -> bool {
        &&& self.results.len() == self.ops.len()
        &&& self.names.fits()
        &&& forall|i: int| 0 <= i < self.operands.len() ==> self.known(#[trigger] self.operands[i])
        &&& forall|i: int|
            0 <= i < self.ops.len() ==> self.op_fits(#[trigger] self.ops[i], self.results[i])
        &&& forall|i: int|
            0 <= i < self.regions.len() ==> self.region_fits(#[trigger] self.regions[i])
        &&& forall|i: int|
            0 <= i < self.functions.len() ==> self.function_fits(#[trigger] self.functions[i])
        &&& forall|i: int|
            0 <= i < self.platform.len() ==> self.platform_fits(#[trigger] self.platform[i])
        &&& forall|i: int| 0 <= i < self.spans.len() ==> self.span_fits(#[trigger] self.spans[i])
        &&& forall|r: RegionId| r.0 < self.regions.len() ==> #[trigger] self.region_nests(r)
    }

    /// A program: parts that fit, among them an entry.
    pub open spec fn wf(self) -> bool {
        self.fits() && self.functions.len() > 0
    }

    /// Whether `count` more fit in every pool, of the four billion entries
    /// one may hold.
    pub open spec fn room(self, count: nat) -> bool {
        &&& self.platform.len() + count <= u32::MAX
        &&& self.data.len() + count <= u32::MAX
        &&& self.globals.len() + count <= u32::MAX
        &&& self.spans.len() + count <= u32::MAX
        &&& self.functions.len() + count <= u32::MAX
        &&& self.classes.len() + count <= u32::MAX
        &&& self.signature.len() + count <= u32::MAX
        &&& self.ops.len() + count <= u32::MAX
        &&& self.operands.len() + count <= u32::MAX
        &&& self.regions.len() + count <= u32::MAX
        &&& self.names.room(count)
    }
}

/// The regions inside a region are of lower rank, so that descending into
/// them ends.
pub proof fn nesting_descends(parts: Parts, region: RegionId, child: RegionId)
    requires
        parts.nests(region, child),
    ensures
        parts.rank(child) < parts.rank(region),
{
}

/// Every value a run names exists.
pub proof fn known_values(program: Parts, run: Range)
    requires
        program.wf(),
        run.within(program.operands.len()),
    ensures
        forall|i: int|
            0 <= i < program.values(run).len() ==> program.known(#[trigger] program.values(run)[i]),
{
    assert forall|i: int| 0 <= i < program.values(run).len() implies program.known(
        #[trigger] program.values(run)[i],
    ) by {
        assert(program.known(program.operands[run.start + i]));
    }
}

/// An instruction of a region fits the program, and what it holds stands
/// inside the region.
pub proof fn inside(program: Parts, region: RegionId, at: int)
    requires
        program.wf(),
        region.0 < program.regions.len(),
        0 <= at < program.region_ops(region).len(),
    ensures
        program.op_fits(program.region_ops(region)[at], program.region_results(region)[at]),
        forall|c: int|
            0 <= c < children(program.region_ops(region)[at]).len() ==> program.nests(
                region,
                #[trigger] children(program.region_ops(region)[at])[c],
            ),
{
    assert(program.region_fits(program.regions[region.0 as int]));
    let whole = program.region(region).ops.start + at;
    assert(program.op_fits(program.ops[whole], program.results[whole]));
    assert(program.region_nests(region));
    assert(program.region_ops(region)[at] == program.ops[whole]);
    assert forall|c: int| 0 <= c < children(program.region_ops(region)[at]).len() implies
        program.nests(region, #[trigger] children(program.region_ops(region)[at])[c]) by {
        assert(program.nests(region, children(program.ops[whole])[c]));
    }
}

impl Program {
    /// The classes a run of a signature names.
    pub fn signature(&self, range: Range) -> (classes: &[Class])
        requires
            range.within(self@.signature.len()),
        ensures
            classes@ == range.read(self@.signature),
    {
        range.slice(&self.signature)
    }

    /// The name a symbol stands for.
    pub fn name(&self, symbol: Symbol) -> (name: &str)
        requires
            self@.names.fits(),
            symbol.0 < self@.names.len(),
        ensures
            name@ == self@.name(symbol),
    {
        self.names.name(symbol.index())
    }

    pub fn values(&self, operands: Range) -> (values: &[ValueId])
        requires
            operands.within(self@.operands.len()),
        ensures
            values@ == self@.values(operands),
    {
        operands.slice(&self.operands)
    }

    pub fn ops(&self, region: RegionId) -> (ops: &[Op])
        requires
            self@.wf(),
            region.0 < self@.regions.len(),
        ensures
            ops@ == self@.region_ops(region),
    {
        let ops = self.regions[region.index()].ops;
        assert(self@.region_fits(self@.regions[region.0 as int]));
        ops.slice(&self.ops)
    }

    /// The instructions of a region, each with what it defines.
    pub fn walk(&self, region: RegionId) -> (steps: Vec<(Op, &[ValueId])>)
        requires
            self@.wf(),
            region.0 < self@.regions.len(),
        ensures
            steps@.len() == self@.region_ops(region).len(),
            forall|i: int|
                0 <= i < steps@.len() ==> (#[trigger] steps@[i]).0 == self@.region_ops(region)[i]
                    && steps@[i].1@ == self@.values(self@.region_results(region)[i]),
    {
        let ops = self.regions[region.index()].ops;
        assert(self@.region_fits(self@.regions[region.0 as int]));
        let start: usize = ops.start as usize;
        let mut steps: Vec<(Op, &[ValueId])> = Vec::new();
        let mut at: usize = 0;
        while at < ops.len()
            invariant
                self@.wf(),
                region.0 < self@.regions.len(),
                ops == self@.region(region).ops,
                ops.within(self@.ops.len()),
                start == ops.start,
                at <= ops.len,
                steps@.len() == at,
                forall|i: int|
                    0 <= i < steps@.len() ==> (#[trigger] steps@[i]).0 == self@.region_ops(region)[i]
                        && steps@[i].1@ == self@.values(self@.region_results(region)[i]),
            decreases ops.len - at,
        {
            assert(self@.op_fits(self@.ops[start + at], self@.results[start + at]));
            assert(start + at < self.ops.len());
            steps.push((self.ops[start + at], self.values(self.results[start + at])));
            at = at + 1;
        }
        steps
    }

    /// One instruction of a region, and the run of what it defines.
    pub fn step(&self, region: RegionId, at: u32) -> (step: (Op, Range))
        requires
            self@.wf(),
            region.0 < self@.regions.len(),
            at < self@.region(region).ops.len,
        ensures
            step.0 == self@.region_ops(region)[at as int],
            step.1 == self@.region_results(region)[at as int],
            self@.op_fits(step.0, step.1),
    {
        let ops = self.regions[region.index()].ops;
        assert(self@.region_fits(self@.regions[region.0 as int]));
        assert(ops.start + at < self.ops.len());
        let whole: usize = ops.start as usize + at as usize;
        assert(self@.op_fits(self@.ops[whole as int], self@.results[whole as int]));
        (self.ops[whole], self.results[whole])
    }

    pub fn region(&self, region: RegionId) -> (found: Region)
        requires
            region.0 < self@.regions.len(),
        ensures
            found == self@.region(region),
    {
        self.regions[region.index()]
    }

    pub fn platforms(&self) -> (platforms: &[Platform])
        ensures
            platforms@ == self@.platform,
    {
        self.platform.as_slice()
    }

    pub fn functions(&self) -> (functions: &[Function])
        ensures
            functions@ == self@.functions,
    {
        self.functions.as_slice()
    }

    /// Always the first, since [`Program::new`] declares it.
    pub fn entry(&self) -> (entry: FunctionId)
        ensures
            entry == FunctionId(0),
    {
        FunctionId(0)
    }

    pub fn data(&self) -> (data: &[u8])
        ensures
            data@ == self@.data,
    {
        self.data.as_slice()
    }

    pub fn globals(&self) -> (globals: &[u8])
        ensures
            globals@ == self@.globals,
    {
        self.globals.as_slice()
    }

    pub fn has_datum(&self, data: DataId) -> (has: bool)
        ensures
            has == (data.0 < self@.spans.len()),
    {
        data.index() < self.spans.len()
    }

    pub fn datum(&self, data: DataId) -> (span: Span)
        requires
            data.0 < self@.spans.len(),
        ensures
            span == self@.datum(data),
    {
        self.spans[data.index()]
    }

    pub fn class(&self, value: ValueId) -> (class: Class)
        requires
            self@.known(value),
        ensures
            class == self@.class(value),
    {
        self.classes[value.index()]
    }

    pub fn values_count(&self) -> (count: usize)
        ensures
            count == self@.classes.len(),
    {
        self.classes.len()
    }
}

/// How many values a class has, where that is fewer than 64 bits hold.
pub open spec fn modulus(class: Class) -> nat {
    match class {
        Class::Fixed { bits } => if bits < 64 {
            vstd::arithmetic::power2::pow2(bits as nat)
        } else {
            0x1_0000_0000_0000_0000
        },
        _ => 0x1_0000_0000_0000_0000,
    }
}

/// A value taken modulo its class, which for [`Class::Fixed`] is the only
/// reading there is.
pub open spec fn wrapped(class: Class, value: u64) -> u64 {
    (value as nat % modulus(class)) as u64
}

/// A value taken modulo its class, which for [`Class::Fixed`] is the only
/// reading there is.
pub fn wrap(class: Class, value: u64) -> (narrow: u64)
    ensures
        narrow == wrapped(class, value),
        narrow == value as nat % modulus(class),
{
    assert(value as nat % 0x1_0000_0000_0000_0000 == value);
    match class {
        Class::Fixed { bits } => if bits < 64 {
            let shift: u64 = bits as u64;
            let one: u64 = 1;
            proof {
                vstd::arithmetic::power2::lemma_pow2_pos(bits as nat);
                vstd::arithmetic::power2::lemma_pow2_strictly_increases(bits as nat, 64);
                vstd::arithmetic::power2::lemma2_to64_rest();
                vstd::bits::lemma_u64_shl_is_mul(1, shift);
            }
            let mask: u64 = (one << shift) - 1;
            proof {
                reveal(vstd::bits::low_bits_mask);
                assert(mask == vstd::bits::low_bits_mask(bits as nat));
                vstd::bits::lemma_u64_low_bits_mask_is_mod(value, bits as nat);
                assert(value & mask == value % (modulus(class) as u64));
            }
            value & mask
        } else {
            assert(modulus(class) == 0x1_0000_0000_0000_0000);
            value
        },
        _ => {
            assert(modulus(class) == 0x1_0000_0000_0000_0000);
            value
        },
    }
}

/// Wrapping twice is wrapping once.
pub proof fn wrapping_settles(class: Class, value: u64)
    ensures
        wrapped(class, wrapped(class, value)) == wrapped(class, value),
        wrapped(class, value) < modulus(class),
{
    if let Class::Fixed { bits } = class {
        if bits < 64 {
            vstd::arithmetic::power2::lemma_pow2_pos(bits as nat);
        }
    }
    let size = modulus(class);
    vstd::arithmetic::div_mod::lemma_mod_bound(value as int, size as int);
    vstd::arithmetic::div_mod::lemma_mod_decreases(value as nat, size);
    vstd::arithmetic::div_mod::lemma_small_mod(value as nat % size, size);
}

} // verus!
