//! Building well-shaped programs.

use super::model::{
    wrap, Binary, Class, DataId, Exit, Function, FunctionId, Offset, Op, Origin, Parts, Platform,
    PlatformId, Range, Region, RegionId, Relation, Span, Symbol, Terminator, ValueId,
    Width,
};
use super::Program;
use crate::pool::{append, NameTable, Names};
use vstd::prelude::*;

verus! {

impl Parts {
    /// The symbol for a name: the one that stands for it already, or the next.
    pub open spec fn symbol(self, name: Seq<char>) -> Symbol {
        Symbol(self.names.symbol(name) as u32)
    }

    /// With a symbol for `name`, which is added where there is none.
    pub open spec fn with_symbol(self, name: Seq<char>) -> Parts {
        Parts { names: self.names.with(name), ..self }
    }

    /// With `bytes` at the end of one of the two regions.
    pub open spec fn with_datum(self, origin: Origin, bytes: Seq<u8>) -> Parts {
        let blob = match origin {
            Origin::Data => self.data,
            Origin::Globals => self.globals,
        };
        let span = Span { origin, start: blob.len() as u32, len: bytes.len() as u32 };
        match origin {
            Origin::Data => Parts { data: blob + bytes, spans: self.spans.push(span), ..self },
            Origin::Globals => Parts { globals: blob + bytes, spans: self.spans.push(span), ..self },
        }
    }

    /// With a signature's classes held.
    pub open spec fn with_signature(self, classes: Seq<Class>) -> Parts {
        Parts { signature: self.signature + classes, ..self }
    }

    /// The next `count` values.
    pub open spec fn fresh(self, count: nat) -> Seq<ValueId> {
        Seq::new(count, |i: int| ValueId((self.classes.len() + i) as u32))
    }

    /// With one value minted for each class, and the run of them held.
    pub open spec fn with_values(self, classes: Seq<Class>) -> Parts {
        Parts {
            classes: self.classes + classes,
            operands: self.operands + self.fresh(classes.len()),
            ..self
        }
    }

    /// With a list of existing values held.
    pub open spec fn with_held(self, values: Seq<ValueId>) -> Parts {
        Parts { operands: self.operands + values, ..self }
    }

    /// With a platform routine declared.
    pub open spec fn with_platform(
        self,
        name: Seq<char>,
        params: Seq<Class>,
        answers: Seq<Class>,
    ) -> Parts {
        let named = self.with_symbol(name);
        let routine = Platform {
            name: self.symbol(name),
            params: Range::from(self.signature.len(), params.len()),
            answers: Range::from(self.signature.len() + params.len(), answers.len()),
        };
        Parts {
            platform: self.platform.push(routine),
            ..named.with_signature(params).with_signature(answers)
        }
    }

    /// With a function declared, whose body is yet to come.
    pub open spec fn with_function(
        self,
        name: Seq<char>,
        params: Seq<Class>,
        answers: Seq<Class>,
    ) -> Parts {
        let minted = self.with_values(params);
        let function = Function {
            name: self.symbol(name),
            params: Range::from(self.operands.len(), params.len()),
            answers: Range::from(self.signature.len(), answers.len()),
            body: RegionId(self.regions.len() as u32),
        };
        let body = Region {
            params: Range { start: 0, len: 0 },
            ops: Range { start: 0, len: 0 },
            terminator: Terminator::nowhere(),
        };
        Parts {
            functions: self.functions.push(function),
            regions: self.regions.push(body),
            ..minted.with_symbol(name).with_signature(answers)
        }
    }

    /// The class of each of `values`.
    pub open spec fn classes_of(self, values: Seq<ValueId>) -> Seq<Class> {
        values.map_values(|value: ValueId| self.class(value))
    }

    /// Nothing at all, which is no program yet.
    pub open spec fn nothing() -> Parts {
        Parts {
            platform: seq![],
            data: seq![],
            globals: seq![],
            spans: seq![],
            functions: seq![],
            classes: seq![],
            signature: seq![],
            ops: seq![],
            results: seq![],
            operands: seq![],
            regions: seq![],
            names: NameTable::empty(),
        }
    }

    /// Whether this is `old` with regions built in it: what was there is
    /// there still, and nothing was declared.
    pub open spec fn extends(self, old: Parts) -> bool {
        &&& old.classes.is_prefix_of(self.classes)
        &&& old.operands.is_prefix_of(self.operands)
        &&& old.ops.is_prefix_of(self.ops)
        &&& old.results.is_prefix_of(self.results)
        &&& old.regions.is_prefix_of(self.regions)
        &&& self == (Parts {
            classes: self.classes,
            operands: self.operands,
            ops: self.ops,
            results: self.results,
            regions: self.regions,
            ..old
        })
    }
}

/// A region being built, and the program it will be part of.
#[verifier::ext_equal]
pub struct Draft {
    pub program: Parts,
    pub params: Range,
    pub ops: Seq<Op>,
    pub results: Seq<Range>,
}

impl Draft {
    /// A region of `program` with nothing in it yet.
    pub open spec fn opened(program: Parts, params: Range) -> Draft {
        Draft { program, params, ops: seq![], results: seq![] }
    }

    /// A region inside another: its parameters are minted for it.
    pub open spec fn inside(self, params: Seq<Class>) -> Draft {
        Draft::opened(
            self.program.with_values(params),
            Range::from(self.program.operands.len(), params.len()),
        )
    }

    /// Whether what an instruction holds may stand in some region.
    pub open spec fn holds_regions(self, op: Op) -> bool {
        forall|c: int|
            0 <= c < super::model::children(op).len() ==> {
                let child = #[trigger] super::model::children(op)[c];
                child.0 < self.program.regions.len() && !self.program.is_body(child)
            }
    }

    pub open spec fn wf(self) -> bool {
        &&& self.program.fits()
        &&& self.params.within(self.program.operands.len())
        &&& self.ops.len() == self.results.len()
        &&& forall|i: int|
            0 <= i < self.ops.len() ==> self.program.op_fits(
                #[trigger] self.ops[i],
                self.results[i],
            )
        &&& forall|i: int| 0 <= i < self.ops.len() ==> self.holds_regions(#[trigger] self.ops[i])
    }

    /// With an instruction at the end, and a value minted for each class.
    pub open spec fn push(self, op: Op, classes: Seq<Class>) -> Draft {
        Draft {
            program: self.program.with_values(classes),
            ops: self.ops.push(op),
            results: self.results.push(Range::from(self.program.operands.len(), classes.len())),
            ..self
        }
    }

    pub open spec fn hold(self, values: Seq<ValueId>) -> Draft {
        Draft { program: self.program.with_held(values), ..self }
    }

    /// The region, once its instructions stand at the end of the program's.
    pub open spec fn region(self, terminator: Terminator) -> Region {
        Region {
            params: self.params,
            ops: Range::from(self.program.ops.len(), self.ops.len()),
            terminator,
        }
    }

    /// The program, with the region's instructions at the end of its own.
    pub open spec fn settled(self) -> Parts {
        Parts {
            ops: self.program.ops + self.ops,
            results: self.program.results + self.results,
            ..self.program
        }
    }

    /// The program, with the region as its newest.
    pub open spec fn as_newest(self, terminator: Terminator) -> Parts {
        let settled = self.settled();
        Parts { regions: settled.regions.push(self.region(terminator)), ..settled }
    }

    /// The program, with the region as what `function` runs.
    pub open spec fn as_body(self, function: FunctionId, terminator: Terminator) -> Parts {
        let settled = self.settled();
        Parts {
            regions: settled.regions.update(
                self.program.function(function).body.0 as int,
                self.region(terminator),
            ),
            ..settled
        }
    }

    /// The region, once one inside it is finished.
    pub open spec fn after(self, inner: Draft, terminator: Terminator) -> Draft {
        Draft { program: inner.as_newest(terminator), ..self }
    }

    /// How a region ends that leaves with the next `count` values held.
    pub open spec fn leaving(self, exit: Exit, count: nat) -> Terminator {
        Terminator { exit, values: Range::from(self.program.operands.len(), count) }
    }

    /// Whether a region that began as `start` may end here, with room left
    /// for `spare` more of everything.
    pub open spec fn ends(self, start: Draft, terminator: Terminator, spare: nat) -> bool {
        &&& self.wf()
        &&& self.params == start.params
        &&& self.program.extends(start.program)
        &&& terminator.values.within(self.program.operands.len())
        &&& self.program.room(self.ops.len() + 1 + spare)
    }
}

/// Minting values, holding lists and appending to pools keep what already
/// fits fitting.
proof fn growing_keeps_fitting(old: Parts, new: Parts)
    requires
        old.fits(),
        new.extends(old),
        new.ops == old.ops,
        new.results == old.results,
        new.regions == old.regions,
        forall|i: int| 0 <= i < new.operands.len() ==> new.known(#[trigger] new.operands[i]),
    ensures
        new.fits(),
{
    assert(new.names.fits());
    assert forall|i: int| 0 <= i < new.ops.len() implies new.op_fits(
        #[trigger] new.ops[i],
        new.results[i],
    ) by {
        assert(old.op_fits(old.ops[i], old.results[i]));
    }
    assert forall|i: int| 0 <= i < new.regions.len() implies new.region_fits(
        #[trigger] new.regions[i],
    ) by {
        assert(old.region_fits(old.regions[i]));
    }
    assert forall|i: int| 0 <= i < new.functions.len() implies new.function_fits(
        #[trigger] new.functions[i],
    ) by {
        assert(old.function_fits(old.functions[i]));
    }
    assert forall|i: int| 0 <= i < new.platform.len() implies new.platform_fits(
        #[trigger] new.platform[i],
    ) by {
        assert(old.platform_fits(old.platform[i]));
    }
    assert forall|i: int| 0 <= i < new.spans.len() implies new.span_fits(#[trigger] new.spans[i]) by {
        assert(old.span_fits(old.spans[i]));
    }
    assert forall|r: RegionId| r.0 < new.regions.len() implies #[trigger] new.region_nests(r) by {
        assert(old.region_nests(r));
        nesting_is_kept(old, new, r);
    }
}

proof fn nesting_is_kept(old: Parts, new: Parts, r: RegionId)
    requires
        old.region_nests(r),
        old.region_fits(old.region(r)),
        r.0 < old.regions.len(),
        old.functions == new.functions,
        old.regions.len() <= new.regions.len(),
        old.region(r) == new.region(r),
        old.ops.is_prefix_of(new.ops),
    ensures
        new.region_nests(r),
{
    assert(forall|x: RegionId| new.is_body(x) == old.is_body(x));
    let ops = old.region(r).ops;
    assert forall|at: int, c: int|
        ops.start <= at < ops.start + ops.len && 0 <= c < super::model::children(
            new.ops[at],
        ).len() implies new.nests(r, #[trigger] super::model::children(new.ops[at])[c]) by {
        assert(old.ops[at] == new.ops[at]);
        assert(old.nests(r, super::model::children(old.ops[at])[c]));
    }
}

/// A program that gained a name for one more declaration still fits.
proof fn naming_keeps_fitting(old: Parts, name: Seq<char>)
    requires
        old.fits(),
        old.room(vstd::utf8::encode_utf8(name).len() + 1),
    ensures
        old.with_symbol(name).fits(),
        old.symbol(name).0 < old.with_symbol(name).names.len(),
        old.with_symbol(name).name(old.symbol(name)) == name,
{
    crate::pool::naming_keeps_names(old.names, name);
    declaring_keeps_fitting(old, old.with_symbol(name));
}

/// Declarations at the end of their pools leave what is there fitting.
proof fn declaring_keeps_fitting(old: Parts, new: Parts)
    requires
        old.fits(),
        new.names.fits(),
        old.names.len() <= new.names.len(),
        old.data.len() <= new.data.len(),
        old.globals.len() <= new.globals.len(),
        old.signature.len() <= new.signature.len(),
        old.spans.is_prefix_of(new.spans),
        old.platform.is_prefix_of(new.platform),
        forall|i: int|
            old.spans.len() <= i < new.spans.len() ==> new.span_fits(#[trigger] new.spans[i]),
        forall|i: int|
            old.platform.len() <= i < new.platform.len() ==> new.platform_fits(
                #[trigger] new.platform[i],
            ),
        new.functions == old.functions,
        new.classes == old.classes,
        new.ops == old.ops,
        new.results == old.results,
        new.operands == old.operands,
        new.regions == old.regions,
    ensures
        new.fits(),
{
    assert forall|i: int| 0 <= i < new.operands.len() implies new.known(
        #[trigger] new.operands[i],
    ) by {
        assert(old.known(old.operands[i]));
    }
    assert forall|i: int| 0 <= i < new.ops.len() implies new.op_fits(
        #[trigger] new.ops[i],
        new.results[i],
    ) by {
        assert(old.op_fits(old.ops[i], old.results[i]));
    }
    assert forall|i: int| 0 <= i < new.regions.len() implies new.region_fits(
        #[trigger] new.regions[i],
    ) by {
        assert(old.region_fits(old.regions[i]));
    }
    assert forall|i: int| 0 <= i < new.functions.len() implies new.function_fits(
        #[trigger] new.functions[i],
    ) by {
        assert(old.function_fits(old.functions[i]));
    }
    assert forall|i: int| 0 <= i < new.platform.len() implies new.platform_fits(
        #[trigger] new.platform[i],
    ) by {
        if i < old.platform.len() {
            assert(old.platform_fits(old.platform[i]));
        }
    }
    assert forall|i: int| 0 <= i < new.spans.len() implies new.span_fits(#[trigger] new.spans[i]) by {
        if i < old.spans.len() {
            assert(old.span_fits(old.spans[i]));
        }
    }
    assert forall|r: RegionId| r.0 < new.regions.len() implies #[trigger] new.region_nests(r) by {
        assert(old.region_nests(r));
        assert(old.region_fits(old.regions[r.0 as int]));
        nesting_is_kept(old, new, r);
    }
}

/// A function declared with nothing to run, behind the rest, fits.
proof fn a_declaration_fits(
    old: Parts,
    name: Seq<char>,
    params: Seq<Class>,
    answers: Seq<Class>,
)
    requires
        old.fits(),
        old.room(
            vstd::utf8::encode_utf8(name).len() + params.len() + answers.len() + 1,
        ),
    ensures
        old.with_function(name, params, answers).wf(),
{
    let new = old.with_function(name, params, answers);
    let minted = old.with_values(params);
    minting_fits(old, params);
    naming_keeps_fitting(minted, name);
    let named = minted.with_symbol(name);
    let signed = named.with_signature(answers);
    declaring_keeps_fitting(named, signed);
    let body = RegionId(old.regions.len() as u32);
    assert(new.names.fits());
    assert forall|i: int| 0 <= i < new.operands.len() implies new.known(
        #[trigger] new.operands[i],
    ) by {
        assert(signed.known(signed.operands[i]));
    }
    assert forall|i: int| 0 <= i < new.ops.len() implies new.op_fits(
        #[trigger] new.ops[i],
        new.results[i],
    ) by {
        assert(signed.op_fits(signed.ops[i], signed.results[i]));
    }
    assert forall|i: int| 0 <= i < new.regions.len() implies new.region_fits(
        #[trigger] new.regions[i],
    ) by {
        if i < old.regions.len() {
            assert(signed.region_fits(signed.regions[i]));
        }
    }
    assert forall|i: int| 0 <= i < new.functions.len() implies new.function_fits(
        #[trigger] new.functions[i],
    ) by {
        if i < old.functions.len() {
            assert(signed.function_fits(signed.functions[i]));
        }
    }
    assert forall|i: int| 0 <= i < new.platform.len() implies new.platform_fits(
        #[trigger] new.platform[i],
    ) by {
        assert(signed.platform_fits(signed.platform[i]));
    }
    assert forall|i: int| 0 <= i < new.spans.len() implies new.span_fits(#[trigger] new.spans[i]) by {
        assert(signed.span_fits(signed.spans[i]));
    }
    assert forall|x: RegionId| x.0 < old.regions.len() implies new.is_body(x) == old.is_body(x) by {
        if new.is_body(x) {
            let f = choose|f: int|
                0 <= f < new.functions.len() && (#[trigger] new.functions[f]).body == x;
            assert(old.functions[f].body == x);
        }
        if old.is_body(x) {
            let f = choose|f: int|
                0 <= f < old.functions.len() && (#[trigger] old.functions[f]).body == x;
            assert(new.functions[f].body == x);
        }
    }
    assert forall|r: RegionId| r.0 < new.regions.len() implies #[trigger] new.region_nests(r) by {
        if r.0 < old.regions.len() {
            assert(old.region_nests(r));
            assert(old.region_fits(old.regions[r.0 as int]));
            let ops = old.region(r).ops;
            assert(new.region(r) == old.region(r));
            assert forall|at: int, c: int|
                ops.start <= at < ops.start + ops.len && 0 <= c < super::model::children(
                    new.ops[at],
                ).len() implies new.nests(r, #[trigger] super::model::children(new.ops[at])[c]) by {
                assert(old.nests(r, super::model::children(old.ops[at])[c]));
            }
        }
    }
}

proof fn minting_fits(old: Parts, classes: Seq<Class>)
    requires
        old.fits(),
        old.room(classes.len()),
    ensures
        old.with_values(classes).fits(),
        old.with_values(classes).extends(old),
{
    let new = old.with_values(classes);
    assert forall|i: int| 0 <= i < new.operands.len() implies new.known(
        #[trigger] new.operands[i],
    ) by {
        if i < old.operands.len() {
            assert(old.known(old.operands[i]));
        }
    }
    growing_keeps_fitting(old, new);
}

proof fn holding_fits(old: Parts, values: Seq<ValueId>)
    requires
        old.fits(),
        forall|i: int| 0 <= i < values.len() ==> old.known(#[trigger] values[i]),
    ensures
        old.with_held(values).fits(),
        old.with_held(values).extends(old),
{
    let new = old.with_held(values);
    assert forall|i: int| 0 <= i < new.operands.len() implies new.known(
        #[trigger] new.operands[i],
    ) by {
        if i < old.operands.len() {
            assert(old.known(old.operands[i]));
        } else {
            assert(new.operands[i] == values[i - old.operands.len()]);
        }
    }
    growing_keeps_fitting(old, new);
}

impl Program {
    /// A program and its entry function, which takes nothing and returns one
    /// word, the exit status. Minting it here is what makes a program without
    /// an entry unrepresentable.
    pub fn new(entry: &str) -> (made: (Self, FunctionId))
        requires
            vstd::utf8::encode_utf8(entry@).len() + 2 <= u32::MAX,
        ensures
            made.0@ == Parts::nothing().with_function(entry@, seq![], seq![Class::Word]),
            made.0@.wf(),
            made.1 == FunctionId(0),
    {
        let mut program = Program::hollow();
        let params: [Class; 0] = [];
        let answers: [Class; 1] = [Class::Word];
        assert(params@ =~= seq![]);
        assert(answers@ =~= seq![Class::Word]);
        let entry = program.declare(entry, &params, &answers);
        (program, entry)
    }

    /// Hold bytes the program only reads, of the 4 GiB a target can address.
    pub fn intern(&mut self, bytes: &[u8]) -> (data: DataId)
        requires
            old(self)@.fits(),
            old(self)@.room(bytes@.len() + 1),
        ensures
            final(self)@ == old(self)@.with_datum(Origin::Data, bytes@),
            final(self)@.fits(),
            data.0 == old(self)@.spans.len(),
    {
        let start: u32 = self.data.len() as u32;
        append(&mut self.data, bytes);
        self.spans.push(Span { origin: Origin::Data, start, len: bytes.len() as u32 });
        proof {
            assert(self@ =~= old(self)@.with_datum(Origin::Data, bytes@));
            declaring_keeps_fitting(old(self)@, self@);
        }
        DataId::at(self.spans.len() - 1)
    }

    /// The same, for a datum the program writes to. Its initial contents are
    /// in the image, so a counter starting at zero is eight zero bytes.
    pub fn global(&mut self, bytes: &[u8]) -> (data: DataId)
        requires
            old(self)@.fits(),
            old(self)@.room(bytes@.len() + 1),
        ensures
            final(self)@ == old(self)@.with_datum(Origin::Globals, bytes@),
            final(self)@.fits(),
            data.0 == old(self)@.spans.len(),
    {
        let start: u32 = self.globals.len() as u32;
        append(&mut self.globals, bytes);
        self.spans.push(Span { origin: Origin::Globals, start, len: bytes.len() as u32 });
        proof {
            assert(self@ =~= old(self)@.with_datum(Origin::Globals, bytes@));
            declaring_keeps_fitting(old(self)@, self@);
        }
        DataId::at(self.spans.len() - 1)
    }

    /// The symbol for `name`, the same symbol every time. This runs once
    /// per declaration and nowhere else, so the scan is over what a program
    /// declares rather than over its terms.
    pub fn symbol(&mut self, name: &str) -> (symbol: Symbol)
        requires
            old(self)@.fits(),
            old(self)@.room(vstd::utf8::encode_utf8(name@).len() + 1),
        ensures
            final(self)@ == old(self)@.with_symbol(name@),
            final(self)@.fits(),
            symbol == old(self)@.symbol(name@),
            symbol.0 < final(self)@.names.len(),
            final(self)@.name(symbol) == name@,
    {
        proof {
            naming_keeps_fitting(self@, name@);
        }
        Symbol::at(self.names.symbol(name))
    }

    pub fn platform(&mut self, name: &str, params: &[Class], answers: &[Class]) -> (platform:
        PlatformId)
        requires
            old(self)@.fits(),
            old(self)@.room(
                vstd::utf8::encode_utf8(name@).len() + params@.len() + answers@.len() + 1,
            ),
        ensures
            final(self)@ == old(self)@.with_platform(name@, params@, answers@),
            final(self)@.fits(),
            platform.0 == old(self)@.platform.len(),
    {
        let name = self.symbol(name);
        let ghost named = self@;
        let params = self.sign(params);
        let answers = self.sign(answers);
        self.platform.push(Platform { name, params, answers });
        proof {
            declaring_keeps_fitting(named, self@);
        }
        PlatformId::at(self.platform.len() - 1)
    }

    /// Separate from defining, so a body may call a function declared after
    /// it, or itself.
    pub fn declare(&mut self, name: &str, params: &[Class], answers: &[Class]) -> (function:
        FunctionId)
        requires
            old(self)@.fits(),
            old(self)@.room(
                vstd::utf8::encode_utf8(name@).len() + params@.len() + answers@.len() + 1,
            ),
        ensures
            final(self)@ == old(self)@.with_function(name@, params@, answers@),
            final(self)@.wf(),
            function.0 == old(self)@.functions.len(),
    {
        proof {
            a_declaration_fits(self@, name@, params@, answers@);
            minting_fits(self@, params@);
        }
        let params = self.mint(params);
        let name = self.symbol(name);
        let answers = self.sign(answers);
        let body = RegionId::at(self.regions.len());
        self.regions.push(
            Region {
                params: Range { start: 0, len: 0 },
                ops: Range { start: 0, len: 0 },
                terminator: Terminator::unreachable(),
            },
        );
        self.functions.push(Function { name, params, answers, body });
        FunctionId::at(self.functions.len() - 1)
    }

    /// Hold a run of classes, for a signature.
    fn sign(&mut self, classes: &[Class]) -> (run: Range)
        requires
            old(self)@.signature.len() + classes@.len() <= u32::MAX,
        ensures
            final(self)@ == old(self)@.with_signature(classes@),
            run == Range::from(old(self)@.signature.len(), classes@.len()),
    {
        let at: usize = self.signature.len();
        append(&mut self.signature, classes);
        Range::of(at, classes.len())
    }

    /// Mint one value per class, and give back the run they occupy.
    fn mint(&mut self, classes: &[Class]) -> (run: Range)
        requires
            old(self)@.room(classes@.len()),
        ensures
            final(self)@ == old(self)@.with_values(classes@),
            run == Range::from(old(self)@.operands.len(), classes@.len()),
    {
        let start: usize = self.operands.len();
        let mut at: usize = 0;
        while at < classes.len()
            invariant
                at <= classes.len(),
                old(self)@.room(classes@.len()),
                self@ == old(self)@.with_values(classes@.take(at as int)),
            decreases classes.len() - at,
        {
            self.mint_one(classes[at]);
            at = at + 1;
            assert(self@ =~= old(self)@.with_values(classes@.take(at as int)));
        }
        assert(classes@.take(at as int) =~= classes@);
        Range::of(start, classes.len())
    }

    /// One value of `class`, and the run of one that names it.
    fn mint_one(&mut self, class: Class) -> (minted: (ValueId, Range))
        requires
            old(self)@.classes.len() < u32::MAX,
            old(self)@.operands.len() < u32::MAX,
        ensures
            final(self)@ == old(self)@.with_values(seq![class]),
            minted.0.0 == old(self)@.classes.len(),
            minted.1 == Range::from(old(self)@.operands.len(), 1),
    {
        let start: usize = self.operands.len();
        self.classes.push(class);
        let value = ValueId::at(self.classes.len() - 1);
        self.operands.push(value);
        assert(self@ =~= old(self)@.with_values(seq![class]));
        (value, Range::of(start, 1))
    }

    /// A run of values for the classes a signature already names, read where
    /// they lie rather than copied out first.
    fn mint_from(&mut self, signature: Range) -> (run: Range)
        requires
            signature.within(old(self)@.signature.len()),
            old(self)@.room(signature.len as nat),
        ensures
            final(self)@ == old(self)@.with_values(signature.read(old(self)@.signature)),
            run == Range::from(old(self)@.operands.len(), signature.len as nat),
    {
        let start: usize = self.operands.len();
        let ghost classes = signature.read(self@.signature);
        let mut at: u32 = 0;
        while at < signature.len
            invariant
                at <= signature.len,
                signature.within(old(self)@.signature.len()),
                classes == signature.read(old(self)@.signature),
                old(self)@.room(signature.len as nat),
                self@ == old(self)@.with_values(classes.take(at as int)),
            decreases signature.len - at,
        {
            let class = self.signature[signature.start as usize + at as usize];
            self.mint_one(class);
            at = at + 1;
            assert(self@ =~= old(self)@.with_values(classes.take(at as int)));
        }
        assert(classes.take(at as int) =~= classes);
        Range::of(start, signature.len())
    }

    /// Keep a list of existing values, giving back the run it occupies.
    fn hold(&mut self, values: &[ValueId]) -> (run: Range)
        requires
            old(self)@.operands.len() + values@.len() <= u32::MAX,
        ensures
            final(self)@ == old(self)@.with_held(values@),
            run == Range::from(old(self)@.operands.len(), values@.len()),
    {
        let start: usize = self.operands.len();
        append(&mut self.operands, values);
        Range::of(start, values.len())
    }
}

/// What is true of a region goes on being true while regions are built
/// inside it.
pub proof fn a_draft_outlives_growth(draft: Draft, program: Parts)
    requires
        draft.wf(),
        program.fits(),
        program.extends(draft.program),
    ensures
        (Draft { program, ..draft }).wf(),
{
    let new = Draft { program, ..draft };
    assert forall|i: int| 0 <= i < new.ops.len() implies new.program.op_fits(
        #[trigger] new.ops[i],
        new.results[i],
    ) by {
        assert(draft.program.op_fits(draft.ops[i], draft.results[i]));
    }
    assert forall|i: int| 0 <= i < new.ops.len() implies new.holds_regions(
        #[trigger] new.ops[i],
    ) by {
        assert(draft.holds_regions(draft.ops[i]));
        assert forall|c: int| 0 <= c < super::model::children(new.ops[i]).len() implies {
            let child = #[trigger] super::model::children(new.ops[i])[c];
            child.0 < program.regions.len() && !program.is_body(child)
        } by {
            let child = super::model::children(draft.ops[i])[c];
            assert(child.0 < draft.program.regions.len() && !draft.program.is_body(child));
        }
    }
}

proof fn pushing_fits(draft: Draft, op: Op, classes: Seq<Class>)
    requires
        draft.wf(),
        draft.program.room(classes.len()),
        draft.program.names_only_what_exists(op),
        draft.program.defines(op, classes.len()),
        draft.holds_regions(op),
    ensures
        draft.push(op, classes).wf(),
        draft.push(op, classes).program.extends(draft.program),
{
    let new = draft.push(op, classes);
    minting_fits(draft.program, classes);
    a_draft_outlives_growth(draft, new.program);
    let grown = Draft { program: new.program, ..draft };
    assert(new.program.op_fits(op, Range::from(draft.program.operands.len(), classes.len())));
    assert(new.holds_regions(op)) by {
        assert forall|c: int| 0 <= c < super::model::children(op).len() implies {
            let child = #[trigger] super::model::children(op)[c];
            child.0 < new.program.regions.len() && !new.program.is_body(child)
        } by {
            let child = super::model::children(op)[c];
            assert(child.0 < draft.program.regions.len() && !draft.program.is_body(child));
        }
    }
    assert forall|i: int| 0 <= i < new.ops.len() implies new.program.op_fits(
        #[trigger] new.ops[i],
        new.results[i],
    ) && new.holds_regions(new.ops[i]) by {
        if i < draft.ops.len() {
            assert(grown.program.op_fits(grown.ops[i], grown.results[i]));
            assert(grown.holds_regions(grown.ops[i]));
        }
    }
}

/// Instructions at the end of the program's leave everything fitting.
proof fn settling_fits(draft: Draft)
    requires
        draft.wf(),
    ensures
        draft.settled().fits(),
        draft.settled().extends(draft.program),
{
    let old = draft.program;
    let new = draft.settled();
    assert(new.names.fits());
    assert forall|i: int| 0 <= i < new.operands.len() implies new.known(
        #[trigger] new.operands[i],
    ) by {
        assert(old.known(old.operands[i]));
    }
    assert forall|i: int| 0 <= i < new.ops.len() implies new.op_fits(
        #[trigger] new.ops[i],
        new.results[i],
    ) by {
        if i < old.ops.len() {
            assert(old.op_fits(old.ops[i], old.results[i]));
        } else {
            let at = i - old.ops.len();
            assert(old.op_fits(draft.ops[at], draft.results[at]));
        }
    }
    assert forall|i: int| 0 <= i < new.regions.len() implies new.region_fits(
        #[trigger] new.regions[i],
    ) by {
        assert(old.region_fits(old.regions[i]));
    }
    assert forall|i: int| 0 <= i < new.functions.len() implies new.function_fits(
        #[trigger] new.functions[i],
    ) by {
        assert(old.function_fits(old.functions[i]));
    }
    assert forall|i: int| 0 <= i < new.platform.len() implies new.platform_fits(
        #[trigger] new.platform[i],
    ) by {
        assert(old.platform_fits(old.platform[i]));
    }
    assert forall|i: int| 0 <= i < new.spans.len() implies new.span_fits(#[trigger] new.spans[i]) by {
        assert(old.span_fits(old.spans[i]));
    }
    assert forall|r: RegionId| r.0 < new.regions.len() implies #[trigger] new.region_nests(r) by {
        assert(old.region_nests(r));
        assert(old.region_fits(old.regions[r.0 as int]));
        nesting_is_kept(old, new, r);
    }
}

/// A region put in its place, the newest or a function's body, fits.
proof fn placing_fits(draft: Draft, new: Parts, at: RegionId, terminator: Terminator)
    requires
        draft.wf(),
        draft.program.room(draft.ops.len() + 1),
        terminator.values.within(draft.program.operands.len()),
        new.regions.len() <= u32::MAX,
        new == (Parts { regions: new.regions, ..draft.settled() }),
        at.0 < new.regions.len(),
        new.regions[at.0 as int] == draft.region(terminator),
        draft.program.regions.len() <= new.regions.len(),
        forall|i: int|
            0 <= i < new.regions.len() && i != at.0 ==> i < draft.program.regions.len()
                && #[trigger] new.regions[i] == draft.program.regions[i],
        draft.program.is_body(at) || at.0 == draft.program.regions.len(),
    ensures
        new.fits(),
{
    settling_fits(draft);
    let old = draft.settled();
    assert(new.functions == draft.program.functions);
    assert(forall|x: RegionId| new.is_body(x) == draft.program.is_body(x));
    assert(new.names.fits());
    assert forall|i: int| 0 <= i < new.operands.len() implies new.known(
        #[trigger] new.operands[i],
    ) by {
        assert(old.known(old.operands[i]));
    }
    assert forall|i: int| 0 <= i < new.ops.len() implies new.op_fits(
        #[trigger] new.ops[i],
        new.results[i],
    ) by {
        assert(old.op_fits(old.ops[i], old.results[i]));
    }
    assert forall|i: int| 0 <= i < new.regions.len() implies new.region_fits(
        #[trigger] new.regions[i],
    ) by {
        if i != at.0 {
            assert(new.regions[i] == draft.program.regions[i]);
            assert(old.region_fits(old.regions[i]));
        }
    }
    assert forall|i: int| 0 <= i < new.functions.len() implies new.function_fits(
        #[trigger] new.functions[i],
    ) by {
        assert(old.function_fits(old.functions[i]));
    }
    assert forall|i: int| 0 <= i < new.platform.len() implies new.platform_fits(
        #[trigger] new.platform[i],
    ) by {
        assert(old.platform_fits(old.platform[i]));
    }
    assert forall|i: int| 0 <= i < new.spans.len() implies new.span_fits(#[trigger] new.spans[i]) by {
        assert(old.span_fits(old.spans[i]));
    }
    assert forall|r: RegionId| r.0 < new.regions.len() implies #[trigger] new.region_nests(r) by {
        if r == at {
            let ops = new.region(r).ops;
            assert forall|i: int, c: int|
                ops.start <= i < ops.start + ops.len && 0 <= c < super::model::children(
                    new.ops[i],
                ).len() implies new.nests(r, #[trigger] super::model::children(new.ops[i])[c]) by {
                let own = i - draft.program.ops.len();
                assert(new.ops[i] == draft.ops[own]);
                assert(draft.holds_regions(draft.ops[own]));
                let child = super::model::children(draft.ops[own])[c];
                assert(child.0 < draft.program.regions.len() && !draft.program.is_body(child));
                assert(new.is_body(r) == draft.program.is_body(r));
                assert(new.is_body(child) == draft.program.is_body(child));
            }
        } else {
            assert(new.regions[r.0 as int] == draft.program.regions[r.0 as int]);
            assert(old.region_nests(r));
            assert(old.region_fits(old.regions[r.0 as int]));
            nesting_is_kept(old, new, r);
        }
    }
}

proof fn the_newest_fits(draft: Draft, terminator: Terminator)
    requires
        draft.wf(),
        draft.program.room(draft.ops.len() + 1),
        terminator.values.within(draft.program.operands.len()),
    ensures
        draft.as_newest(terminator).fits(),
        draft.as_newest(terminator).extends(draft.program),
        !draft.as_newest(terminator).is_body(RegionId(draft.program.regions.len() as u32)),
{
    let new = draft.as_newest(terminator);
    let at = RegionId(draft.program.regions.len() as u32);
    placing_fits(draft, new, at, terminator);
    if new.is_body(at) {
        let f = choose|f: int|
            0 <= f < new.functions.len() && (#[trigger] new.functions[f]).body == at;
        assert(draft.program.function_fits(draft.program.functions[f]));
    }
}

proof fn a_body_fits(draft: Draft, function: FunctionId, terminator: Terminator)
    requires
        draft.wf(),
        draft.program.room(draft.ops.len() + 1),
        function.0 < draft.program.functions.len(),
        terminator.values.within(draft.program.operands.len()),
    ensures
        draft.as_body(function, terminator).wf(),
{
    let new = draft.as_body(function, terminator);
    let at = draft.program.function(function).body;
    assert(draft.program.function_fits(draft.program.functions[function.0 as int]));
    assert(draft.program.is_body(at));
    placing_fits(draft, new, at, terminator);
}

pub proof fn growth_chains(first: Parts, second: Parts, third: Parts)
    requires
        second.extends(first),
        third.extends(second),
    ensures
        third.extends(first),
{
}

/// Accumulates one region.
///
/// Its instructions are appended to the program only when the region is
/// finished, which is what keeps a region's run of them contiguous while
/// nested regions are being built inside it.
#[derive(Debug)]
pub struct Builder {
    program: Program,
    params: Range,
    ops: Vec<Op>,
    results: Vec<Range>,
}

impl View for Builder {
    type V = Draft;

    closed spec fn view(&self) -> Draft {
        Draft {
            program: self.program@,
            params: self.params,
            ops: self.ops@,
            results: self.results@,
        }
    }
}

/// A region put aside while one inside it is built.
#[derive(Debug)]
pub struct Outer {
    params: Range,
    ops: Vec<Op>,
    results: Vec<Range>,
}

impl Outer {
    /// The region, taken up again in a program that has grown meanwhile.
    pub closed spec fn resumed(&self, program: Parts) -> Draft {
        Draft { program, params: self.params, ops: self.ops@, results: self.results@ }
    }
}

/// Values that exist.
pub open spec fn all_known(program: Parts, values: Seq<ValueId>) -> bool {
    forall|i: int| 0 <= i < values.len() ==> program.known(#[trigger] values[i])
}

/// What a signed number is in 64 bits.
pub open spec fn pattern(value: i64) -> u64 {
    (value as int % 0x1_0000_0000_0000_0000) as u64
}

impl Program {
    /// Begin what `function` runs.
    pub fn begin(self, function: FunctionId) -> (builder: Builder)
        requires
            self@.fits(),
            function.0 < self@.functions.len(),
        ensures
            builder@ == Draft::opened(self@, self@.function(function).params),
            builder@.wf(),
    {
        let params = self.functions[function.index()].params;
        let ghost parts = self@;
        let builder = Builder { program: self, params, ops: Vec::new(), results: Vec::new() };
        proof {
            assert(parts.function_fits(parts.functions[function.0 as int]));
            assert(builder@ =~= Draft::opened(parts, params));
        }
        builder
    }

    pub fn define<F: FnOnce(&mut Builder, &[ValueId]) -> Terminator>(
        &mut self,
        function: FunctionId,
        build: F,
    )
        requires
            old(self)@.fits(),
            function.0 < old(self)@.functions.len(),
            forall|b: &mut Builder, params: &[ValueId]|
                b@ == Draft::opened(old(self)@, old(self)@.function(function).params) && params@
                    == old(self)@.values(old(self)@.function(function).params)
                    ==> #[trigger] build.requires((b, params)),
            forall|b: &mut Builder, params: &[ValueId], terminator: Terminator|
                b@ == Draft::opened(old(self)@, old(self)@.function(function).params) && params@
                    == old(self)@.values(old(self)@.function(function).params)
                    && #[trigger] build.ensures((b, params), terminator) ==> final(b)@.ends(
                    Draft::opened(old(self)@, old(self)@.function(function).params),
                    terminator,
                    0,
                ),
        ensures
            final(self)@.wf(),
            exists|b: &mut Builder, params: &[ValueId], terminator: Terminator|
                b@ == Draft::opened(old(self)@, old(self)@.function(function).params) && params@
                    == old(self)@.values(old(self)@.function(function).params)
                    && #[trigger] build.ensures((b, params), terminator) && final(self)@
                    == final(b)@.as_body(function, terminator),
    {
        let ghost start = Draft::opened(self@, self@.function(function).params);
        proof {
            assert(self@.function_fits(self@.functions[function.0 as int]));
        }
        let entry = self.functions[function.index()].params;
        let params = vstd::slice::slice_to_vec(self.values(entry));
        let mut program = Program::hollow();
        std::mem::swap(self, &mut program);
        let mut builder = program.begin(function);
        let terminator = build(&mut builder, params.as_slice());
        *self = builder.end(function, terminator);
    }

    /// Whether `count` more fit in every pool.
    pub fn has_room(&self, count: u32) -> (room: bool)
        ensures
            room == self@.room(count as nat),
    {
        let most: usize = (u32::MAX - count) as usize;
        self.platform.len() <= most && self.data.len() <= most && self.globals.len() <= most
            && self.spans.len() <= most && self.functions.len() <= most && self.classes.len()
            <= most && self.signature.len() <= most && self.ops.len() <= most
            && self.operands.len() <= most && self.regions.len() <= most && self.names.has_room(
            count as usize,
        )
    }

    fn hollow() -> (program: Self)
        ensures
            program@ == Parts::nothing(),
    {
        let program = Self {
            platform: Vec::new(),
            data: Vec::new(),
            globals: Vec::new(),
            spans: Vec::new(),
            functions: Vec::new(),
            classes: Vec::new(),
            signature: Vec::new(),
            ops: Vec::new(),
            results: Vec::new(),
            operands: Vec::new(),
            regions: Vec::new(),
            names: Names::new(),
        };
        assert(program@ =~= Parts::nothing());
        program
    }
}

impl Builder {
    /// Whether `count` more fit in every pool.
    pub fn has_room(&self, count: u32) -> (room: bool)
        ensures
            room == self@.program.room(count as nat),
    {
        self.program.has_room(count)
    }

    /// How many instructions the region has so far.
    pub fn count(&self) -> (count: usize)
        ensures
            count == self@.ops.len(),
    {
        self.ops.len()
    }

    /// The program being built.
    pub fn program(&self) -> (program: &Program)
        ensures
            program@ == self@.program,
    {
        &self.program
    }

    /// The program, with the region as what `function` runs.
    pub fn end(self, function: FunctionId, terminator: Terminator) -> (program: Program)
        requires
            self@.wf(),
            self@.program.room(self@.ops.len() + 1),
            function.0 < self@.program.functions.len(),
            terminator.values.within(self@.program.operands.len()),
        ensures
            program@ == self@.as_body(function, terminator),
            program@.wf(),
    {
        proof {
            a_body_fits(self@, function, terminator);
            assert(self@.program.function_fits(
                self@.program.functions[function.0 as int],
            ));
        }
        let ghost draft = self@;
        let Builder { program, params, ops, results } = self;
        let mut program = program;
        let region = Region {
            params,
            ops: Range::of(program.ops.len(), ops.len()),
            terminator,
        };
        append(&mut program.ops, ops.as_slice());
        append(&mut program.results, results.as_slice());
        let body = program.functions[function.index()].body;
        program.regions.set(body.index(), region);
        assert(program@ =~= draft.as_body(function, terminator));
        program
    }

    /// Put the region aside and begin one inside it, whose parameters are of
    /// `classes`.
    pub fn open(&mut self, classes: &[Class]) -> (outer: Outer)
        requires
            old(self)@.wf(),
            old(self)@.program.room(classes@.len()),
        ensures
            final(self)@ == old(self)@.inside(classes@),
            final(self)@.wf(),
            final(self)@.program.extends(old(self)@.program),
            forall|program: Parts|
                outer.resumed(program) == (Draft { program, ..old(self)@ }),
    {
        proof {
            minting_fits(self@.program, classes@);
        }
        let ghost draft = self@;
        let entry = self.program.mint(classes);
        let mut outer = Outer { params: entry, ops: Vec::new(), results: Vec::new() };
        std::mem::swap(&mut self.params, &mut outer.params);
        std::mem::swap(&mut self.ops, &mut outer.ops);
        std::mem::swap(&mut self.results, &mut outer.results);
        assert(self@ =~= draft.inside(classes@));
        outer
    }

    /// Finish the region, and take up the one around it again.
    pub fn close(&mut self, outer: Outer, terminator: Terminator) -> (region: RegionId)
        requires
            old(self)@.wf(),
            old(self)@.program.room(old(self)@.ops.len() + 1),
            terminator.values.within(old(self)@.program.operands.len()),
        ensures
            final(self)@ == outer.resumed(old(self)@.as_newest(terminator)),
            final(self)@.program.fits(),
            final(self)@.program.extends(old(self)@.program),
            region.0 == old(self)@.program.regions.len(),
            !final(self)@.program.is_body(region),
    {
        proof {
            the_newest_fits(self@, terminator);
        }
        let ghost draft = self@;
        let region = Region {
            params: self.params,
            ops: Range::of(self.program.ops.len(), self.ops.len()),
            terminator,
        };
        append(&mut self.program.ops, self.ops.as_slice());
        append(&mut self.program.results, self.results.as_slice());
        self.program.regions.push(region);
        assert(self.program@ =~= draft.as_newest(terminator));
        let Outer { params, ops, results } = outer;
        self.params = params;
        self.ops = ops;
        self.results = results;
        RegionId::at(self.program.regions.len() - 1)
    }

    fn push_one(&mut self, op: Op, class: Class) -> (value: ValueId)
        requires
            old(self)@.wf(),
            old(self)@.program.room(1),
            old(self)@.program.names_only_what_exists(op),
            old(self)@.program.defines(op, 1),
            old(self)@.holds_regions(op),
        ensures
            final(self)@ == old(self)@.push(op, seq![class]),
            final(self)@.wf(),
            final(self)@.program.extends(old(self)@.program),
            value.0 == old(self)@.program.classes.len(),
    {
        proof {
            pushing_fits(self@, op, seq![class]);
        }
        let (value, results) = self.program.mint_one(class);
        self.ops.push(op);
        self.results.push(results);
        value
    }

    fn push(&mut self, op: Op, classes: &[Class]) -> (values: Vec<ValueId>)
        requires
            old(self)@.wf(),
            old(self)@.program.room(classes@.len()),
            old(self)@.program.names_only_what_exists(op),
            old(self)@.program.defines(op, classes@.len()),
            old(self)@.holds_regions(op),
        ensures
            final(self)@ == old(self)@.push(op, classes@),
            final(self)@.wf(),
            final(self)@.program.extends(old(self)@.program),
            values@ == old(self)@.program.fresh(classes@.len()),
    {
        proof {
            pushing_fits(self@, op, classes@);
        }
        let ghost parts = self@.program;
        let results = self.program.mint(classes);
        let values = vstd::slice::slice_to_vec(self.program.values(results));
        assert(values@ =~= parts.fresh(classes@.len()));
        self.ops.push(op);
        self.results.push(results);
        values
    }

    /// The same, for results a signature already names.
    fn push_from(&mut self, op: Op, answers: Range) -> (values: Vec<ValueId>)
        requires
            old(self)@.wf(),
            answers.within(old(self)@.program.signature.len()),
            old(self)@.program.room(answers.len as nat),
            old(self)@.program.names_only_what_exists(op),
            old(self)@.program.defines(op, answers.len as nat),
            old(self)@.holds_regions(op),
        ensures
            final(self)@ == old(self)@.push(op, answers.read(old(self)@.program.signature)),
            final(self)@.wf(),
            final(self)@.program.extends(old(self)@.program),
            values@ == old(self)@.program.fresh(answers.len as nat),
    {
        proof {
            pushing_fits(self@, op, answers.read(self@.program.signature));
        }
        let ghost parts = self@.program;
        let results = self.program.mint_from(answers);
        let values = vstd::slice::slice_to_vec(self.program.values(results));
        assert(values@ =~= parts.fresh(answers.len as nat));
        self.ops.push(op);
        self.results.push(results);
        values
    }

    /// A constant, taken modulo its class.
    pub fn constant(&mut self, class: Class, value: u64) -> (id: ValueId)
        requires
            old(self)@.wf(),
            old(self)@.program.room(1),
        ensures
            final(self)@ == old(self)@.push(Op::Constant { class, value: super::model::wrapped(class, value) }, seq![class]),
            final(self)@.wf(),
            final(self)@.program.extends(old(self)@.program),
            id.0 == old(self)@.program.classes.len(),
    {
        let value: u64 = wrap(class, value);
        self.push_one(Op::Constant { class, value }, class)
    }

    /// The same word, written the way a negative number reads.
    pub fn constant_signed(&mut self, class: Class, value: i64) -> (id: ValueId)
        requires
            old(self)@.wf(),
            old(self)@.program.room(1),
        ensures
            final(self)@ == old(self)@.push(
                Op::Constant { class, value: super::model::wrapped(class, pattern(value)) },
                seq![class],
            ),
            final(self)@.wf(),
            final(self)@.program.extends(old(self)@.program),
            id.0 == old(self)@.program.classes.len(),
    {
        if value >= 0 {
            assert(pattern(value) == value);
            self.constant(class, value as u64)
        } else {
            assert(value as int % 0x1_0000_0000_0000_0000 == value + 0x1_0000_0000_0000_0000);
            self.constant(class, u64::MAX - (-(value + 1)) as u64)
        }
    }

    pub fn address_of(&mut self, data: DataId) -> (value: ValueId)
        requires
            old(self)@.wf(),
            old(self)@.program.room(1),
            data.0 < old(self)@.program.spans.len(),
        ensures
            final(self)@ == old(self)@.push(Op::AddressOf(data), seq![Class::Address]),
            final(self)@.wf(),
            final(self)@.program.extends(old(self)@.program),
            value.0 == old(self)@.program.classes.len(),
    {
        self.push_one(Op::AddressOf(data), Class::Address)
    }

    pub fn data_len(&mut self, data: DataId) -> (value: ValueId)
        requires
            old(self)@.wf(),
            old(self)@.program.room(1),
            data.0 < old(self)@.program.spans.len(),
        ensures
            final(self)@ == old(self)@.push(
                Op::Constant {
                    class: Class::Word,
                    value: old(self)@.program.datum(data).len as u64,
                },
                seq![Class::Word],
            ),
            final(self)@.wf(),
            final(self)@.program.extends(old(self)@.program),
            value.0 == old(self)@.program.classes.len(),
    {
        let len: u32 = self.program.datum(data).len;
        self.constant(Class::Word, len as u64)
    }

    /// The result is of the class its left operand has.
    pub fn binary(&mut self, op: Binary, left: ValueId, right: ValueId) -> (value: ValueId)
        requires
            old(self)@.wf(),
            old(self)@.program.room(1),
            old(self)@.program.known(left),
            old(self)@.program.known(right),
        ensures
            final(self)@ == old(self)@.push(Op::Binary { op, left, right }, seq![old(self)@.program.class(left)]),
            final(self)@.wf(),
            final(self)@.program.extends(old(self)@.program),
            value.0 == old(self)@.program.classes.len(),
    {
        let class = self.program.class(left);
        self.push_one(Op::Binary { op, left, right }, class)
    }

    pub fn compare(&mut self, relation: Relation, left: ValueId, right: ValueId) -> (value: ValueId)
        requires
            old(self)@.wf(),
            old(self)@.program.room(1),
            old(self)@.program.known(left),
            old(self)@.program.known(right),
        ensures
            final(self)@ == old(self)@.push(Op::Compare { relation, left, right }, seq![Class::Word]),
            final(self)@.wf(),
            final(self)@.program.extends(old(self)@.program),
            value.0 == old(self)@.program.classes.len(),
    {
        self.push_one(Op::Compare { relation, left, right }, Class::Word)
    }

    pub fn load(&mut self, width: Width, address: ValueId, offset: Offset) -> (value: ValueId)
        requires
            old(self)@.wf(),
            old(self)@.program.room(1),
            old(self)@.program.known(address),
        ensures
            final(self)@ == old(self)@.push(Op::Load { width, address, offset }, seq![Class::Word]),
            final(self)@.wf(),
            final(self)@.program.extends(old(self)@.program),
            value.0 == old(self)@.program.classes.len(),
    {
        self.push_one(Op::Load { width, address, offset }, Class::Word)
    }

    pub fn store(&mut self, width: Width, address: ValueId, offset: Offset, value: ValueId)
        requires
            old(self)@.wf(),
            old(self)@.program.room(0),
            old(self)@.program.known(address),
            old(self)@.program.known(value),
        ensures
            final(self)@ == old(self)@.push(Op::Store { width, address, offset, value }, seq![]),
            final(self)@.wf(),
            final(self)@.program.extends(old(self)@.program),
    {
        let classes: [Class; 0] = [];
        assert(classes@ =~= seq![]);
        self.push(Op::Store { width, address, offset, value }, &classes);
    }

    pub fn convert(&mut self, class: Class, value: ValueId) -> (id: ValueId)
        requires
            old(self)@.wf(),
            old(self)@.program.room(1),
            old(self)@.program.known(value),
        ensures
            final(self)@ == old(self)@.push(Op::Convert { class, value }, seq![class]),
            final(self)@.wf(),
            final(self)@.program.extends(old(self)@.program),
            id.0 == old(self)@.program.classes.len(),
    {
        self.push_one(Op::Convert { class, value }, class)
    }

    pub fn platform_call(&mut self, platform: PlatformId, args: &[ValueId]) -> (values: Vec<ValueId>)
        requires
            old(self)@.wf(),
            platform.0 < old(self)@.program.platform.len(),
            all_known(old(self)@.program, args@),
            old(self)@.program.room(
                args@.len() + old(self)@.program.routine(platform).answers.len as nat,
            ),
        ensures
            final(self)@ == old(self)@.hold(args@).push(
                Op::PlatformCall {
                    platform,
                    args: Range::from(old(self)@.program.operands.len(), args@.len()),
                },
                old(self)@.program.routine(platform).answers.read(old(self)@.program.signature),
            ),
            final(self)@.wf(),
            final(self)@.program.extends(old(self)@.program),
            values@ == old(self)@.program.fresh(
                old(self)@.program.routine(platform).answers.len as nat,
            ),
    {
        proof {
            holding_fits(self@.program, args@);
            assert(self@.program.platform_fits(self@.program.platform[platform.0 as int]));
        }
        let ghost draft = self@;
        let answers = self.program.platform[platform.index()].answers;
        let args = self.program.hold(args);
        proof {
            a_draft_outlives_growth(draft, self@.program);
        }
        self.push_from(Op::PlatformCall { platform, args }, answers)
    }

    pub fn call(&mut self, function: FunctionId, args: &[ValueId]) -> (values: Vec<ValueId>)
        requires
            old(self)@.wf(),
            function.0 < old(self)@.program.functions.len(),
            all_known(old(self)@.program, args@),
            old(self)@.program.room(
                args@.len() + old(self)@.program.function(function).answers.len as nat,
            ),
        ensures
            final(self)@ == old(self)@.hold(args@).push(
                Op::Call {
                    function,
                    args: Range::from(old(self)@.program.operands.len(), args@.len()),
                },
                old(self)@.program.function(function).answers.read(old(self)@.program.signature),
            ),
            final(self)@.wf(),
            final(self)@.program.extends(old(self)@.program),
            values@ == old(self)@.program.fresh(
                old(self)@.program.function(function).answers.len as nat,
            ),
    {
        proof {
            holding_fits(self@.program, args@);
            assert(self@.program.function_fits(self@.program.functions[function.0 as int]));
        }
        let ghost draft = self@;
        let answers = self.program.functions[function.index()].answers;
        let args = self.program.hold(args);
        proof {
            a_draft_outlives_growth(draft, self@.program);
        }
        self.push_from(Op::Call { function, args }, answers)
    }

    /// An instruction that runs one of two regions, and leaves with what the
    /// one it ran yields.
    pub fn if_<T: FnOnce(&mut Builder) -> Terminator, E: FnOnce(&mut Builder) -> Terminator>(
        &mut self,
        condition: ValueId,
        results: &[Class],
        then: T,
        otherwise: E,
    ) -> (values: Vec<ValueId>)
        requires
            old(self)@.wf(),
            old(self)@.program.room(0),
            old(self)@.program.known(condition),
            forall|b: &mut Builder|
                b@ == old(self)@.inside(seq![]) ==> #[trigger] then.requires((b,)),
            forall|b: &mut Builder, left: Terminator|
                b@ == old(self)@.inside(seq![]) && #[trigger] then.ensures((b,), left) ==> final(
                    b)@.ends(old(self)@.inside(seq![]), left, 0),
            forall|b: &mut Builder, left: Terminator, c: &mut Builder|
                b@ == old(self)@.inside(seq![]) && #[trigger] then.ensures((b,), left) && c@
                    == old(self)@.after(final(b)@, left).inside(seq![])
                    ==> #[trigger] otherwise.requires((c,)),
            forall|b: &mut Builder, left: Terminator, c: &mut Builder, right: Terminator|
                b@ == old(self)@.inside(seq![]) && #[trigger] then.ensures((b,), left) && c@
                    == old(self)@.after(final(b)@, left).inside(seq![])
                    && #[trigger] otherwise.ensures((c,), right) ==> final(c)@.ends(
                    old(self)@.after(final(b)@, left).inside(seq![]),
                    right,
                    results@.len(),
                ),
        ensures
            final(self)@.wf(),
            final(self)@.program.extends(old(self)@.program),
            exists|b: &mut Builder, left: Terminator, c: &mut Builder, right: Terminator|
                b@ == old(self)@.inside(seq![]) && #[trigger] then.ensures((b,), left) && c@
                    == old(self)@.after(final(b)@, left).inside(seq![])
                    && #[trigger] otherwise.ensures((c,), right) && final(self)@
                    == old(self)@.after(final(b)@, left).after(final(c)@, right).push(
                    Op::If {
                        condition,
                        then_region: RegionId(final(b)@.program.regions.len() as u32),
                        else_region: RegionId(final(c)@.program.regions.len() as u32),
                    },
                    results@,
                ) && values@ == final(c)@.program.fresh(results@.len()),
    {
        let ghost start = self@;
        let none: [Class; 0] = [];
        assert(none@ =~= seq![]);
        let outer = self.open(&none);
        let left = then(&mut *self);
        let ghost inner = self@;
        let then_region = self.close(outer, left);
        let ghost between = self@;
        proof {
            assert(between =~= start.after(inner, left));
            growth_chains(start.program, inner.program, between.program);
            a_draft_outlives_growth(start, between.program);
        }
        let outer = self.open(&none);
        let right = otherwise(&mut *self);
        let ghost second = self@;
        let else_region = self.close(outer, right);
        proof {
            assert(self@ =~= between.after(second, right));
            growth_chains(between.program, second.program, self@.program);
            growth_chains(start.program, between.program, self@.program);
            a_draft_outlives_growth(between, self@.program);
            assert(!self@.program.is_body(then_region));
        }
        let op = Op::If { condition, then_region, else_region };
        proof {
            assert(self@.holds_regions(op));
        }
        let values = self.push(op, results);
        values
    }

    /// The same, of two regions built already.
    pub(crate) fn if_of(
        &mut self,
        condition: ValueId,
        then_region: RegionId,
        else_region: RegionId,
        results: &[Class],
    ) -> (values: Vec<ValueId>)
        requires
            old(self)@.wf(),
            old(self)@.program.room(results@.len()),
            old(self)@.program.known(condition),
            then_region.0 < old(self)@.program.regions.len(),
            else_region.0 < old(self)@.program.regions.len(),
            !old(self)@.program.is_body(then_region),
            !old(self)@.program.is_body(else_region),
        ensures
            final(self)@ == old(self)@.push(
                Op::If { condition, then_region, else_region },
                results@,
            ),
            final(self)@.wf(),
            final(self)@.program.extends(old(self)@.program),
            values@ == old(self)@.program.fresh(results@.len()),
    {
        let op = Op::If { condition, then_region, else_region };
        proof {
            assert(self@.holds_regions(op));
        }
        self.push(op, results)
    }

    /// The body runs with `initial`, then with whatever each `Continue`
    /// carries. `results` are the classes a `Break` leaves with.
    pub fn loop_<F: FnOnce(&mut Builder, &[ValueId]) -> Terminator>(
        &mut self,
        initial: &[ValueId],
        results: &[Class],
        build: F,
    ) -> (values: Vec<ValueId>)
        requires
            old(self)@.wf(),
            old(self)@.program.room(initial@.len()),
            all_known(old(self)@.program, initial@),
            forall|b: &mut Builder, params: &[ValueId]|
                b@ == old(self)@.inside(old(self)@.program.classes_of(initial@)) && params@
                    == old(self)@.program.fresh(initial@.len()) ==> #[trigger] build.requires(
                    (b, params),
                ),
            forall|b: &mut Builder, params: &[ValueId], left: Terminator|
                b@ == old(self)@.inside(old(self)@.program.classes_of(initial@)) && params@
                    == old(self)@.program.fresh(initial@.len()) && #[trigger] build.ensures(
                    (b, params),
                    left,
                ) ==> final(b)@.ends(
                    old(self)@.inside(old(self)@.program.classes_of(initial@)),
                    left,
                    initial@.len() + results@.len(),
                ),
        ensures
            final(self)@.wf(),
            final(self)@.program.extends(old(self)@.program),
            exists|b: &mut Builder, params: &[ValueId], left: Terminator|
                b@ == old(self)@.inside(old(self)@.program.classes_of(initial@)) && params@
                    == old(self)@.program.fresh(initial@.len()) && #[trigger] build.ensures(
                    (b, params),
                    left,
                ) && final(self)@ == old(self)@.after(final(b)@, left).hold(initial@).push(
                    Op::Loop {
                        initial: Range::from(final(b)@.program.operands.len(), initial@.len()),
                        body: RegionId(final(b)@.program.regions.len() as u32),
                    },
                    results@,
                ) && values@ == final(b)@.program.fresh(results@.len()),
    {
        let ghost start = self@;
        let mut classes: Vec<Class> = Vec::new();
        let mut at: usize = 0;
        while at < initial.len()
            invariant
                self@ == start,
                at <= initial.len(),
                all_known(start.program, initial@),
                classes@ == start.program.classes_of(initial@.take(at as int)),
            decreases initial.len() - at,
        {
            assert(start.program.known(initial@[at as int]));
            classes.push(self.program.class(initial[at]));
            at = at + 1;
            assert(classes@ =~= start.program.classes_of(initial@.take(at as int)));
        }
        assert(initial@.take(at as int) =~= initial@);
        let outer = self.open(classes.as_slice());
        let params = vstd::slice::slice_to_vec(self.program.values(self.params));
        assert(params@ =~= start.program.fresh(initial@.len()));
        let left = build(&mut *self, params.as_slice());
        let ghost inner = self@;
        let body = self.close(outer, left);
        let ghost between = self@;
        proof {
            assert(between =~= start.after(inner, left));
            growth_chains(start.program, inner.program, between.program);
            a_draft_outlives_growth(start, between.program);
            holding_fits(between.program, initial@);
        }
        let initial = self.program.hold(initial);
        proof {
            a_draft_outlives_growth(between, self@.program);
            growth_chains(start.program, between.program, self@.program);
            assert(!self@.program.is_body(body));
            assert(self@.holds_regions(Op::Loop { initial, body }));
        }
        let values = self.push(Op::Loop { initial, body }, results);
        values
    }

    pub fn ret(&mut self, values: &[ValueId]) -> (terminator: Terminator)
        requires
            old(self)@.wf(),
            all_known(old(self)@.program, values@),
            old(self)@.program.room(values@.len()),
        ensures
            final(self)@ == old(self)@.hold(values@),
            final(self)@.wf(),
            final(self)@.program.extends(old(self)@.program),
            terminator == old(self)@.leaving(Exit::Return, values@.len()),
            terminator.values.within(final(self)@.program.operands.len()),
    {
        self.exit(Exit::Return, values)
    }

    pub fn yield_(&mut self, values: &[ValueId]) -> (terminator: Terminator)
        requires
            old(self)@.wf(),
            all_known(old(self)@.program, values@),
            old(self)@.program.room(values@.len()),
        ensures
            final(self)@ == old(self)@.hold(values@),
            final(self)@.wf(),
            final(self)@.program.extends(old(self)@.program),
            terminator == old(self)@.leaving(Exit::Yield, values@.len()),
            terminator.values.within(final(self)@.program.operands.len()),
    {
        self.exit(Exit::Yield, values)
    }

    pub fn continue_(&mut self, values: &[ValueId]) -> (terminator: Terminator)
        requires
            old(self)@.wf(),
            all_known(old(self)@.program, values@),
            old(self)@.program.room(values@.len()),
        ensures
            final(self)@ == old(self)@.hold(values@),
            final(self)@.wf(),
            final(self)@.program.extends(old(self)@.program),
            terminator == old(self)@.leaving(Exit::Continue, values@.len()),
            terminator.values.within(final(self)@.program.operands.len()),
    {
        self.exit(Exit::Continue, values)
    }

    pub fn break_(&mut self, values: &[ValueId]) -> (terminator: Terminator)
        requires
            old(self)@.wf(),
            all_known(old(self)@.program, values@),
            old(self)@.program.room(values@.len()),
        ensures
            final(self)@ == old(self)@.hold(values@),
            final(self)@.wf(),
            final(self)@.program.extends(old(self)@.program),
            terminator == old(self)@.leaving(Exit::Break, values@.len()),
            terminator.values.within(final(self)@.program.operands.len()),
    {
        self.exit(Exit::Break, values)
    }

    fn exit(&mut self, exit: Exit, values: &[ValueId]) -> (terminator: Terminator)
        requires
            old(self)@.wf(),
            all_known(old(self)@.program, values@),
            old(self)@.program.room(values@.len()),
        ensures
            final(self)@ == old(self)@.hold(values@),
            final(self)@.wf(),
            final(self)@.program.extends(old(self)@.program),
            terminator == old(self)@.leaving(exit, values@.len()),
            terminator.values.within(final(self)@.program.operands.len()),
    {
        let ghost draft = self@;
        proof {
            holding_fits(draft.program, values@);
        }
        let values = self.program.hold(values);
        proof {
            a_draft_outlives_growth(draft, self@.program);
        }
        Terminator { exit, values }
    }
}

} // verus!
