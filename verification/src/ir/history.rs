//! What any run of calls leaves as it was.
//!
//! A program only grows. Whatever is declared, named, placed or defined later,
//! a value keeps its class, a function its signature, a symbol its name, a
//! datum its bytes, and a region that is finished its instructions.

use super::builder::Draft;
use super::model::{
    Class, DataId, FunctionId, Op, Origin, Parts, RegionId, Terminator, ValueId,
};
use crate::pool;
use vstd::prelude::*;

verus! {

impl Parts {
    /// Whether this is what became of `old`: everything that was there is
    /// there still, but for what functions run.
    pub open spec fn outlives(self, old: Parts) -> bool {
        &&& old.platform.is_prefix_of(self.platform)
        &&& old.data.is_prefix_of(self.data)
        &&& old.globals.is_prefix_of(self.globals)
        &&& old.spans.is_prefix_of(self.spans)
        &&& old.functions.is_prefix_of(self.functions)
        &&& old.classes.is_prefix_of(self.classes)
        &&& old.signature.is_prefix_of(self.signature)
        &&& old.ops.is_prefix_of(self.ops)
        &&& old.results.is_prefix_of(self.results)
        &&& old.operands.is_prefix_of(self.operands)
        &&& self.names.holds(old.names)
        &&& old.regions.len() <= self.regions.len()
        &&& forall|r: RegionId|
            r.0 < old.regions.len() && !old.is_body(r) ==> #[trigger] self.region(r) == old.region(
                r,
            ) && !self.is_body(r)
    }

    /// Whether no two functions run the same region.
    pub open spec fn has_bodies_apart(self) -> bool {
        forall|f: int, g: int|
            0 <= f < g < self.functions.len() ==> (#[trigger] self.functions[f]).body != (
            #[trigger] self.functions[g]).body
    }

    /// The bytes of a datum.
    pub open spec fn datum_bytes(self, data: DataId) -> Seq<u8> {
        let span = self.datum(data);
        let blob = match span.origin {
            Origin::Data => self.data,
            Origin::Globals => self.globals,
        };
        blob.subrange(span.start as int, span.start + span.len)
    }
}

/// A call that changes a program.
pub enum Call {
    Intern(Seq<u8>),
    Global(Seq<u8>),
    Symbol(Seq<char>),
    Platform(Seq<char>, Seq<Class>, Seq<Class>),
    Declare(Seq<char>, Seq<Class>, Seq<Class>),
    /// A function's body, as it was built and how it ends.
    Define(FunctionId, Draft, Terminator),
}

impl Call {
    /// What the call asks of the program.
    pub open spec fn may(self, parts: Parts) -> bool {
        &&& parts.fits()
        &&& match self {
            Call::Intern(bytes) => parts.room(bytes.len() + 1),
            Call::Global(bytes) => parts.room(bytes.len() + 1),
            Call::Symbol(name) => parts.room(vstd::utf8::encode_utf8(name).len() + 1),
            Call::Platform(name, params, answers) => parts.room(
                vstd::utf8::encode_utf8(name).len() + params.len() + answers.len() + 1,
            ),
            Call::Declare(name, params, answers) => parts.room(
                vstd::utf8::encode_utf8(name).len() + params.len() + answers.len() + 1,
            ),
            Call::Define(function, draft, terminator) => {
                &&& function.0 < parts.functions.len()
                &&& draft.ends(
                    Draft::opened(parts, parts.function(function).params),
                    terminator,
                    0,
                )
            },
        }
    }

    /// What the call leaves.
    pub open spec fn done(self, parts: Parts) -> Parts {
        match self {
            Call::Intern(bytes) => parts.with_datum(Origin::Data, bytes),
            Call::Global(bytes) => parts.with_datum(Origin::Globals, bytes),
            Call::Symbol(name) => parts.with_symbol(name),
            Call::Platform(name, params, answers) => parts.with_platform(name, params, answers),
            Call::Declare(name, params, answers) => parts.with_function(name, params, answers),
            Call::Define(function, draft, terminator) => draft.as_body(function, terminator),
        }
    }
}

/// Whether calls may be made one after the other.
pub open spec fn may_all(parts: Parts, calls: Seq<Call>) -> bool
    decreases calls.len(),
{
    calls.len() == 0 || (may_all(parts, calls.drop_last()) && calls.last().may(
        done_all(parts, calls.drop_last()),
    ))
}

/// What they leave.
pub open spec fn done_all(parts: Parts, calls: Seq<Call>) -> Parts
    decreases calls.len(),
{
    if calls.len() == 0 {
        parts
    } else {
        calls.last().done(done_all(parts, calls.drop_last()))
    }
}

/// Whether none of some calls defines a function.
pub open spec fn leave_alone(calls: Seq<Call>, function: FunctionId) -> bool {
    forall|i: int|
        0 <= i < calls.len() ==> ((#[trigger] calls[i]) matches Call::Define(f, _, _) ==> f
            != function)
}

/// What outlives what outlives a program outlives it.
pub proof fn outliving_chains(first: Parts, second: Parts, third: Parts)
    requires
        second.outlives(first),
        third.outlives(second),
    ensures
        third.outlives(first),
{
    a_prefix_of_a_prefix(first.platform, second.platform, third.platform);
    a_prefix_of_a_prefix(first.data, second.data, third.data);
    a_prefix_of_a_prefix(first.globals, second.globals, third.globals);
    a_prefix_of_a_prefix(first.spans, second.spans, third.spans);
    a_prefix_of_a_prefix(first.functions, second.functions, third.functions);
    a_prefix_of_a_prefix(first.classes, second.classes, third.classes);
    a_prefix_of_a_prefix(first.signature, second.signature, third.signature);
    a_prefix_of_a_prefix(first.ops, second.ops, third.ops);
    a_prefix_of_a_prefix(first.results, second.results, third.results);
    a_prefix_of_a_prefix(first.operands, second.operands, third.operands);
    pool::holding_names_chains(first.names, second.names, third.names);
    assert forall|r: RegionId| r.0 < first.regions.len() && !first.is_body(r) implies
        #[trigger] third.region(r) == first.region(r) && !third.is_body(r) by {
        assert(second.region(r) == first.region(r));
    }
}

proof fn a_prefix_of_a_prefix<T>(first: Seq<T>, second: Seq<T>, third: Seq<T>)
    requires
        first.is_prefix_of(second),
        second.is_prefix_of(third),
    ensures
        first.is_prefix_of(third),
{
    assert forall|i: int| 0 <= i < first.len() implies first[i] == third[i] by {
        assert(first[i] == second[i]);
    }
}

/// Where functions stay, so do the regions they run.
proof fn the_same_regions_are_run(old: Parts, new: Parts)
    requires
        new.functions == old.functions,
    ensures
        forall|r: RegionId| #[trigger] new.is_body(r) == old.is_body(r),
{
    assert forall|r: RegionId| #[trigger] new.is_body(r) == old.is_body(r) by {
        if old.is_body(r) {
            let f = choose|f: int|
                0 <= f < old.functions.len() && (#[trigger] old.functions[f]).body == r;
            assert(new.functions[f].body == r);
        }
        if new.is_body(r) {
            let f = choose|f: int|
                0 <= f < new.functions.len() && (#[trigger] new.functions[f]).body == r;
            assert(old.functions[f].body == r);
        }
    }
}

/// Whatever a builder does while it builds a region, the program outlives.
pub proof fn an_extension_outlives(old: Parts, new: Parts)
    requires
        new.extends(old),
    ensures
        new.outlives(old),
{
    the_same_regions_are_run(old, new);
}

/// A call leaves a program that outlives the one before it, and functions that
/// ran regions of their own go on doing so.
pub proof fn a_call_is_outlived(parts: Parts, call: Call)
    requires
        call.may(parts),
    ensures
        call.done(parts).outlives(parts),
        parts.has_bodies_apart() ==> call.done(parts).has_bodies_apart(),
{
    let after = call.done(parts);
    match call {
        Call::Intern(_) => {
            the_same_regions_are_run(parts, after);
        },
        Call::Global(_) => {
            the_same_regions_are_run(parts, after);
        },
        Call::Symbol(name) => {
            pool::naming_keeps_names(parts.names, name);
            the_same_regions_are_run(parts, after);
        },
        Call::Platform(name, _, _) => {
            pool::naming_keeps_names(parts.names, name);
            the_same_regions_are_run(parts, after);
        },
        Call::Declare(name, _, _) => {
            pool::naming_keeps_names(parts.names, name);
            let last = parts.functions.len() as int;
            assert forall|r: RegionId| r.0 < parts.regions.len() && !parts.is_body(r) implies
                #[trigger] after.region(r) == parts.region(r) && !after.is_body(r) by {
                if after.is_body(r) {
                    let f = choose|f: int|
                        0 <= f < after.functions.len() && (#[trigger] after.functions[f]).body == r;
                    if f < last {
                        assert(parts.functions[f].body == r);
                    }
                }
            }
            assert forall|f: int, g: int|
                parts.has_bodies_apart() && 0 <= f < g < after.functions.len() implies (
            #[trigger] after.functions[f]).body != (#[trigger] after.functions[g]).body by {
                assert(after.functions[f] == parts.functions[f]);
                assert(parts.function_fits(parts.functions[f]));
                if g < last {
                    assert(after.functions[g] == parts.functions[g]);
                }
            }
        },
        Call::Define(function, draft, terminator) => {
            a_definition_is_outlived(parts, function, draft, terminator);
        },
    }
}

proof fn a_definition_is_outlived(
    parts: Parts,
    function: FunctionId,
    draft: Draft,
    terminator: Terminator,
)
    requires
        Call::Define(function, draft, terminator).may(parts),
    ensures
        draft.as_body(function, terminator).outlives(parts),
        draft.as_body(function, terminator).functions == parts.functions,
{
    let mid = draft.program;
    let after = draft.as_body(function, terminator);
    assert forall|r: RegionId| r.0 < parts.regions.len() && !parts.is_body(r) implies
        #[trigger] after.region(r) == parts.region(r) && !after.is_body(r) by {
        assert(mid.regions[r.0 as int] == parts.regions[r.0 as int]);
        assert(parts.functions[function.0 as int].body != r);
    }
    a_prefix_of_a_prefix(parts.ops, mid.ops, after.ops);
    a_prefix_of_a_prefix(parts.results, mid.results, after.results);
}

/// However many calls are made, the program outlives what it was.
pub proof fn calls_are_outlived(parts: Parts, calls: Seq<Call>)
    requires
        may_all(parts, calls),
    ensures
        done_all(parts, calls).outlives(parts),
        parts.has_bodies_apart() ==> done_all(parts, calls).has_bodies_apart(),
    decreases calls.len(),
{
    if calls.len() > 0 {
        let before = done_all(parts, calls.drop_last());
        calls_are_outlived(parts, calls.drop_last());
        a_call_is_outlived(before, calls.last());
        outliving_chains(parts, before, done_all(parts, calls));
    }
}

/// An instruction's values are of the classes they were minted with, and
/// stay so.
pub proof fn a_value_keeps_its_class(
    draft: Draft,
    op: Op,
    classes: Seq<Class>,
    later: Parts,
    i: int,
)
    requires
        draft.program.room(classes.len()),
        0 <= i < classes.len(),
        later.outlives(draft.push(op, classes).program),
    ensures
        later.known(draft.program.fresh(classes.len())[i]),
        later.class(draft.program.fresh(classes.len())[i]) == classes[i],
{
    let minted = draft.push(op, classes).program;
    let at = draft.program.classes.len() + i;
    assert(minted.classes[at] == classes[i]);
    assert(later.classes[at] == minted.classes[at]);
}

/// Any value there is keeps its class, however many calls are made.
pub proof fn every_value_keeps_its_class(parts: Parts, value: ValueId, calls: Seq<Call>)
    requires
        may_all(parts, calls),
        parts.known(value),
    ensures
        done_all(parts, calls).known(value),
        done_all(parts, calls).class(value) == parts.class(value),
{
    calls_are_outlived(parts, calls);
    let later = done_all(parts, calls);
    assert(later.classes[value.0 as int] == parts.classes[value.0 as int]);
}

/// A value that is minted later is another value.
pub proof fn minted_values_differ(before: Parts, after: Parts, value: ValueId, other: ValueId)
    requires
        after.outlives(before),
        before.known(value),
        other.0 >= after.classes.len(),
    ensures
        value != other,
{
}

/// The entry is the first function, under the name it was given, whatever is
/// called afterwards.
pub proof fn the_entry_stays(name: Seq<char>, calls: Seq<Call>)
    requires
        vstd::utf8::encode_utf8(name).len() + 2 <= u32::MAX,
        may_all(Parts::nothing().with_function(name, seq![], seq![Class::Word]), calls),
    ensures
        ({
            let start = Parts::nothing().with_function(name, seq![], seq![Class::Word]);
            let later = done_all(start, calls);
            &&& later.functions.len() > 0
            &&& later.function(FunctionId(0)) == start.function(FunctionId(0))
            &&& later.name(later.function(FunctionId(0)).name) == name
        }),
{
    let nothing = Parts::nothing();
    let start = nothing.with_function(name, seq![], seq![Class::Word]);
    let later = done_all(start, calls);
    assert(nothing.names.fits()) by {
        vstd::utf8::encode_utf8_valid_utf8(Seq::<char>::empty());
        assert(vstd::utf8::encode_utf8(Seq::<char>::empty()) =~= Seq::<u8>::empty());
    }
    pool::naming_keeps_names(nothing.names, name);
    calls_are_outlived(start, calls);
    assert(later.functions[0] == start.functions[0]);
    let symbol = nothing.names.symbol(name);
    assert(later.names.bytes(symbol) == start.names.bytes(symbol));
}

/// A symbol goes on standing for its name, and is the symbol of no other.
/// Asking again for a name that is known changes nothing.
pub proof fn symbols_are_equal_where_names_are(
    parts: Parts,
    name: Seq<char>,
    calls: Seq<Call>,
    other: Seq<char>,
)
    requires
        Call::Symbol(name).may(parts),
        may_all(parts.with_symbol(name), calls),
        Call::Symbol(other).may(done_all(parts.with_symbol(name), calls)),
    ensures
        ({
            let later = done_all(parts.with_symbol(name), calls);
            &&& later.name(parts.symbol(name)) == name
            &&& parts.symbol(name) == later.symbol(other) <==> name == other
            &&& name == other ==> later.with_symbol(other) == later
        }),
{
    let named = parts.with_symbol(name);
    let later = done_all(named, calls);
    calls_are_outlived(named, calls);
    pool::a_symbol_stands_for_one_name(parts.names, name, later.names, other);
    pool::naming_keeps_names(parts.names, name);
    pool::naming_keeps_names(later.names, other);
    assert(later.names.with(other).symbols.len() <= u32::MAX);
}

/// A symbol keeps its name, however many calls are made.
pub proof fn a_symbol_keeps_its_name(parts: Parts, name: Seq<char>, calls: Seq<Call>)
    requires
        Call::Symbol(name).may(parts),
        may_all(parts.with_symbol(name), calls),
    ensures
        done_all(parts.with_symbol(name), calls).name(parts.symbol(name)) == name,
{
    let named = parts.with_symbol(name);
    let later = done_all(named, calls);
    pool::naming_keeps_names(parts.names, name);
    calls_are_outlived(named, calls);
    let symbol = parts.names.symbol(name);
    assert(later.names.bytes(symbol) == named.names.bytes(symbol));
}

/// A datum keeps its bytes, however many calls are made.
pub proof fn a_datum_keeps_its_bytes(
    parts: Parts,
    origin: Origin,
    bytes: Seq<u8>,
    calls: Seq<Call>,
)
    requires
        parts.fits(),
        parts.room(bytes.len() + 1),
        may_all(parts.with_datum(origin, bytes), calls),
    ensures
        ({
            let later = done_all(parts.with_datum(origin, bytes), calls);
            let data = DataId(parts.spans.len() as u32);
            &&& data.0 < later.spans.len()
            &&& later.datum(data).origin == origin
            &&& later.datum_bytes(data) == bytes
        }),
{
    let placed = parts.with_datum(origin, bytes);
    let later = done_all(placed, calls);
    let data = DataId(parts.spans.len() as u32);
    calls_are_outlived(placed, calls);
    assert(later.spans[data.0 as int] == placed.spans[data.0 as int]);
    let (blob, now) = match origin {
        Origin::Data => (placed.data, later.data),
        Origin::Globals => (placed.globals, later.globals),
    };
    let start = blob.len() - bytes.len();
    assert forall|i: int| 0 <= i < bytes.len() implies now[start + i] == bytes[i] by {
        assert(now[start + i] == blob[start + i]);
    }
    assert(later.datum_bytes(data) =~= bytes);
}

/// An instruction is put after those before it, with the values it was answered
/// with, and those before it keep theirs.
pub proof fn a_push_is_last(draft: Draft, op: Op, classes: Seq<Class>)
    requires
        draft.wf(),
        draft.program.room(classes.len()),
    ensures
        ({
            let after = draft.push(op, classes);
            &&& after.ops == draft.ops.push(op)
            &&& after.results.len() == after.ops.len()
            &&& after.program.values(after.results.last()) == draft.program.fresh(classes.len())
            &&& forall|i: int|
                0 <= i < draft.results.len() ==> #[trigger] after.results[i] == draft.results[i]
                    && after.program.values(draft.results[i]) == draft.program.values(
                    draft.results[i],
                )
        }),
{
    let after = draft.push(op, classes);
    assert(after.program.values(after.results.last()) =~= draft.program.fresh(classes.len()));
    assert forall|i: int| 0 <= i < draft.results.len() implies #[trigger] after.results[i]
        == draft.results[i] && after.program.values(draft.results[i]) == draft.program.values(
        draft.results[i],
    ) by {
        assert(draft.program.op_fits(draft.ops[i], draft.results[i]));
        assert(after.program.values(draft.results[i]) =~= draft.program.values(draft.results[i]));
    }
}

/// Whether a region holds exactly the instructions a draft was given, in the
/// order they were, each with the values it was answered with.
pub open spec fn is_as_built(parts: Parts, region: RegionId, draft: Draft) -> bool {
    &&& parts.region_ops(region) == draft.ops
    &&& parts.region_results(region) == draft.results
    &&& forall|i: int|
        0 <= i < draft.results.len() ==> parts.values(#[trigger] draft.results[i])
            == draft.program.values(draft.results[i])
}

/// A region whose run of instructions is where it was put is as it was built.
proof fn a_settled_run_stays(draft: Draft, region: RegionId, terminator: Terminator, later: Parts)
    requires
        draft.wf(),
        draft.program.room(draft.ops.len() + 1),
        later.region(region) == draft.region(terminator),
        draft.settled().ops.is_prefix_of(later.ops),
        draft.settled().results.is_prefix_of(later.results),
        draft.program.operands.is_prefix_of(later.operands),
    ensures
        is_as_built(later, region, draft),
{
    super::faithful::a_settled_region_reads_back(later, draft, terminator, region);
    assert forall|i: int| 0 <= i < draft.results.len() implies later.values(
        #[trigger] draft.results[i],
    ) == draft.program.values(draft.results[i]) by {
        let run = draft.results[i];
        assert(draft.program.op_fits(draft.ops[i], draft.results[i]));
        assert forall|j: int| 0 <= j < run.len implies #[trigger] later.values(run)[j]
            == draft.program.values(run)[j] by {
            assert(later.operands[run.start + j] == draft.program.operands[run.start + j]);
        }
        assert(later.values(run) =~= draft.program.values(run));
    }
}

/// A region inside another, once it is finished, holds what it was given and
/// goes on doing so, in whatever becomes of the program.
pub proof fn a_finished_region_stays(draft: Draft, terminator: Terminator, later: Parts)
    requires
        draft.wf(),
        draft.program.room(draft.ops.len() + 1),
        later.outlives(draft.as_newest(terminator)),
    ensures
        is_as_built(later, RegionId(draft.program.regions.len() as u32), draft),
        later.region(RegionId(draft.program.regions.len() as u32)).terminator == terminator,
{
    let newest = draft.as_newest(terminator);
    let region = RegionId(draft.program.regions.len() as u32);
    assert(!newest.is_body(region)) by {
        if newest.is_body(region) {
            let f = choose|f: int|
                0 <= f < newest.functions.len() && (#[trigger] newest.functions[f]).body == region;
            assert(draft.program.function_fits(draft.program.functions[f]));
        }
    }
    assert(later.region(region) == newest.region(region));
    a_settled_run_stays(draft, region, terminator, later);
}

/// What a function runs holds what it was given, and goes on doing so while
/// that function is not defined again, whatever else is called.
pub proof fn a_finished_body_stays(
    parts: Parts,
    function: FunctionId,
    draft: Draft,
    terminator: Terminator,
    calls: Seq<Call>,
)
    requires
        parts.has_bodies_apart(),
        Call::Define(function, draft, terminator).may(parts),
        may_all(draft.as_body(function, terminator), calls),
        leave_alone(calls, function),
    ensures
        ({
            let later = done_all(draft.as_body(function, terminator), calls);
            let body = parts.function(function).body;
            &&& later.function(function) == parts.function(function)
            &&& is_as_built(later, body, draft)
            &&& later.region(body).terminator == terminator
        }),
{
    let defined = draft.as_body(function, terminator);
    let later = done_all(defined, calls);
    let body = parts.function(function).body;
    a_call_is_outlived(parts, Call::Define(function, draft, terminator));
    assert(parts.function_fits(parts.functions[function.0 as int]));
    a_body_is_left_alone(defined, function, calls);
    assert(later.functions[function.0 as int] == defined.functions[function.0 as int]);
    a_settled_run_stays(draft, body, terminator, later);
}

/// The region a function runs stays while the function is not defined again.
pub proof fn a_body_is_left_alone(parts: Parts, function: FunctionId, calls: Seq<Call>)
    requires
        parts.has_bodies_apart(),
        function.0 < parts.functions.len(),
        parts.function(function).body.0 < parts.regions.len(),
        may_all(parts, calls),
        leave_alone(calls, function),
    ensures
        done_all(parts, calls).outlives(parts),
        done_all(parts, calls).region(parts.function(function).body) == parts.region(
            parts.function(function).body,
        ),
    decreases calls.len(),
{
    calls_are_outlived(parts, calls);
    if calls.len() > 0 {
        let rest = calls.drop_last();
        let before = done_all(parts, rest);
        let body = parts.function(function).body;
        assert(leave_alone(rest, function)) by {
            assert forall|i: int| 0 <= i < rest.len() implies ((#[trigger] rest[i]) matches
                Call::Define(f, _, _) ==> f != function) by {
                assert(rest[i] == calls[i]);
            }
        }
        a_body_is_left_alone(parts, function, rest);
        calls_are_outlived(parts, rest);
        assert(before.functions[function.0 as int] == parts.functions[function.0 as int]);
        assert(calls[calls.len() - 1] == calls.last());
        if let Call::Define(other, draft, terminator) = calls.last() {
            assert(before.functions[other.0 as int].body != body) by {
                if other.0 < function.0 {
                    assert(before.functions[other.0 as int].body
                        != before.functions[function.0 as int].body);
                } else {
                    assert(before.functions[function.0 as int].body
                        != before.functions[other.0 as int].body);
                }
            }
            assert(draft.program.functions == before.functions);
            assert(draft.program.regions[body.0 as int] == before.regions[body.0 as int]);
        }
    }
}

/// A program starts with functions that run regions of their own.
pub proof fn a_new_program_has_bodies_apart(name: Seq<char>)
    ensures
        Parts::nothing().with_function(name, seq![], seq![Class::Word]).has_bodies_apart(),
{
}

} // verus!
