//! What a program is lowered to is in order.
//!
//! Values are numbered as they are minted, so what one instruction defines,
//! with the regions inside it, lies in a stretch of numbers of its own.

use super::builder::Draft;
use super::faithful::{self, holds};
use super::lower::{self, FrameForm, Place};
use super::model::{
    Binary, Class, Exit, FunctionId, Op, Parts, Range, RegionId, Relation, Terminator, ValueId,
};
use super::order;
use crate::barb;
use crate::barb::{constant, facts};
use vstd::prelude::*;

verus! {

/// Whether values lie in a stretch of numbers.
pub open spec fn lies(values: Set<ValueId>, low: nat, high: nat) -> bool {
    forall|v: ValueId| #[trigger] values.contains(v) ==> low <= v.0 < high
}

/// The values the regions inside an instruction define.
pub open spec fn inner_made(whole: Parts, op: Op) -> Set<ValueId> {
    match op {
        Op::If { then_region, else_region, .. } => whole.entered(then_region).union(
            whole.entered(else_region),
        ),
        Op::Loop { body, .. } => whole.entered(body),
        _ => Set::empty(),
    }
}

/// The values an instruction defines, with those.
pub open spec fn op_made(whole: Parts, op: Op, results: Range) -> Set<ValueId> {
    order::among(whole.values(results)).union(inner_made(whole, op))
}

/// Whether the regions inside an instruction define every value once.
pub open spec fn inner_is_once(whole: Parts, op: Op) -> bool {
    match op {
        Op::If { then_region, else_region, .. } => {
            &&& whole.entered(then_region).disjoint(whole.entered(else_region))
            &&& whole.inside_is_single(then_region)
            &&& whole.inside_is_single(else_region)
        },
        Op::Loop { body, .. } => whole.inside_is_single(body),
        _ => true,
    }
}

/// Whether an instruction does, with those.
pub open spec fn op_is_once(whole: Parts, op: Op, results: Range) -> bool {
    &&& whole.values(results).no_duplicates()
    &&& order::among(whole.values(results)).disjoint(inner_made(whole, op))
    &&& inner_is_once(whole, op)
}

/// The values the instruction at `i` makes.
pub open spec fn made(whole: Parts, ops: Seq<Op>, results: Seq<Range>, i: int) -> Set<ValueId> {
    op_made(whole, ops[i], results[i])
}

/// Whether instructions make values of a stretch of numbers, each once.
pub open spec fn is_fresh(
    whole: Parts,
    ops: Seq<Op>,
    results: Seq<Range>,
    low: nat,
    high: nat,
) -> bool {
    &&& ops.len() == results.len()
    &&& forall|i: int|
        0 <= i < ops.len() ==> op_is_once(whole, #[trigger] ops[i], results[i])
    &&& forall|i: int|
        0 <= i < ops.len() ==> lies(#[trigger] made(whole, ops, results, i), low, high)
    &&& forall|i: int, j: int|
        0 <= i < j < ops.len() ==> (#[trigger] made(whole, ops, results, i)).disjoint(
            #[trigger] made(whole, ops, results, j),
        )
}

/// Whether an instruction is as it should be, and none that converts.
pub open spec fn is_tame(whole: Parts, op: Op, run: Range) -> bool {
    whole.is_in_order(op, run) && !(op is Convert)
}

/// Whether everything that is built so far is as it should be.
pub open spec fn is_told(whole: Parts, draft: Draft) -> bool {
    &&& faithful::is_even(draft.program)
    &&& forall|i: int|
        0 <= i < draft.program.ops.len() ==> is_tame(
            whole,
            #[trigger] whole.ops[i],
            whole.results[i],
        )
    &&& forall|i: int|
        0 <= i < draft.ops.len() ==> is_tame(whole, #[trigger] draft.ops[i], draft.results[i])
}

/// Whether a draft makes what it makes once, from a number on.
pub open spec fn is_sound(whole: Parts, draft: Draft, low: nat, high: nat) -> bool {
    &&& is_fresh(whole, draft.ops, draft.results, low, high)
    &&& is_told(whole, draft)
    &&& low <= high <= draft.program.classes.len()
}

/// A region of instructions that make everything once does so itself.
proof fn a_region_is_fresh(
    whole: Parts,
    region: RegionId,
    from: int,
    low: nat,
    high: nat,
)
    requires
        whole.wf(),
        region.0 < whole.regions.len(),
        0 <= from <= whole.region_ops(region).len(),
        is_fresh(
            whole,
            whole.region_ops(region),
            whole.region_results(region),
            low,
            high,
        ),
    ensures
        lies(whole.given(region, from), low, high),
        whole.is_single(region, from),
        forall|v: ValueId|
            #[trigger] whole.given(region, from).contains(v) ==> exists|i: int|
                from <= i < whole.region_ops(region).len() && (#[trigger] made(
                    whole,
                    whole.region_ops(region),
                    whole.region_results(region),
                    i,
                )).contains(v),
    decreases whole.region_ops(region).len() - from,
{
    let ops = whole.region_ops(region);
    let results = whole.region_results(region);
    if from < ops.len() {
        a_region_is_fresh(whole, region, from + 1, low, high);
        super::model::inside(whole, region, from);
        let here = made(whole, ops, results, from);
        let rest = whole.given(region, from + 1);
        assert(op_is_once(whole, ops[from], results[from]));
        assert(lies(here, low, high));
        match ops[from] {
            Op::If { then_region, else_region, .. } => {
                let inner = super::model::children(ops[from]);
                assert(whole.nests(region, inner[0]) && whole.nests(region, inner[1]));
                assert(inner[0] == then_region && inner[1] == else_region);
                assert(whole.op_given(region, from) =~= here);
                assert(order::among(whole.values(results[from])).disjoint(
                    whole.entered(then_region),
                ));
                assert(order::among(whole.values(results[from])).disjoint(
                    whole.entered(else_region),
                ));
            },
            Op::Loop { body, .. } => {
                let inner = super::model::children(ops[from]);
                assert(whole.nests(region, inner[0]));
                assert(inner[0] == body);
                assert(whole.op_given(region, from) =~= here);
            },
            _ => {
                assert(whole.op_given(region, from) =~= here);
            },
        }
        assert(whole.op_is_single(region, from));
        assert(here.disjoint(rest)) by {
            assert forall|v: ValueId| rest.contains(v) implies !here.contains(v) by {
                let i = choose|i: int|
                    from + 1 <= i < ops.len() && (#[trigger] made(whole, ops, results, i)).contains(
                        v,
                    );
                assert(here.disjoint(made(whole, ops, results, i)));
            }
        }
        assert forall|v: ValueId| #[trigger] whole.given(region, from).contains(
            v,
        ) implies exists|i: int|
            from <= i < ops.len() && (#[trigger] made(whole, ops, results, i)).contains(v) by {
            if here.contains(v) {
                assert(made(whole, ops, results, from).contains(v));
            } else {
                assert(rest.contains(v));
            }
        }
    }
}

/// What is minted is numbered from where the numbers were.
proof fn what_is_minted(whole: Parts, draft: Draft, op: Op, classes: Seq<Class>)
    requires
        lower::pushed(draft, op, classes) matches Ok(after) && holds(whole, after.program),
    ensures
        ({
            let after = lower::pushed(draft, op, classes)->Ok_0;
            let run = Range::from(draft.program.operands.len(), classes.len());
            let values = whole.values(run);
            let high = draft.program.classes.len();
            &&& after.ops == draft.ops.push(op)
            &&& after.results == draft.results.push(run)
            &&& values.len() == classes.len()
            &&& values.no_duplicates()
            &&& lies(order::among(values), high, high + classes.len())
            &&& after.program.classes.len() == high + classes.len()
            &&& forall|i: int|
                0 <= i < values.len() ==> whole.class(#[trigger] values[i]) == classes[i]
        }),
{
    let after = lower::pushed(draft, op, classes)->Ok_0;
    let run = Range::from(draft.program.operands.len(), classes.len());
    let high = draft.program.classes.len();
    assert(run.within(after.program.operands.len()));
    faithful::a_run_reads_the_same(whole, after.program, run);
    let values = whole.values(run);
    assert(values =~= draft.program.fresh(classes.len()));
    assert forall|i: int| 0 <= i < values.len() implies whole.class(#[trigger] values[i])
        == classes[i] by {
        assert(values[i].0 == high + i);
        assert(after.program.classes[high + i] == classes[i]);
        assert(whole.classes[high + i] == after.program.classes[high + i]);
    }
    assert forall|v: ValueId| #[trigger] order::among(values).contains(v) implies high <= v.0 < high
        + classes.len() by {
        let i = values.index_of(v);
        assert(values[i].0 == high + i);
    }
}

/// One more instruction, with what is inside it made since.
proof fn one_more_is_fresh(
    whole: Parts,
    draft: Draft,
    op: Op,
    classes: Seq<Class>,
    low: nat,
    high: nat,
)
    requires
        is_sound(whole, draft, low, high),
        lower::pushed(draft, op, classes) matches Ok(after) && holds(whole, after.program),
        lies(inner_made(whole, op), high, draft.program.classes.len()),
        inner_is_once(whole, op),
        is_tame(whole, op, Range::from(draft.program.operands.len(), classes.len())),
    ensures
        ({
            let after = lower::pushed(draft, op, classes)->Ok_0;
            is_sound(whole, after, low, after.program.classes.len())
        }),
{
    let after = lower::pushed(draft, op, classes)->Ok_0;
    let run = Range::from(draft.program.operands.len(), classes.len());
    let own = order::among(whole.values(run));
    let inner = inner_made(whole, op);
    let last = draft.ops.len() as int;
    let top = after.program.classes.len();
    what_is_minted(whole, draft, op, classes);
    assert(own.disjoint(inner)) by {
        assert forall|v: ValueId| own.contains(v) implies !inner.contains(v) by {}
    }
    assert(made(whole, after.ops, after.results, last) == op_made(whole, op, run));
    assert(lies(op_made(whole, op, run), high, top)) by {
        assert forall|v: ValueId| #[trigger] op_made(whole, op, run).contains(v) implies high <= v.0
            < top by {
            if !own.contains(v) {
                assert(inner.contains(v));
            }
        }
    }
    assert forall|i: int| 0 <= i < after.ops.len() implies op_is_once(
        whole,
        #[trigger] after.ops[i],
        after.results[i],
    ) by {
        if i < last {
            assert(op_is_once(whole, draft.ops[i], draft.results[i]));
        }
    }
    assert forall|i: int| 0 <= i < after.ops.len() implies lies(
        #[trigger] made(whole, after.ops, after.results, i),
        low,
        top,
    ) by {
        if i < last {
            assert(made(whole, after.ops, after.results, i) == made(
                whole,
                draft.ops,
                draft.results,
                i,
            ));
        }
    }
    assert forall|i: int, j: int| 0 <= i < j < after.ops.len() implies (#[trigger] made(
        whole,
        after.ops,
        after.results,
        i,
    )).disjoint(#[trigger] made(whole, after.ops, after.results, j)) by {
        assert(made(whole, after.ops, after.results, i) == made(
            whole,
            draft.ops,
            draft.results,
            i,
        ));
        if j < last {
            assert(made(whole, after.ops, after.results, j) == made(
                whole,
                draft.ops,
                draft.results,
                j,
            ));
        } else {
            assert(lies(made(whole, draft.ops, draft.results, i), low, high));
            assert forall|v: ValueId| made(whole, draft.ops, draft.results, i).contains(
                v,
            ) implies !op_made(whole, op, run).contains(v) by {}
        }
    }
    assert forall|i: int| 0 <= i < after.ops.len() implies is_tame(
        whole,
        #[trigger] after.ops[i],
        after.results[i],
    ) by {
        if i < last {
            assert(is_tame(whole, draft.ops[i], draft.results[i]));
        }
    }
}

/// A constant that is wrapped is one of its class.
proof fn a_constant_is_in_order(whole: Parts, class: Class, value: u64, run: Range)
    ensures
        is_tame(
            whole,
            Op::Constant { class, value: super::model::wrapped(class, value) },
            run,
        ),
{
    if let Class::Fixed { bits } = class {
        vstd::arithmetic::power2::lemma_pow2_pos(bits as nat);
        if bits >= 64 {
            vstd::arithmetic::power2::lemma2_to64_rest();
            if bits > 64 {
                vstd::arithmetic::power2::lemma_pow2_strictly_increases(64, bits as nat);
            }
        }
    }
}

/// A constant.
proof fn a_constant_is_fresh(
    whole: Parts,
    draft: Draft,
    class: Class,
    value: u64,
    low: nat,
    high: nat,
)
    requires
        is_sound(whole, draft, low, high),
        lower::constant_pushed(draft, class, value) matches Ok((after, _)) && holds(
            whole,
            after.program,
        ),
    ensures
        ({
            let after = lower::constant_pushed(draft, class, value)->Ok_0.0;
            is_sound(whole, after, low, after.program.classes.len())
        }),
{
    let op = Op::Constant { class, value: super::model::wrapped(class, value) };
    a_constant_is_in_order(
        whole,
        class,
        value,
        Range::from(draft.program.operands.len(), 1),
    );
    one_more_is_fresh(whole, draft, op, seq![class], low, high);
}

/// An operation.
proof fn an_operation_is_fresh(
    whole: Parts,
    draft: Draft,
    op: Binary,
    left: ValueId,
    right: ValueId,
    low: nat,
    high: nat,
)
    requires
        is_sound(whole, draft, low, high),
        draft.program.known(left),
        lower::binary_pushed(draft, op, left, right) matches Ok((after, _)) && holds(
            whole,
            after.program,
        ),
    ensures
        ({
            let after = lower::binary_pushed(draft, op, left, right)->Ok_0.0;
            is_sound(whole, after, low, after.program.classes.len())
        }),
{
    let class = draft.program.class(left);
    let after = lower::binary_pushed(draft, op, left, right)->Ok_0.0;
    let made = Op::Binary { op, left, right };
    what_is_minted(whole, draft, made, seq![class]);
    assert(after.program.classes[left.0 as int] == class);
    assert(whole.classes[left.0 as int] == after.program.classes[left.0 as int]);
    let values = whole.values(Range::from(draft.program.operands.len(), 1));
    assert(whole.class(values[0]) == class);
    one_more_is_fresh(whole, draft, made, seq![class], low, high);
}

/// What is held of a draft that goes on is held of the draft.
proof fn going_on_is_held(whole: Parts, base: Parts, before: Draft, after: Draft)
    requires
        faithful::goes_on(before, after),
        holds(whole, after.program),
        holds(before.program, base),
    ensures
        holds(whole, before.program),
        holds(after.program, base),
{
    faithful::an_extension_holds(after.program, before.program);
    faithful::holding_chains(whole, after.program, before.program);
    faithful::holding_chains(after.program, before.program, base);
}

/// Holding a list of values makes none.
proof fn a_hold_is_fresh(whole: Parts, draft: Draft, values: Seq<ValueId>, low: nat, high: nat)
    requires
        is_sound(whole, draft, low, high),
    ensures
        is_sound(whole, draft.hold(values), low, high),
{
}

/// A call.
proof fn a_call_is_fresh(
    frame: FrameForm,
    whole: Parts,
    base: Parts,
    draft: Draft,
    function: barb::FnId,
    args: Seq<ValueId>,
    low: nat,
)
    requires
        faithful::is_set(frame, base),
        holds(draft.program, base),
        function.0 < frame.places.len(),
        is_sound(whole, draft, low, draft.program.classes.len()),
        forall|i: int| 0 <= i < args.len() ==> draft.program.known(#[trigger] args[i]),
        frame.call_lowered(draft, function, args) matches Ok((after, _)) && holds(
            whole,
            after.program,
        ),
    ensures
        ({
            let after = frame.call_lowered(draft, function, args)->Ok_0.0;
            is_sound(whole, after, low, after.program.classes.len())
        }),
{
    let high = draft.program.classes.len();
    let run = Range::from(draft.program.operands.len(), args.len());
    if facts::known_of(frame.facts, function) == Some(barb::Operation::Add) {
        an_operation_is_fresh(whole, draft, Binary::Add, args[0], args[1], low, high);
    } else {
        let held = draft.hold(args);
        a_hold_is_fresh(whole, draft, args, low, high);
        match frame.places[function.0 as int] {
            Place::Routine(platform) => {
                let answers = draft.program.routine(platform).answers;
                assert(draft.program.platform[platform.0 as int].answers == answers);
                called_is_fresh(
                    whole,
                    draft,
                    args,
                    Op::PlatformCall { platform, args: run },
                    answers,
                    low,
                );
            },
            Place::Function(callee) => {
                let answers = draft.program.function(callee).answers;
                assert(draft.program.functions[callee.0 as int].answers == answers);
                called_is_fresh(
                    whole,
                    draft,
                    args,
                    Op::Call { function: callee, args: run },
                    answers,
                    low,
                );
            },
            Place::Instruction => {},
        }
    }
}

proof fn called_is_fresh(
    whole: Parts,
    draft: Draft,
    args: Seq<ValueId>,
    op: Op,
    answers: Range,
    low: nat,
)
    requires
        is_sound(whole, draft, low, draft.program.classes.len()),
        op is Call || op is PlatformCall,
        answers.within(draft.program.signature.len()),
        lower::called(draft, args, op, answers) matches Ok((after, _)) && holds(
            whole,
            after.program,
        ),
    ensures
        ({
            let after = lower::called(draft, args, op, answers)->Ok_0.0;
            is_sound(whole, after, low, after.program.classes.len())
        }),
{
    let high = draft.program.classes.len();
    let held = draft.hold(args);
    let classes = answers.read(draft.program.signature);
    a_hold_is_fresh(whole, draft, args, low, high);
    assert(held.program.room(classes.len()));
    assert(lower::pushed(held, op, classes) == Ok::<_, Seq<char>>(held.push(op, classes)));
    one_more_is_fresh(whole, held, op, classes, low, high);
}

/// The newest region is no function's body.
proof fn the_newest_is_inside(whole: Parts, base: Parts, ended: Draft, terminator: Terminator)
    requires
        holds(ended.program, base),
        base.functions.len() <= base.regions.len(),
        forall|i: int|
            0 <= i < base.functions.len() ==> (#[trigger] base.functions[i]).body.0 == i,
        holds(whole, ended.as_newest(terminator)),
        ended.program.regions.len() <= u32::MAX,
    ensures
        whole.region(RegionId(ended.program.regions.len() as u32)) == ended.region(terminator),
        ended.program.regions.len() < whole.regions.len(),
{
    let newest = ended.as_newest(terminator);
    let region = RegionId(ended.program.regions.len() as u32);
    assert(!newest.is_body(region)) by {
        if newest.is_body(region) {
            let f = choose|f: int|
                0 <= f < newest.functions.len() && (#[trigger] newest.functions[f]).body == region;
            assert(newest.functions[f] == base.functions[f]);
        }
    }
    assert(whole.region(region) == newest.region(region));
}

/// A region that is finished makes what it makes once, and what stands around
/// it is as it was.
proof fn a_finished_region_is_fresh(
    whole: Parts,
    base: Parts,
    outer: Draft,
    ended: Draft,
    terminator: Terminator,
    low: nat,
    mark: nat,
)
    requires
        whole.wf(),
        holds(ended.program, base),
        base.functions.len() <= base.regions.len(),
        forall|i: int|
            0 <= i < base.functions.len() ==> (#[trigger] base.functions[i]).body.0 == i,
        holds(whole, ended.as_newest(terminator)),
        ended.program.room(ended.ops.len() + 1),
        ended.params.len == 0,
        is_sound(whole, outer, low, mark),
        outer.program.classes.len() <= ended.program.classes.len(),
        is_sound(whole, ended, outer.program.classes.len(), ended.program.classes.len()),
    ensures
        is_sound(whole, outer.after(ended, terminator), low, mark),
        ({
            let region = RegionId(ended.program.regions.len() as u32);
            &&& lies(
                whole.entered(region),
                outer.program.classes.len(),
                ended.program.classes.len(),
            )
            &&& whole.inside_is_single(region)
        }),
{
    let region = RegionId(ended.program.regions.len() as u32);
    let start = outer.program.classes.len();
    let end = ended.program.classes.len();
    let newest = ended.as_newest(terminator);
    the_newest_is_inside(whole, base, ended, terminator);
    faithful::the_newest_region(whole, base, ended, terminator);
    a_region_is_fresh(whole, region, 0, start, end);
    let params = whole.values(whole.region(region).params);
    assert(params.len() == 0) by {
        assert(whole.region_fits(whole.regions[region.0 as int]));
    }
    assert(order::among(params) =~= Set::empty());
    assert(whole.entered(region) =~= whole.given(region, 0));
    let after = outer.after(ended, terminator);
    assert forall|i: int| 0 <= i < after.program.ops.len() implies is_tame(
        whole,
        #[trigger] whole.ops[i],
        whole.results[i],
    ) by {
        let from = ended.program.ops.len() as int;
        if i >= from {
            assert(newest.ops[i] == ended.ops[i - from]);
            assert(newest.results[i] == ended.results[i - from]);
            assert(whole.ops[i] == newest.ops[i]);
            assert(whole.results[i] == newest.results[i]);
            assert(is_tame(whole, ended.ops[i - from], ended.results[i - from]));
        }
    }
}

/// What an arm begins with.
proof fn counting_down_is_fresh(
    whole: Parts,
    inner: Draft,
    locals: Seq<Option<ValueId>>,
    counts: Option<(Class, ValueId)>,
    low: nat,
)
    requires
        is_sound(whole, inner, low, inner.program.classes.len()),
        inner.ops.len() == inner.results.len(),
        counts matches Some((_, scrutinee)) ==> inner.program.known(scrutinee),
        lower::counted_down(inner, locals, counts) matches Ok((after, _)) && holds(
            whole,
            after.program,
        ),
    ensures
        ({
            let after = lower::counted_down(inner, locals, counts)->Ok_0.0;
            is_sound(whole, after, low, after.program.classes.len())
        }),
{
    if let Some((class, scrutinee)) = counts {
        let (mid, one) = lower::constant_pushed(inner, class, 1)->Ok_0;
        let after = lower::binary_pushed(mid, Binary::Sub, scrutinee, one)->Ok_0.0;
        let op = Op::Binary { op: Binary::Sub, left: scrutinee, right: one };
        faithful::a_push_goes_on(mid, op, seq![mid.program.class(scrutinee)]);
        faithful::an_extension_holds(after.program, mid.program);
        faithful::holding_chains(whole, after.program, mid.program);
        a_constant_is_fresh(whole, inner, class, 1, low, inner.program.classes.len());
        an_operation_is_fresh(
            whole,
            mid,
            Binary::Sub,
            scrutinee,
            one,
            low,
            mid.program.classes.len(),
        );
    }
}

/// Asking whether a number is nought.
proof fn asking_is_fresh(whole: Parts, draft: Draft, class: Class, scrutinee: ValueId, low: nat)
    requires
        is_sound(whole, draft, low, draft.program.classes.len()),
        draft.ops.len() == draft.results.len(),
        lower::asked(draft, class, scrutinee) matches Ok((after, _)) && holds(
            whole,
            after.program,
        ),
    ensures
        ({
            let after = lower::asked(draft, class, scrutinee)->Ok_0.0;
            is_sound(whole, after, low, after.program.classes.len())
        }),
{
    let (mid, nought) = lower::constant_pushed(draft, class, 0)->Ok_0;
    let op = Op::Compare { relation: Relation::Equal, left: scrutinee, right: nought };
    let after = lower::pushed(mid, op, seq![Class::Word])->Ok_0;
    faithful::a_push_goes_on(mid, op, seq![Class::Word]);
    faithful::an_extension_holds(after.program, mid.program);
    faithful::holding_chains(whole, after.program, mid.program);
    a_constant_is_fresh(whole, draft, class, 0, low, draft.program.classes.len());
    one_more_is_fresh(whole, mid, op, seq![Class::Word], low, mid.program.classes.len());
}

/// What atoms pass is known.
proof fn what_is_passed_is_known(
    parts: Parts,
    locals: Seq<Option<ValueId>>,
    atoms: Seq<barb::Atom>,
    count: nat,
)
    requires
        lower::all_bound(parts, locals),
    ensures
        lower::passed(locals, atoms, count) matches Ok(values) ==> forall|i: int|
            0 <= i < values.len() ==> parts.known(#[trigger] values[i]),
    decreases count,
{
    if count > 0 {
        what_is_passed_is_known(parts, locals, atoms, (count - 1) as nat);
        if let Ok(value) = lower::read_local(locals, atoms[count - 1]) {
            assert(locals[atoms[count - 1].0.0 as int] == value);
        }
    }
}

/// A term makes what it makes once.
proof fn a_term_is_fresh(
    frame: FrameForm,
    whole: Parts,
    base: Parts,
    draft: Draft,
    expr: barb::ExprId,
    locals: Seq<Option<ValueId>>,
    low: nat,
)
    requires
        whole.wf(),
        faithful::is_set(frame, base),
        holds(draft.program, base),
        draft.ops.len() == draft.results.len(),
        lower::all_bound(draft.program, locals),
        expr.0 < frame.store.exprs.len(),
        is_sound(whole, draft, low, draft.program.classes.len()),
        frame.expr_lowered(draft, expr, locals) matches Ok((after, _)) && holds(
            whole,
            after.program,
        ),
    ensures
        ({
            let after = frame.expr_lowered(draft, expr, locals)->Ok_0.0;
            is_sound(whole, after, low, after.program.classes.len())
        }),
    decreases expr.0, 2nat,
{
    let high = draft.program.classes.len();
    assert(frame.store.expr_fits(expr.0 as int, frame.store.exprs[expr.0 as int]));
    match frame.store.expr(expr) {
        barb::Expr::Atom(_) => {},
        barb::Expr::Static(id, value) => {
            let bytes = frame.store.known_bytes(value);
            if let Some(class) = frame.classes[id.0 as int] {
                a_constant_is_fresh(
                    whole,
                    draft,
                    class,
                    constant::front(bytes).0 as u64,
                    low,
                    high,
                );
            }
        },
        barb::Expr::Con(ctor, args) => {
            let atoms = args.read(frame.store.atoms);
            if let Some(class) = frame.classes[frame.store.ctor(ctor).owner.0 as int] {
                if atoms.len() == 0 {
                    a_constant_is_fresh(whole, draft, class, 0, low, high);
                } else {
                    let (mid, one) = lower::constant_pushed(draft, class, 1)->Ok_0;
                    let held = lower::read_value(locals, atoms[0])->Ok_0;
                    let after = lower::binary_pushed(mid, Binary::Add, held, one)->Ok_0.0;
                    let op = Op::Binary { op: Binary::Add, left: held, right: one };
                    assert(locals[atoms[0].0.0 as int] == Some(held));
                    faithful::a_push_goes_on(mid, op, seq![mid.program.class(held)]);
                    faithful::an_extension_holds(after.program, mid.program);
                    faithful::holding_chains(whole, after.program, mid.program);
                    a_constant_is_fresh(whole, draft, class, 1, low, high);
                    an_operation_is_fresh(
                        whole,
                        mid,
                        Binary::Add,
                        held,
                        one,
                        low,
                        mid.program.classes.len(),
                    );
                }
            }
        },
        barb::Expr::Call(function, args) => {
            let atoms = args.read(frame.store.atoms);
            let values = lower::passed(locals, atoms, args.len as nat)->Ok_0;
            what_is_passed_is_known(draft.program, locals, atoms, args.len as nat);
            a_call_is_fresh(frame, whole, base, draft, function, values, low);
        },
        barb::Expr::Let(value, body) => {
            let (mid, held) = frame.expr_lowered(draft, value, locals)->Ok_0;
            faithful::fits_a_base(frame, base, draft.program);
            faithful::lowering_goes_on(frame, draft, value, locals);
            faithful::more_is_bound(draft.program, mid.program, locals, held);
            faithful::an_extension_holds(mid.program, draft.program);
            faithful::holding_chains(mid.program, draft.program, base);
            faithful::lowering_is_held(frame, whole, base, mid, body, locals.push(held));
            a_term_is_fresh(frame, whole, base, draft, value, locals, low);
            a_term_is_fresh(frame, whole, base, mid, body, locals.push(held), low);
        },
        barb::Expr::Match(scrutinee, arms) => {
            let held = lower::read_value(locals, scrutinee)->Ok_0;
            assert(locals[scrutinee.0.0 as int] == Some(held));
            a_branch_is_fresh(
                frame,
                whole,
                base,
                draft,
                expr,
                held,
                arms.read(frame.store.arms),
                locals,
                low,
            );
        },
    }
}

proof fn a_branch_is_fresh(
    frame: FrameForm,
    whole: Parts,
    base: Parts,
    draft: Draft,
    expr: barb::ExprId,
    scrutinee: ValueId,
    arms: Seq<barb::Arm>,
    locals: Seq<Option<ValueId>>,
    low: nat,
)
    requires
        whole.wf(),
        faithful::is_set(frame, base),
        holds(draft.program, base),
        draft.ops.len() == draft.results.len(),
        lower::all_bound(draft.program, locals),
        draft.program.known(scrutinee),
        expr.0 < frame.store.exprs.len(),
        is_sound(whole, draft, low, draft.program.classes.len()),
        frame.branch_lowered(draft, expr, scrutinee, arms, locals) matches Ok((after, _)) && holds(
            whole,
            after.program,
        ),
    ensures
        ({
            let after = frame.branch_lowered(draft, expr, scrutinee, arms, locals)->Ok_0.0;
            is_sound(whole, after, low, after.program.classes.len())
        }),
    decreases expr.0, 1nat,
{
    let owner = frame.store.ctor(arms[0].ctor).owner;
    let nil = frame.store.shape(owner)->nil;
    let empty = facts::arm_for(arms, nil, 0);
    let counted = lower::other_arm(arms, nil, 0);
    let class = frame.classes[owner.0 as int]->Some_0;
    let (first, condition) = lower::asked(draft, class, scrutinee)->Ok_0;
    let between = frame.arm_lowered(first, expr, arms[empty].body, locals, None)->Ok_0;
    let counts = Some((class, scrutinee));
    let after = frame.arm_lowered(between, expr, arms[counted].body, locals, counts)->Ok_0;
    let results = lower::listed(frame.answers(arms[empty].body, lower::carrying(locals)));
    let one = RegionId((between.program.regions.len() - 1) as u32);
    let other = RegionId((after.program.regions.len() - 1) as u32);
    let op = Op::If { condition, then_region: one, else_region: other };
    let end = lower::pushed(after, op, results)->Ok_0;
    faithful::fits_a_base(frame, base, draft.program);
    faithful::asking_goes_on(draft, class, scrutinee);
    faithful::an_extension_holds(first.program, draft.program);
    faithful::holding_chains(first.program, draft.program, base);
    faithful::fits_a_base(frame, base, first.program);
    faithful::more_is_bound(draft.program, first.program, locals, None);
    faithful::an_arm_goes_on(frame, first, expr, arms[empty].body, locals, None);
    faithful::an_extension_holds(between.program, first.program);
    faithful::holding_chains(between.program, first.program, base);
    faithful::fits_a_base(frame, base, between.program);
    faithful::more_is_bound(first.program, between.program, locals, None);
    faithful::an_arm_goes_on(frame, between, expr, arms[counted].body, locals, counts);
    faithful::a_push_goes_on(after, op, results);
    going_on_is_held(whole, between.program, after, end);
    going_on_is_held(whole, first.program, between, after);
    going_on_is_held(whole, draft.program, first, between);
    asking_is_fresh(whole, draft, class, scrutinee, low);
    let mark = first.program.classes.len();
    let middle = between.program.classes.len();
    an_arm_is_fresh(frame, whole, base, first, expr, arms[empty].body, locals, None, low, mark);
    an_arm_is_fresh(
        frame,
        whole,
        base,
        between,
        expr,
        arms[counted].body,
        locals,
        counts,
        low,
        mark,
    );
    assert(whole.entered(one).disjoint(whole.entered(other))) by {
        assert forall|v: ValueId| whole.entered(one).contains(v) implies !whole.entered(
            other,
        ).contains(v) by {}
    }
    assert(lies(inner_made(whole, op), mark, after.program.classes.len())) by {
        assert forall|v: ValueId| #[trigger] inner_made(whole, op).contains(v) implies mark <= v.0
            < after.program.classes.len() by {
            assert(whole.entered(one).contains(v) || whole.entered(other).contains(v));
        }
    }
    one_more_is_fresh(whole, after, op, results, low, mark);
}

/// An arm makes what it makes once, apart from what stands around it.
proof fn an_arm_is_fresh(
    frame: FrameForm,
    whole: Parts,
    base: Parts,
    outer: Draft,
    expr: barb::ExprId,
    body: barb::ExprId,
    locals: Seq<Option<ValueId>>,
    counts: Option<(Class, ValueId)>,
    low: nat,
    mark: nat,
)
    requires
        whole.wf(),
        faithful::is_set(frame, base),
        holds(outer.program, base),
        outer.ops.len() == outer.results.len(),
        lower::all_bound(outer.program, locals),
        counts matches Some((_, scrutinee)) ==> outer.program.known(scrutinee),
        expr.0 < frame.store.exprs.len(),
        is_sound(whole, outer, low, mark),
        frame.arm_lowered(outer, expr, body, locals, counts) matches Ok(after) && holds(
            whole,
            after.program,
        ),
    ensures
        ({
            let after = frame.arm_lowered(outer, expr, body, locals, counts)->Ok_0;
            let region = RegionId((after.program.regions.len() - 1) as u32);
            &&& is_sound(whole, after, low, mark)
            &&& outer.program.classes.len() <= after.program.classes.len()
            &&& lies(
                whole.entered(region),
                outer.program.classes.len(),
                after.program.classes.len(),
            )
            &&& whole.inside_is_single(region)
        }),
    decreases expr.0, 0nat,
{
    let inner = outer.inside(seq![]);
    let start = outer.program.classes.len();
    faithful::fits_a_base(frame, base, outer.program);
    assert(inner.program.extends(outer.program));
    faithful::more_is_bound(outer.program, inner.program, locals, None);
    faithful::counting_goes_on(inner, locals, counts);
    let (mid, more) = lower::counted_down(inner, locals, counts)->Ok_0;
    let (end, answer) = frame.expr_lowered(mid, body, more)->Ok_0;
    let values = lower::leaving(answer);
    let ended = end.hold(values);
    let terminator = end.leaving(Exit::Yield, values.len());
    let newest = ended.as_newest(terminator);
    let after = outer.after(ended, terminator);
    faithful::an_extension_holds(inner.program, outer.program);
    faithful::holding_chains(inner.program, outer.program, base);
    faithful::an_extension_holds(mid.program, inner.program);
    faithful::holding_chains(mid.program, inner.program, base);
    faithful::fits_a_base(frame, base, mid.program);
    faithful::lowering_goes_on(frame, mid, body, more);
    assert(ended.program.extends(end.program));
    assert(newest.extends(ended.program));
    faithful::an_extension_holds(newest, ended.program);
    faithful::an_extension_holds(ended.program, end.program);
    faithful::holding_chains(whole, newest, ended.program);
    faithful::holding_chains(whole, ended.program, end.program);
    faithful::an_extension_holds(end.program, mid.program);
    faithful::holding_chains(end.program, mid.program, base);
    faithful::holding_chains(ended.program, end.program, base);
    faithful::holding_chains(whole, end.program, mid.program);
    assert(inner.program.classes =~= outer.program.classes);
    assert(is_sound(whole, inner, start, start));
    counting_down_is_fresh(whole, inner, locals, counts, start);
    a_term_is_fresh(frame, whole, base, mid, body, more, start);
    a_hold_is_fresh(whole, end, values, start, end.program.classes.len());
    assert(start <= end.program.classes.len());
    assert(ended.params.len == 0);
    a_finished_region_is_fresh(whole, base, outer, ended, terminator, low, mark);
    assert(after.program.regions.len() == ended.program.regions.len() + 1);
}

/// Whether everything in a program that is part of another is as it should be.
spec fn all_told(whole: Parts, parts: Parts) -> bool {
    &&& faithful::is_even(parts)
    &&& forall|i: int|
        0 <= i < parts.ops.len() ==> is_tame(whole, #[trigger] whole.ops[i], whole.results[i])
}

/// A function's body makes what it makes once.
proof fn a_body_is_fresh(
    frame: FrameForm,
    whole: Parts,
    base: Parts,
    parts: Parts,
    f: barb::FnId,
    into: FunctionId,
)
    requires
        whole.wf(),
        faithful::is_set(frame, base),
        holds(parts, base),
        f.0 < frame.store.functions.len(),
        frame.places[f.0 as int] == Place::Function(into),
        all_told(whole, parts),
        frame.function_lowered(parts, f, into) matches Ok(after) && holds(whole, after)
            && whole.region(base.function(into).body) == after.region(base.function(into).body),
    ensures
        ({
            let after = frame.function_lowered(parts, f, into)->Ok_0;
            let body = base.function(into).body;
            &&& all_told(whole, after)
            &&& parts.classes.len() <= after.classes.len()
            &&& lies(whole.given(body, 0), parts.classes.len(), after.classes.len())
            &&& whole.is_single(body, 0)
            &&& whole.region(body).params == base.function(into).params
        }),
{
    let store = frame.store;
    let function = store.function(f);
    let types = store.params(f);
    let name = store.name(function.name);
    assert(faithful::is_placed(frame, base, f));
    assert(store.function_fits(f.0 as int));
    let params = parts.function(into).params;
    assert(params == base.function(into).params);
    faithful::a_run_reads_the_same(parts, base, params);
    let values = parts.values(params);
    let locals = frame.params_bound(name, types, values, types.len())->Ok_0;
    let opened = Draft::opened(parts, params);
    let (draft, answer) = frame.expr_lowered(opened, function.body, locals)->Ok_0;
    let entry = store.entry == Some(f);
    let (said, leaves) = frame.answered(draft, answer, entry)->Ok_0;
    let ended = said.hold(leaves);
    let terminator = said.leaving(Exit::Return, leaves.len());
    let after = ended.as_body(into, terminator);
    let body = base.function(into).body;
    let start = parts.classes.len();
    faithful::parameters_are_bound(frame, parts, base, name, types, values, types.len());
    faithful::fits_a_base(frame, base, parts);
    faithful::lowering_goes_on(frame, opened, function.body, locals);
    faithful::an_extension_holds(draft.program, parts);
    faithful::holding_chains(draft.program, parts, base);
    if answer is None && entry {
        faithful::a_push_goes_on(
            draft,
            Op::Constant { class: Class::Word, value: super::model::wrapped(Class::Word, 0) },
            seq![Class::Word],
        );
    }
    assert(faithful::goes_on(draft, said));
    faithful::an_extension_holds(said.program, draft.program);
    faithful::holding_chains(said.program, draft.program, base);
    assert(ended.program.extends(said.program));
    faithful::an_extension_holds(ended.program, said.program);
    faithful::holding_chains(ended.program, said.program, base);
    faithful::a_body_is_held(base, ended, into, terminator);
    faithful::holding_chains(whole, after, ended.program);
    faithful::holding_chains(whole, ended.program, said.program);
    faithful::holding_chains(whole, said.program, draft.program);
    assert(is_sound(whole, opened, start, start));
    a_term_is_fresh(frame, whole, base, opened, function.body, locals, start);
    if answer is None && entry {
        a_constant_is_fresh(
            whole,
            draft,
            Class::Word,
            0,
            start,
            draft.program.classes.len(),
        );
    }
    let end = said.program.classes.len();
    a_hold_is_fresh(whole, said, leaves, start, end);
    assert(base.functions[into.0 as int].body.0 == into.0);
    assert(after.ops == ended.settled().ops);
    faithful::a_settled_region_reads_back(whole, ended, terminator, body);
    a_region_is_fresh(whole, body, 0, start, end);
    assert forall|i: int| 0 <= i < after.ops.len() implies is_tame(
        whole,
        #[trigger] whole.ops[i],
        whole.results[i],
    ) by {
        let from = ended.program.ops.len() as int;
        if i >= from {
            assert(after.ops[i] == ended.ops[i - from]);
            assert(after.results[i] == ended.results[i - from]);
            assert(whole.ops[i] == after.ops[i]);
            assert(whole.results[i] == after.results[i]);
            assert(is_tame(whole, ended.ops[i - from], ended.results[i - from]));
        }
    }
}

/// What was lowered stays as it was lowered.
proof fn earlier_bodies_stay(frame: FrameForm, base: Parts, count: nat, all: nat)
    requires
        faithful::is_set(frame, base),
        faithful::are_apart(frame.places),
        faithful::is_even(base),
        count <= all <= frame.store.functions.len(),
        frame.functions_lowered(base, all) is Ok,
    ensures
        frame.functions_lowered(base, count) is Ok,
        ({
            let now = frame.functions_lowered(base, all)->Ok_0;
            let then = frame.functions_lowered(base, count)->Ok_0;
            &&& holds(now, then)
            &&& holds(then, base)
            &&& faithful::is_even(then)
            &&& faithful::is_even(now)
            &&& forall|f: int|
                0 <= f < count ==> ((#[trigger] frame.places[f]) matches Place::Function(into)
                    ==> now.region(base.function(into).body) == then.region(
                    base.function(into).body,
                ))
        }),
    decreases all,
{
    if all == 0 {
        faithful::a_program_holds_itself(base);
    } else {
        let fewer = (all - 1) as nat;
        let id = barb::FnId(fewer as u32);
        let before = frame.functions_lowered(base, fewer)->Ok_0;
        let now = frame.functions_lowered(base, all)->Ok_0;
        let least = if count < all {
            count
        } else {
            fewer
        };
        earlier_bodies_stay(frame, base, least, fewer);
        assert(faithful::is_placed(frame, base, id));
        if let Place::Function(into) = frame.places[fewer as int] {
            faithful::a_lowered_function_is_held(frame, base, before, id, into);
            faithful::holding_chains(now, before, base);
            if count < all {
                let then = frame.functions_lowered(base, count)->Ok_0;
                faithful::holding_chains(now, before, then);
                assert forall|f: int| 0 <= f < count && (
                #[trigger] frame.places[f]) is Function implies now.region(
                    base.function(frame.places[f]->Function_0).body,
                ) == then.region(base.function(frame.places[f]->Function_0).body) by {
                    let other = frame.places[f]->Function_0;
                    assert(faithful::is_placed(frame, base, barb::FnId(f as u32)));
                    assert(other != into);
                    assert(base.functions[other.0 as int].body.0 == other.0);
                    assert(now.region(base.function(other).body) == before.region(
                        base.function(other).body,
                    ));
                }
            } else {
                faithful::a_program_holds_itself(now);
            }
        } else {
            assert(now == before);
            faithful::a_program_holds_itself(now);
        }
    }
}

/// Whether the first functions' bodies make what they make once, each apart
/// from the others.
spec fn bodies_are_fresh(frame: FrameForm, whole: Parts, base: Parts, count: nat) -> bool {
    let parts = frame.functions_lowered(base, count)->Ok_0;
    &&& all_told(whole, parts)
    &&& base.classes.len() <= parts.classes.len()
    &&& forall|f: int|
        0 <= f < count ==> ((#[trigger] frame.places[f]) matches Place::Function(into)
            ==> whole.is_single(base.function(into).body, 0) && lies(
            whole.given(base.function(into).body, 0),
            base.classes.len(),
            parts.classes.len(),
        ) && whole.region(base.function(into).body).params == base.function(into).params)
    &&& forall|f: int, g: int|
        0 <= f < g < count && (#[trigger] frame.places[f]) is Function && (
        #[trigger] frame.places[g]) is Function ==> whole.given(
            base.function(frame.places[f]->Function_0).body,
            0,
        ).disjoint(whole.given(base.function(frame.places[g]->Function_0).body, 0))
}

proof fn every_body_is_fresh(frame: FrameForm, whole: Parts, base: Parts, count: nat)
    requires
        whole.wf(),
        faithful::is_set(frame, base),
        faithful::are_apart(frame.places),
        faithful::is_even(base),
        base.ops.len() == 0,
        count <= frame.store.functions.len(),
        frame.functions_lowered(base, frame.store.functions.len()) == Ok::<_, Seq<char>>(whole),
    ensures
        bodies_are_fresh(frame, whole, base, count),
    decreases count,
{
    let all = frame.store.functions.len();
    earlier_bodies_stay(frame, base, count, all);
    if count > 0 {
        let fewer = (count - 1) as nat;
        let id = barb::FnId(fewer as u32);
        earlier_bodies_stay(frame, base, fewer, all);
        every_body_is_fresh(frame, whole, base, fewer);
        let before = frame.functions_lowered(base, fewer)->Ok_0;
        let after = frame.functions_lowered(base, count)->Ok_0;
        assert(faithful::is_placed(frame, base, id));
        if let Place::Function(into) = frame.places[fewer as int] {
            a_body_is_fresh(frame, whole, base, before, id, into);
            let body = base.function(into).body;
            assert forall|f: int, g: int|
                0 <= f < g < count && (#[trigger] frame.places[f]) is Function && (
                #[trigger] frame.places[g]) is Function implies whole.given(
                base.function(frame.places[f]->Function_0).body,
                0,
            ).disjoint(whole.given(base.function(frame.places[g]->Function_0).body, 0)) by {
                let other = base.function(frame.places[f]->Function_0).body;
                if g == fewer {
                    assert(lies(
                        whole.given(other, 0),
                        base.classes.len(),
                        before.classes.len(),
                    ));
                    assert forall|v: ValueId| whole.given(other, 0).contains(
                        v,
                    ) implies !whole.given(body, 0).contains(v) by {}
                }
            }
            assert forall|f: int| 0 <= f < count && (#[trigger] frame.places[f]) is Function
                implies whole.is_single(base.function(frame.places[f]->Function_0).body, 0) && lies(
                whole.given(base.function(frame.places[f]->Function_0).body, 0),
                base.classes.len(),
                after.classes.len(),
            ) && whole.region(base.function(frame.places[f]->Function_0).body).params
                == base.function(frame.places[f]->Function_0).params by {
                if f < fewer {
                    assert(lies(
                        whole.given(base.function(frame.places[f]->Function_0).body, 0),
                        base.classes.len(),
                        before.classes.len(),
                    ));
                }
            }
        } else {
            assert(after == before);
        }
    }
}

/// Whether what functions take was minted for each of them, and each answers a
/// word at most.
spec fn takes_its_own(parts: Parts) -> bool {
    &&& forall|f: int|
        0 <= f < parts.functions.len() ==> {
            let params = (#[trigger] parts.functions[f]).params;
            &&& params.within(parts.operands.len())
            &&& lies(order::among(parts.values(params)), 0, parts.classes.len())
            &&& parts.values(params).no_duplicates()
            &&& parts.functions[f].answers.len <= 1
        }
    &&& forall|f: int, g: int|
        0 <= f < g < parts.functions.len() ==> order::among(
            parts.values((#[trigger] parts.functions[f]).params),
        ).disjoint(order::among(parts.values((#[trigger] parts.functions[g]).params)))
}

proof fn a_declaration_takes_its_own(
    parts: Parts,
    name: Seq<char>,
    params: Seq<Class>,
    answers: Seq<Class>,
)
    requires
        takes_its_own(parts),
        parts.room(params.len()),
        answers.len() <= 1,
    ensures
        takes_its_own(parts.with_function(name, params, answers)),
{
    let after = parts.with_function(name, params, answers);
    let last = parts.functions.len() as int;
    let high = parts.classes.len();
    let own = after.values(after.functions[last].params);
    assert(own =~= parts.fresh(params.len()));
    assert(own.no_duplicates()) by {
        assert forall|i: int, j: int| 0 <= i < j < own.len() implies own[i] != own[j] by {
            assert(own[i].0 == high + i && own[j].0 == high + j);
        }
    }
    assert(lies(order::among(own), high, after.classes.len())) by {
        assert forall|v: ValueId| #[trigger] order::among(own).contains(v) implies high <= v.0
            < after.classes.len() by {
            let i = own.index_of(v);
            assert(own[i].0 == high + i);
        }
    }
    assert forall|f: int| 0 <= f < last implies after.values(
        (#[trigger] after.functions[f]).params,
    ) == parts.values(parts.functions[f].params) by {
        assert(after.values(after.functions[f].params) =~= parts.values(
            parts.functions[f].params,
        ));
    }
    assert forall|f: int| 0 <= f < after.functions.len() implies ({
        let params = (#[trigger] after.functions[f]).params;
        &&& params.within(after.operands.len())
        &&& lies(order::among(after.values(params)), 0, after.classes.len())
        &&& after.values(params).no_duplicates()
        &&& after.functions[f].answers.len <= 1
    }) by {
        if f < last {
            assert(parts.functions[f].params == after.functions[f].params);
            assert(after.values(after.functions[f].params) == parts.values(
                parts.functions[f].params,
            ));
        }
    }
    assert forall|f: int, g: int| 0 <= f < g < after.functions.len() implies order::among(
        after.values((#[trigger] after.functions[f]).params),
    ).disjoint(order::among(after.values((#[trigger] after.functions[g]).params))) by {
        let one = order::among(parts.values(parts.functions[f].params));
        assert(after.values(after.functions[f].params) == parts.values(
            parts.functions[f].params,
        ));
        if g == last {
            assert(lies(one, 0, high));
            assert forall|v: ValueId| one.contains(v) implies !order::among(own).contains(v) by {}
        } else {
            assert(after.values(after.functions[g].params) == parts.values(
                parts.functions[g].params,
            ));
            assert(parts.functions[g].params == after.functions[g].params);
        }
    }
}

/// What is declared takes its own, and every function but the entry is what
/// something was declared as.
proof fn declarations_take_their_own(
    store: barb::Store,
    known: Seq<Option<barb::Operation>>,
    classes: Seq<Option<Class>>,
    entry: barb::FnId,
    start: Parts,
    count: nat,
)
    requires
        takes_its_own(start),
        start.functions.len() == 1,
        start.ops.len() == 0,
        lower::declared(store, known, classes, entry, start, count) is Ok,
    ensures
        ({
            let (parts, places) = lower::declared(
                store,
                known,
                classes,
                entry,
                start,
                count,
            )->Ok_0;
            &&& takes_its_own(parts)
            &&& parts.ops.len() == 0
            &&& parts.functions.len() >= 1
            &&& parts.functions[0] == start.functions[0]
            &&& places.len() == count
            &&& forall|f: FunctionId|
                0 < f.0 < parts.functions.len() ==> #[trigger] is_declared(places, f)
        }),
    decreases count,
{
    if count > 0 {
        let fewer = (count - 1) as nat;
        declarations_take_their_own(store, known, classes, entry, start, fewer);
        let (before, some) = lower::declared(store, known, classes, entry, start, fewer)->Ok_0;
        let (parts, places) = lower::declared(store, known, classes, entry, start, count)->Ok_0;
        let id = barb::FnId(fewer as u32);
        let function = store.function(id);
        let name = store.name(function.name);
        let params = lower::classes_of(classes, store.params(id), store.params(id).len());
        let answers = lower::listed(classes[function.result.0 as int]);
        if id != entry && facts::known_of(known, id) is None {
            if function.defined {
                a_declaration_takes_its_own(before, name, params, answers);
            } else {
                assert(parts.operands == before.operands);
                assert forall|f: int| 0 <= f < parts.functions.len() implies parts.values(
                    (#[trigger] parts.functions[f]).params,
                ) == before.values(before.functions[f].params) by {}
                assert(takes_its_own(parts));
            }
        }
        assert forall|f: FunctionId| 0 < f.0 < parts.functions.len() implies #[trigger] is_declared(
            places,
            f,
        ) by {
            if f.0 < before.functions.len() {
                assert(is_declared(some, f));
                let g = choose|g: int|
                    0 <= g < some.len() && #[trigger] some[g] == Place::Function(f);
                assert(places[g] == Place::Function(f));
            } else {
                assert(places[fewer as int] == Place::Function(f));
            }
        }
    }
}

/// Whether a function is what something was declared as.
spec fn is_declared(places: Seq<Place>, f: FunctionId) -> bool {
    exists|g: int| 0 <= g < places.len() && #[trigger] places[g] == Place::Function(f)
}

/// What a program is lowered to is in order: no value is defined twice, every
/// constant is one of its class, an operation answers in the class of what it
/// works on, and the entry takes nothing and answers one word. Functions answer
/// a word at most, and nothing is converted.
pub proof fn what_is_lowered_is_in_order(store: barb::Store, parts: Parts)
    requires
        store.wf(),
        store.typed(),
        faithful::can_start(store),
        lower::lowered(store, store.facts()) == Ok::<_, Seq<char>>(parts),
        parts.wf(),
    ensures
        parts.orderly(),
        parts.answers_plainly(),
        parts.converts_nothing(),
{
    let base = faithful::everything_is_set(store, parts);
    let frame = faithful::frame_of(store);
    let entry = store.entry->Some_0;
    let name = store.name(store.function(entry).name);
    let nothing = Parts::nothing();
    let start = nothing.with_function(name, seq![], seq![Class::Word]);
    assert(takes_its_own(nothing));
    assert(takes_its_own(start)) by {
        assert(start.values(start.functions[0].params) =~= seq![]);
    }
    declarations_take_their_own(
        store,
        store.facts(),
        frame.classes,
        entry,
        start,
        store.functions.len(),
    );
    assert(start.functions[0].params.len == 0 && start.functions[0].answers.len == 1);
    every_body_is_fresh(frame, parts, base, store.functions.len());
    earlier_bodies_stay(frame, base, 0, store.functions.len());
    assert(holds(parts, base));
    assert forall|f: FunctionId| f.0 < parts.functions.len() implies #[trigger] is_declared(
        frame.places,
        f,
    ) by {
        if f.0 == 0 {
            assert(frame.places[entry.0 as int] == Place::Function(f));
        }
    }
    assert forall|f: FunctionId| f.0 < parts.functions.len() implies stands_alone(
        parts,
        base,
        #[trigger] parts.function(f),
    ) by {
        assert(is_declared(frame.places, f));
        let g = choose|g: int|
            0 <= g < frame.places.len() && #[trigger] frame.places[g] == Place::Function(f);
        assert(base.functions[f.0 as int].params == parts.function(f).params);
        faithful::a_run_reads_the_same(parts, base, parts.function(f).params);
    }
    assert forall|f: FunctionId| f.0 < parts.functions.len() implies (#[trigger] parts.function(
        f,
    )).answers.len <= 1 && parts.region(parts.function(f).body).params == parts.function(f).params by {
        assert(is_declared(frame.places, f));
        let g = choose|g: int|
            0 <= g < frame.places.len() && #[trigger] frame.places[g] == Place::Function(f);
        assert(base.functions[f.0 as int] == parts.functions[f.0 as int]);
    }
    assert forall|f: FunctionId| f.0 < parts.functions.len() implies
        #[trigger] parts.function_is_single(f) by {
        assert(stands_alone(parts, base, parts.function(f)));
        let params = order::among(parts.values(parts.function(f).params));
        let given = parts.given(parts.function(f).body, 0);
        assert forall|v: ValueId| params.contains(v) implies !given.contains(v) by {}
    }
    assert forall|f: FunctionId, g: FunctionId| f.0 < g.0 && g.0 < parts.functions.len() implies (
    #[trigger] parts.function_given(f)).disjoint(#[trigger] parts.function_given(g)) by {
        two_functions_are_apart(frame, parts, base, f, g);
    }
}

/// Whether what a function takes and what its body makes lie apart.
spec fn stands_alone(whole: Parts, base: Parts, function: super::model::Function) -> bool {
    let params = whole.values(function.params);
    &&& params.no_duplicates()
    &&& lies(order::among(params), 0, base.classes.len())
    &&& lies(whole.given(function.body, 0), base.classes.len(), whole.classes.len())
    &&& whole.is_single(function.body, 0)
}

proof fn two_functions_are_apart(
    frame: FrameForm,
    whole: Parts,
    base: Parts,
    f: FunctionId,
    g: FunctionId,
)
    requires
        holds(whole, base),
        takes_its_own(base),
        f.0 < g.0,
        g.0 < whole.functions.len(),
        is_declared(frame.places, f),
        is_declared(frame.places, g),
        frame.places.len() == frame.store.functions.len(),
        bodies_are_fresh(frame, whole, base, frame.store.functions.len()),
        stands_alone(whole, base, whole.function(f)),
        stands_alone(whole, base, whole.function(g)),
    ensures
        whole.function_given(f).disjoint(whole.function_given(g)),
{
    let i = choose|i: int|
        0 <= i < frame.places.len() && #[trigger] frame.places[i] == Place::Function(f);
    let j = choose|j: int|
        0 <= j < frame.places.len() && #[trigger] frame.places[j] == Place::Function(g);
    let one = order::among(whole.values(whole.function(f).params));
    let other = order::among(whole.values(whole.function(g).params));
    let here = whole.given(whole.function(f).body, 0);
    let there = whole.given(whole.function(g).body, 0);
    assert(base.functions[f.0 as int].params == whole.function(f).params);
    assert(base.functions[g.0 as int].params == whole.function(g).params);
    faithful::a_run_reads_the_same(whole, base, whole.function(f).params);
    faithful::a_run_reads_the_same(whole, base, whole.function(g).params);
    assert(one.disjoint(other));
    assert(i != j);
    assert(here.disjoint(there)) by {
        if i < j {
            assert(frame.places[i] is Function && frame.places[j] is Function);
        } else {
            assert(frame.places[j] is Function && frame.places[i] is Function);
            assert(there.disjoint(here));
        }
    }
    assert forall|v: ValueId| whole.function_given(f).contains(v) implies !whole.function_given(
        g,
    ).contains(v) by {
        if one.contains(v) {
            assert(!there.contains(v));
        } else {
            assert(here.contains(v));
            assert(!other.contains(v));
        }
    }
}

} // verus!
