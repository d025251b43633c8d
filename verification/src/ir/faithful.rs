//! Why what is lowered computes what was written.
//!
//! A number is a word, so what is lowered comes to what the program does on
//! every machine whose words are wide enough for the numbers the program
//! goes through, and asks the platform for what the program asks for.

use super::builder::Draft;
use super::lower::{
    FrameForm, Place,
};
use super::machine::{Held, Host, Left, Step};
use super::model::{
    Binary, Class, Exit, FunctionId, Op, Parts, PlatformId, Range, RegionId, Relation, Terminator,
    ValueId,
};
use super::{lower, machine};
use crate::barb;
use crate::barb::constant::Tree;
use crate::barb::meaning::Outcome;
use crate::barb::{constant, facts, meaning};
use vstd::prelude::*;

verus! {

/// Whether a program has all of another in it: what is built goes on being
/// what it was, but for the bodies of functions, which come last.
pub open spec fn holds(whole: Parts, part: Parts) -> bool {
    &&& whole.functions == part.functions
    &&& whole.platform == part.platform
    &&& whole.signature == part.signature
    &&& whole.names == part.names
    &&& part.classes.is_prefix_of(whole.classes)
    &&& part.operands.is_prefix_of(whole.operands)
    &&& part.ops.is_prefix_of(whole.ops)
    &&& part.results.is_prefix_of(whole.results)
    &&& part.regions.len() <= whole.regions.len()
    &&& forall|r: RegionId|
        r.0 < part.regions.len() && !part.is_body(r) ==> #[trigger] whole.region(r) == part.region(
            r,
        )
}

pub(super) proof fn holding_chains(first: Parts, second: Parts, third: Parts)
    requires
        holds(first, second),
        holds(second, third),
    ensures
        holds(first, third),
{
    assert(third.classes.is_prefix_of(first.classes)) by {
        assert forall|i: int| 0 <= i < third.classes.len() implies third.classes[i]
            == first.classes[i] by {
            assert(third.classes[i] == second.classes[i]);
        }
    }
    assert(third.operands.is_prefix_of(first.operands)) by {
        assert forall|i: int| 0 <= i < third.operands.len() implies third.operands[i]
            == first.operands[i] by {
            assert(third.operands[i] == second.operands[i]);
        }
    }
    assert(third.ops.is_prefix_of(first.ops)) by {
        assert forall|i: int| 0 <= i < third.ops.len() implies third.ops[i] == first.ops[i] by {
            assert(third.ops[i] == second.ops[i]);
        }
    }
    assert(third.results.is_prefix_of(first.results)) by {
        assert forall|i: int| 0 <= i < third.results.len() implies third.results[i]
            == first.results[i] by {
            assert(third.results[i] == second.results[i]);
        }
    }
    assert forall|r: RegionId| r.0 < third.regions.len() && !third.is_body(
        r,
    ) implies #[trigger] first.region(r) == third.region(r) by {
        assert(second.region(r) == third.region(r));
    }
}

/// A run reads the same in a program that holds the one it is a run of.
pub(super) proof fn a_run_reads_the_same(whole: Parts, part: Parts, run: Range)
    requires
        holds(whole, part),
        run.within(part.operands.len()),
    ensures
        whole.values(run) == part.values(run),
{
    assert(whole.values(run) =~= part.values(run));
}

/// Whether instructions run to their end, and to what, wherever words are
/// wide enough and there are steps enough.
pub open spec fn reaches(
    parts: Parts,
    ops: Seq<Op>,
    results: Seq<Range>,
    start: Held,
    wide: nat,
    long: nat,
    held: Held,
) -> bool {
    forall|host: Host, fuel: nat|
        host.waits() && host.size >= wide && fuel >= long ==> #[trigger] parts.ops_run(host, ops, results, start, fuel)
            == Some(Step::Goes(held))
}

/// Whether instructions leave before their end.
pub open spec fn departs(
    parts: Parts,
    ops: Seq<Op>,
    results: Seq<Range>,
    start: Held,
    wide: nat,
    long: nat,
    left: Left,
) -> bool {
    forall|host: Host, fuel: nat|
        host.waits() && host.size >= wide && fuel >= long ==> #[trigger] parts.ops_run(host, ops, results, start, fuel)
            == Some(Step::Leaves(left))
}

pub open spec fn larger(one: nat, other: nat) -> nat {
    if one > other {
        one
    } else {
        other
    }
}

/// One more instruction, after some that run to their end.
proof fn one_more_goes(
    parts: Parts,
    ops: Seq<Op>,
    results: Seq<Range>,
    start: Held,
    wide: nat,
    long: nat,
    held: Held,
    op: Op,
    range: Range,
    least: nat,
    enough: nat,
    after: Held,
)
    requires
        reaches(parts, ops, results, start, wide, long, held),
        forall|host: Host, fuel: nat|
            host.waits() && host.size >= least && fuel >= enough ==> #[trigger] parts.op_runs(
                host,
                op,
                parts.values(range),
                held,
                fuel,
            ) == Some(Step::Goes(after)),
    ensures
        reaches(
            parts,
            ops.push(op),
            results.push(range),
            start,
            larger(wide, least),
            larger(long, enough),
            after,
        ),
{
    assert(ops.push(op).drop_last() =~= ops);
    assert(results.push(range).drop_last() =~= results);
    assert forall|host: Host, fuel: nat|
        host.waits() && host.size >= larger(wide, least) && fuel >= larger(
            long,
            enough,
        ) implies #[trigger] parts.ops_run(host, ops.push(op), results.push(range), start, fuel)
        == Some(Step::Goes(after)) by {
        assert(parts.ops_run(host, ops, results, start, fuel) == Some(Step::Goes(held)));
        assert(parts.op_runs(host, op, parts.values(range), held, fuel) == Some(
            Step::Goes(after),
        ));
    }
}

/// One more instruction, which leaves.
proof fn one_more_leaves(
    parts: Parts,
    ops: Seq<Op>,
    results: Seq<Range>,
    start: Held,
    wide: nat,
    long: nat,
    held: Held,
    op: Op,
    range: Range,
    least: nat,
    enough: nat,
    left: Left,
)
    requires
        reaches(parts, ops, results, start, wide, long, held),
        forall|host: Host, fuel: nat|
            host.waits() && host.size >= least && fuel >= enough ==> #[trigger] parts.op_runs(
                host,
                op,
                parts.values(range),
                held,
                fuel,
            ) == Some(Step::Leaves(left)),
    ensures
        departs(
            parts,
            ops.push(op),
            results.push(range),
            start,
            larger(wide, least),
            larger(long, enough),
            left,
        ),
{
    assert(ops.push(op).drop_last() =~= ops);
    assert(results.push(range).drop_last() =~= results);
    assert forall|host: Host, fuel: nat|
        host.waits() && host.size >= larger(wide, least) && fuel >= larger(
            long,
            enough,
        ) implies #[trigger] parts.ops_run(host, ops.push(op), results.push(range), start, fuel)
        == Some(Step::Leaves(left)) by {
        assert(parts.ops_run(host, ops, results, start, fuel) == Some(Step::Goes(held)));
        assert(parts.op_runs(host, op, parts.values(range), held, fuel) == Some(
            Step::Leaves(left),
        ));
    }
}

/// One more instruction, after one that has left.
proof fn one_more_is_never_run(
    parts: Parts,
    ops: Seq<Op>,
    results: Seq<Range>,
    start: Held,
    wide: nat,
    long: nat,
    op: Op,
    range: Range,
    left: Left,
)
    requires
        departs(parts, ops, results, start, wide, long, left),
    ensures
        departs(parts, ops.push(op), results.push(range), start, wide, long, left),
{
    assert(ops.push(op).drop_last() =~= ops);
    assert(results.push(range).drop_last() =~= results);
    assert forall|host: Host, fuel: nat|
        host.waits() && host.size >= wide && fuel >= long implies #[trigger] parts.ops_run(
            host,
            ops.push(op),
            results.push(range),
            start,
            fuel,
        ) == Some(Step::Leaves(left)) by {
        assert(parts.ops_run(host, ops, results, start, fuel) == Some(Step::Leaves(left)));
    }
}

/// Whether one draft is another with more in it.
pub open spec fn goes_on(before: Draft, after: Draft) -> bool {
    &&& after.program.extends(before.program)
    &&& before.ops.is_prefix_of(after.ops)
    &&& before.results.is_prefix_of(after.results)
    &&& after.ops.len() == after.results.len()
    &&& after.params == before.params
    &&& is_even(before.program) ==> is_even(after.program)
}

/// Whether every instruction there is has something said of what it defines.
pub open spec fn is_even(parts: Parts) -> bool {
    parts.ops.len() == parts.results.len()
}

pub(super) proof fn going_on_chains(first: Draft, second: Draft, third: Draft)
    requires
        goes_on(first, second),
        goes_on(second, third),
    ensures
        goes_on(first, third),
{
    super::builder::growth_chains(first.program, second.program, third.program);
    assert forall|i: int| 0 <= i < first.ops.len() implies first.ops[i] == third.ops[i] by {
        assert(first.ops[i] == second.ops[i]);
    }
    assert forall|i: int| 0 <= i < first.results.len() implies first.results[i]
        == third.results[i] by {
        assert(first.results[i] == second.results[i]);
    }
}

pub(super) proof fn a_push_goes_on(draft: Draft, op: Op, classes: Seq<Class>)
    requires
        draft.ops.len() == draft.results.len(),
    ensures
        lower::pushed(draft, op, classes) matches Ok(after) ==> goes_on(draft, after) && (
        classes.len() > 0 ==> after.program.known(lower::next(draft))),
{
}

/// Whether a value that is answered is one there is.
pub open spec fn answers_known(draft: Draft, value: Option<ValueId>) -> bool {
    value matches Some(v) ==> draft.program.known(v)
}

pub(super) proof fn more_is_bound(
    old: Parts,
    new: Parts,
    locals: Seq<Option<ValueId>>,
    value: Option<ValueId>,
)
    requires
        lower::all_bound(old, locals),
        new.extends(old),
        value matches Some(v) ==> new.known(v),
    ensures
        lower::all_bound(new, locals),
        lower::all_bound(new, locals.push(value)),
{
    assert forall|i: int| 0 <= i < locals.push(value).len() implies ((
    #[trigger] locals.push(value)[i]) matches Some(v) ==> new.known(v)) by {
        if i < locals.len() {
            assert(locals.push(value)[i] == locals[i]);
        }
    }
}

/// Whether what functions and routines answer is there to be read.
pub open spec fn signed(parts: Parts) -> bool {
    &&& forall|i: int|
        0 <= i < parts.functions.len() ==> (#[trigger] parts.functions[i]).answers.within(
            parts.signature.len(),
        )
    &&& forall|i: int|
        0 <= i < parts.platform.len() ==> (#[trigger] parts.platform[i]).answers.within(
            parts.signature.len(),
        )
}

/// Lowering a term only adds to what there is.
pub(super) proof fn lowering_goes_on(
    frame: FrameForm,
    draft: Draft,
    expr: barb::ExprId,
    locals: Seq<Option<ValueId>>,
)
    requires
        draft.ops.len() == draft.results.len(),
        lower::all_bound(draft.program, locals),
        signed(draft.program),
        lower::places_fit(draft.program, frame.places),
        frame.places.len() == frame.store.functions.len(),
        frame.store.wf(),
        expr.0 < frame.store.exprs.len(),
    ensures
        frame.expr_lowered(draft, expr, locals) matches Ok((after, value)) ==> goes_on(
            draft,
            after,
        ) && answers_known(after, value),
    decreases expr.0, 2nat,
{
    assert(frame.store.expr_fits(expr.0 as int, frame.store.exprs[expr.0 as int]));
    match frame.store.expr(expr) {
        barb::Expr::Atom(_) => {},
        barb::Expr::Static(id, value) => {
            let bytes = frame.store.known_bytes(value);
            if let Some(class) = frame.classes[id.0 as int] {
                let number = super::model::wrapped(class, constant::front(bytes).0 as u64);
                a_push_goes_on(draft, Op::Constant { class, value: number }, seq![class]);
            }
        },
        barb::Expr::Con(ctor, args) => {
            if let Some(class) = frame.classes[frame.store.ctor(ctor).owner.0 as int] {
                let nought = super::model::wrapped(class, 0);
                let one = super::model::wrapped(class, 1);
                a_push_goes_on(draft, Op::Constant { class, value: nought }, seq![class]);
                a_push_goes_on(draft, Op::Constant { class, value: one }, seq![class]);
                let atoms = args.read(frame.store.atoms);
                if let Ok((mid, held)) = lower::constant_pushed(draft, class, 1) {
                    if let Ok(value) = lower::read_value(locals, atoms[0]) {
                        let op = Op::Binary { op: Binary::Add, left: value, right: held };
                        a_push_goes_on(mid, op, seq![mid.program.class(value)]);
                        if let Ok(after) = lower::pushed(
                            mid,
                            op,
                            seq![mid.program.class(value)],
                        ) {
                            going_on_chains(draft, mid, after);
                        }
                    }
                }
            }
        },
        barb::Expr::Call(function, args) => {
            let atoms = args.read(frame.store.atoms);
            if let Ok(values) = lower::passed(locals, atoms, args.len as nat) {
                a_call_goes_on(frame, draft, function, values);
            }
        },
        barb::Expr::Let(value, body) => {
            if value.0 < expr.0 && body.0 < expr.0 {
                lowering_goes_on(frame, draft, value, locals);
                if let Ok((mid, held)) = frame.expr_lowered(draft, value, locals) {
                    more_is_bound(draft.program, mid.program, locals, held);
                    lowering_goes_on(frame, mid, body, locals.push(held));
                    if let Ok((after, _)) = frame.expr_lowered(mid, body, locals.push(held)) {
                        going_on_chains(draft, mid, after);
                    }
                }
            }
        },
        barb::Expr::Match(scrutinee, arms) => {
            if let Ok(held) = lower::read_value(locals, scrutinee) {
                assert(locals[scrutinee.0.0 as int] == Some(held));
                a_branch_goes_on(
                    frame,
                    draft,
                    expr,
                    held,
                    arms.read(frame.store.arms),
                    locals,
                );
            }
        },
    }
}

pub(super) proof fn a_call_goes_on(
    frame: FrameForm,
    draft: Draft,
    function: barb::FnId,
    args: Seq<ValueId>,
)
    requires
        draft.ops.len() == draft.results.len(),
        signed(draft.program),
        lower::places_fit(draft.program, frame.places),
        function.0 < frame.places.len(),
    ensures
        frame.call_lowered(draft, function, args) matches Ok((after, value)) ==> goes_on(
            draft,
            after,
        ) && answers_known(after, value),
{
    let run = Range::from(draft.program.operands.len(), args.len());
    if facts::known_of(frame.facts, function) == Some(barb::Operation::Add) {
        if args.len() >= 2 {
            let op = Op::Binary { op: Binary::Add, left: args[0], right: args[1] };
            a_push_goes_on(draft, op, seq![draft.program.class(args[0])]);
        }
    } else {
        match frame.places[function.0 as int] {
            Place::Routine(platform) => {
                let answers = draft.program.routine(platform).answers;
                assert(draft.program.platform[platform.0 as int].answers == answers);
                called_goes_on(draft, args, Op::PlatformCall { platform, args: run }, answers);
            },
            Place::Function(callee) => {
                let answers = draft.program.function(callee).answers;
                assert(draft.program.functions[callee.0 as int].answers == answers);
                called_goes_on(draft, args, Op::Call { function: callee, args: run }, answers);
            },
            Place::Instruction => {},
        }
    }
}

pub(super) proof fn called_goes_on(draft: Draft, args: Seq<ValueId>, op: Op, answers: Range)
    requires
        draft.ops.len() == draft.results.len(),
        answers.within(draft.program.signature.len()),
    ensures
        lower::called(draft, args, op, answers) matches Ok((after, value)) ==> goes_on(
            draft,
            after,
        ) && answers_known(after, value),
{
    let mid = draft.hold(args);
    let after = mid.push(op, answers.read(draft.program.signature));
    assert(goes_on(draft, mid));
    assert(goes_on(mid, after));
    going_on_chains(draft, mid, after);
}

pub(super) proof fn a_branch_goes_on(
    frame: FrameForm,
    draft: Draft,
    expr: barb::ExprId,
    scrutinee: ValueId,
    arms: Seq<barb::Arm>,
    locals: Seq<Option<ValueId>>,
)
    requires
        draft.ops.len() == draft.results.len(),
        lower::all_bound(draft.program, locals),
        signed(draft.program),
        lower::places_fit(draft.program, frame.places),
        frame.places.len() == frame.store.functions.len(),
        frame.store.wf(),
        expr.0 < frame.store.exprs.len(),
    ensures
        frame.branch_lowered(draft, expr, scrutinee, arms, locals) matches Ok((after, value))
            ==> goes_on(draft, after) && answers_known(after, value),
    decreases expr.0, 1nat,
{
    let owner = frame.store.ctor(arms[0].ctor).owner;
    let nil = frame.store.shape(owner)->nil;
    let empty = facts::arm_for(arms, nil, 0);
    let counted = lower::other_arm(arms, nil, 0);
    if frame.branch_lowered(draft, expr, scrutinee, arms, locals) is Ok {
        let class = frame.classes[owner.0 as int]->Some_0;
        let (first, condition) = lower::asked(draft, class, scrutinee)->Ok_0;
        asking_goes_on(draft, class, scrutinee);
        let between = frame.arm_lowered(first, expr, arms[empty].body, locals, None)->Ok_0;
        more_is_bound(draft.program, first.program, locals, None);
        an_arm_goes_on(frame, first, expr, arms[empty].body, locals, None);
        more_is_bound(first.program, between.program, locals, None);
        let counts = Some((class, scrutinee));
        let after = frame.arm_lowered(
            between,
            expr,
            arms[counted].body,
            locals,
            counts,
        )->Ok_0;
        an_arm_goes_on(frame, between, expr, arms[counted].body, locals, counts);
        going_on_chains(draft, first, between);
        going_on_chains(draft, between, after);
        let results = lower::listed(frame.answers(arms[empty].body, lower::carrying(locals)));
        let op = Op::If {
            condition,
            then_region: RegionId((between.program.regions.len() - 1) as u32),
            else_region: RegionId((after.program.regions.len() - 1) as u32),
        };
        a_push_goes_on(after, op, results);
        going_on_chains(draft, after, lower::pushed(after, op, results)->Ok_0);
    }
}

pub(super) proof fn asking_goes_on(draft: Draft, class: Class, scrutinee: ValueId)
    requires
        draft.ops.len() == draft.results.len(),
    ensures
        lower::asked(draft, class, scrutinee) matches Ok((after, condition)) ==> goes_on(
            draft,
            after,
        ) && after.program.known(condition),
{
    let op = Op::Constant { class, value: super::model::wrapped(class, 0) };
    a_push_goes_on(draft, op, seq![class]);
    if let Ok((mid, nought)) = lower::constant_pushed(draft, class, 0) {
        let next = Op::Compare { relation: Relation::Equal, left: scrutinee, right: nought };
        a_push_goes_on(mid, next, seq![Class::Word]);
        if let Ok(after) = lower::pushed(mid, next, seq![Class::Word]) {
            going_on_chains(draft, mid, after);
        }
    }
}

pub(super) proof fn counting_goes_on(
    inner: Draft,
    locals: Seq<Option<ValueId>>,
    counts: Option<(Class, ValueId)>,
)
    requires
        inner.ops.len() == inner.results.len(),
        lower::all_bound(inner.program, locals),
    ensures
        lower::counted_down(inner, locals, counts) matches Ok((after, more)) ==> goes_on(
            inner,
            after,
        ) && lower::all_bound(after.program, more),
{
    if let Some((class, scrutinee)) = counts {
        let op = Op::Constant { class, value: super::model::wrapped(class, 1) };
        a_push_goes_on(inner, op, seq![class]);
        if let Ok((mid, one)) = lower::constant_pushed(inner, class, 1) {
            let next = Op::Binary { op: Binary::Sub, left: scrutinee, right: one };
            a_push_goes_on(mid, next, seq![mid.program.class(scrutinee)]);
            if let Ok((after, less)) = lower::binary_pushed(mid, Binary::Sub, scrutinee, one) {
                going_on_chains(inner, mid, after);
                more_is_bound(inner.program, after.program, locals, Some(less));
            }
        }
    }
}

pub(super) proof fn an_arm_goes_on(
    frame: FrameForm,
    outer: Draft,
    expr: barb::ExprId,
    body: barb::ExprId,
    locals: Seq<Option<ValueId>>,
    counts: Option<(Class, ValueId)>,
)
    requires
        outer.ops.len() == outer.results.len(),
        lower::all_bound(outer.program, locals),
        signed(outer.program),
        lower::places_fit(outer.program, frame.places),
        frame.places.len() == frame.store.functions.len(),
        frame.store.wf(),
        expr.0 < frame.store.exprs.len(),
    ensures
        frame.arm_lowered(outer, expr, body, locals, counts) matches Ok(after) ==> goes_on(
            outer,
            after,
        ) && after.ops == outer.ops && after.results == outer.results,
    decreases expr.0, 0nat,
{
    if frame.arm_lowered(outer, expr, body, locals, counts) is Ok {
        let inner = outer.inside(seq![]);
        assert(inner.program.extends(outer.program));
        more_is_bound(outer.program, inner.program, locals, None);
        counting_goes_on(inner, locals, counts);
        let (mid, more) = lower::counted_down(inner, locals, counts)->Ok_0;
        lowering_goes_on(frame, mid, body, more);
        let (end, answer) = frame.expr_lowered(mid, body, more)->Ok_0;
        going_on_chains(inner, mid, end);
        let values = lower::leaving(answer);
        let ended = end.hold(values);
        assert(ended.program.extends(end.program));
        super::builder::growth_chains(inner.program, end.program, ended.program);
        super::builder::growth_chains(outer.program, inner.program, ended.program);
        let newest = ended.as_newest(end.leaving(Exit::Yield, values.len()));
        assert(newest.extends(ended.program));
        super::builder::growth_chains(outer.program, ended.program, newest);
    }
}

/// The number a value of a number's type is.
pub open spec fn count(store: barb::Store, id: barb::TypeId, tree: Tree) -> nat {
    constant::spine_len(tree, store.shape(id)->cons, 0)
}

/// A value of a number's type is nothing but its count.
proof fn a_value_is_its_count(store: barb::Store, id: barb::TypeId, tree: Tree)
    requires
        store.wf(),
        id.0 < store.types.len(),
        store.is_number(id),
        constant::typed(store, id, tree),
    ensures
        tree == constant::number_tree(store, id, count(store, id, tree)),
        tree.ctor == store.shape(id)->nil || tree.ctor == store.shape(id)->cons,
        tree.ctor == store.shape(id)->nil ==> tree.fields.len() == 0 && count(store, id, tree) == 0,
        tree.ctor == store.shape(id)->cons ==> {
            &&& tree.fields.len() == 1
            &&& constant::typed(store, id, tree.fields[0])
            &&& count(store, id, tree) == 1 + count(store, id, tree.fields[0])
        },
    decreases tree,
{
    constant::a_spine_has_two_ends(store, id);
    let cons = store.shape(id)->cons;
    assert(store.builds(id, tree.ctor));
    if tree.ctor == cons {
        constant::fields_are_typed(store, store.fields(cons), tree.fields, 0);
        assert(decreases_to!(tree => tree.fields[0]));
        a_value_is_its_count(store, id, tree.fields[0]);
        assert(tree.fields =~= seq![tree.fields[0]]);
        assert(tree =~= constant::number_tree(store, id, count(store, id, tree)));
    } else {
        assert(tree.fields =~= seq![]);
        assert(tree =~= constant::number_tree(store, id, 0));
    }
}

/// What each type takes is what it is represented as.
proof fn a_class_is_found(store: barb::Store, count: nat, id: barb::TypeId)
    requires
        id.0 < count,
        lower::classes_found(store, count) is Ok,
    ensures
        lower::classes_found(store, count)->Ok_0.len() == count,
        lower::represented(store, id) == Ok::<_, Seq<char>>(
            lower::classes_found(store, count)->Ok_0[id.0 as int],
        ),
    decreases count,
{
    let fewer = (count - 1) as nat;
    if id.0 < fewer {
        a_class_is_found(store, fewer, id);
    } else {
        assert(id == barb::TypeId(fewer as u32));
        classes_are_as_many(store, fewer);
    }
}

proof fn classes_are_as_many(store: barb::Store, count: nat)
    ensures
        lower::classes_found(store, count) matches Ok(classes) ==> classes.len() == count,
    decreases count,
{
    if count > 0 {
        classes_are_as_many(store, (count - 1) as nat);
    }
}

/// Whether a frame's classes are those its types take.
pub open spec fn is_classed(frame: FrameForm) -> bool {
    &&& frame.store.wf()
    &&& frame.classes.len() == frame.store.types.len()
    &&& lower::classes_found(frame.store, frame.store.types.len()) == Ok::<_, Seq<char>>(
        frame.classes,
    )
}

/// A type is a number, which is a word, or carries nothing.
proof fn a_type_is_a_number_or_nothing(frame: FrameForm, id: barb::TypeId)
    requires
        is_classed(frame),
        id.0 < frame.store.types.len(),
    ensures
        match frame.classes[id.0 as int] {
            Some(class) => class == Class::Word && frame.store.is_number(id),
            None => lower::is_erased(frame.store, id),
        },
{
    a_class_is_found(frame.store, frame.store.types.len(), id);
}

/// Whether a value of a type is where it is said to be: a number in a word,
/// and what carries nothing nowhere.
pub open spec fn stands_for(
    frame: FrameForm,
    parts: Parts,
    held: Held,
    value: Option<ValueId>,
    id: barb::TypeId,
    tree: Tree,
) -> bool {
    match frame.classes[id.0 as int] {
        None => value is None,
        Some(_) => value matches Some(v) && {
            &&& held.dom().contains(v)
            &&& held[v] == count(frame.store, id, tree)
            &&& v.0 < parts.classes.len()
            &&& parts.class(v) == Class::Word
        },
    }
}

/// Whether every local is where it is said to be.
pub open spec fn all_stand(
    frame: FrameForm,
    parts: Parts,
    held: Held,
    locals: Seq<Option<ValueId>>,
    types: Seq<barb::TypeId>,
    trees: Seq<Tree>,
) -> bool {
    &&& locals.len() == types.len()
    &&& meaning::are_of(frame.store, trees, types)
    &&& forall|i: int|
        0 <= i < types.len() ==> (#[trigger] types[i]).0 < frame.store.types.len() && stands_for(
            frame,
            parts,
            held,
            locals[i],
            types[i],
            trees[i],
        )
}

/// Whether values below a mark hold what they held.
pub open spec fn kept(before: Held, after: Held, mark: nat) -> bool {
    forall|v: ValueId|
        v.0 < mark && #[trigger] before.dom().contains(v) ==> after.dom().contains(v) && after[v]
            == before[v]
}

/// Locals stay where they are while more is defined.
proof fn standing_is_kept(
    frame: FrameForm,
    parts: Parts,
    old: Parts,
    before: Held,
    after: Held,
    locals: Seq<Option<ValueId>>,
    types: Seq<barb::TypeId>,
    trees: Seq<Tree>,
)
    requires
        all_stand(frame, parts, before, locals, types, trees),
        lower::all_bound(old, locals),
        kept(before, after, old.classes.len()),
    ensures
        all_stand(frame, parts, after, locals, types, trees),
{
    assert forall|i: int| 0 <= i < types.len() implies (#[trigger] types[i]).0
        < frame.store.types.len() && stands_for(
        frame,
        parts,
        after,
        locals[i],
        types[i],
        trees[i],
    ) by {
        assert(stands_for(frame, parts, before, locals[i], types[i], trees[i]));
        if let Some(v) = locals[i] {
            assert(old.known(v));
            if frame.classes[types[i].0 as int] is Some {
                assert(before.dom().contains(v));
            }
        }
    }
}

proof fn one_more_stands(
    frame: FrameForm,
    parts: Parts,
    held: Held,
    locals: Seq<Option<ValueId>>,
    types: Seq<barb::TypeId>,
    trees: Seq<Tree>,
    value: Option<ValueId>,
    id: barb::TypeId,
    tree: Tree,
)
    requires
        all_stand(frame, parts, held, locals, types, trees),
        id.0 < frame.store.types.len(),
        constant::typed(frame.store, id, tree),
        stands_for(frame, parts, held, value, id, tree),
    ensures
        all_stand(frame, parts, held, locals.push(value), types.push(id), trees.push(tree)),
{
    let all = types.push(id);
    assert forall|i: int| 0 <= i < all.len() implies (#[trigger] all[i]).0
        < frame.store.types.len() && stands_for(
        frame,
        parts,
        held,
        locals.push(value)[i],
        all[i],
        trees.push(tree)[i],
    ) by {
        if i < types.len() {
            assert(all[i] == types[i]);
        }
    }
    assert forall|i: int| 0 <= i < trees.push(tree).len() implies constant::typed(
        frame.store,
        all[i],
        #[trigger] trees.push(tree)[i],
    ) by {
        if i < trees.len() {
            assert(trees.push(tree)[i] == trees[i]);
        }
    }
}

/// A value defined after all that was there, and the rest as it was.
proof fn a_new_value_keeps_the_rest(held: Held, value: ValueId, number: nat, mark: nat)
    requires
        value.0 >= mark,
    ensures
        kept(held, held.insert(value, number), mark),
        machine::defined(held, seq![value], seq![number]) == held.insert(value, number),
{
    reveal_with_fuel(machine::defined, 2);
    assert(seq![value].drop_last() =~= seq![]);
}

proof fn keeping_chains(first: Held, second: Held, third: Held, low: nat, high: nat)
    requires
        kept(first, second, low),
        kept(second, third, high),
        low <= high,
    ensures
        kept(first, third, low),
{
    assert forall|v: ValueId| v.0 < low && #[trigger] first.dom().contains(v) implies third.dom()
        .contains(v) && third[v] == first[v] by {
        assert(second.dom().contains(v));
    }
}

/// An instruction of one result, pushed: where it stands, and what it
/// defines.
pub(super) proof fn a_pushed_result_is_the_next(parts: Parts, draft: Draft, op: Op, class: Class)
    requires
        lower::pushed(draft, op, seq![class]) matches Ok(after) && holds(parts, after.program),
    ensures
        ({
            let after = lower::pushed(draft, op, seq![class])->Ok_0;
            let range = Range::from(draft.program.operands.len(), 1);
            &&& after.ops == draft.ops.push(op)
            &&& after.results == draft.results.push(range)
            &&& parts.values(range) == seq![lower::next(draft)]
            &&& lower::next(draft).0 == draft.program.classes.len()
            &&& lower::next(draft).0 < parts.classes.len()
            &&& parts.class(lower::next(draft)) == class
        }),
{
    let after = lower::pushed(draft, op, seq![class])->Ok_0;
    let range = Range::from(draft.program.operands.len(), 1);
    assert(range.within(after.program.operands.len()));
    a_run_reads_the_same(parts, after.program, range);
    assert(after.program.values(range) =~= seq![lower::next(draft)]);
    let at = draft.program.classes.len() as int;
    assert(after.program.classes[at] == parts.classes[at]);
}

/// Whether a draft's instructions reach `held` from `start`.
spec fn draft_reaches(
    parts: Parts,
    draft: Draft,
    start: Held,
    wide: nat,
    long: nat,
    held: Held,
) -> bool {
    reaches(parts, draft.ops, draft.results, start, wide, long, held)
}

/// A constant comes to itself, where words are wide enough for it.
proof fn a_constant_is_reached(
    parts: Parts,
    draft: Draft,
    value: u64,
    start: Held,
    wide: nat,
    long: nat,
    held: Held,
)
    requires
        lower::constant_pushed(draft, Class::Word, value) matches Ok((after, _)) && holds(
            parts,
            after.program,
        ),
        draft_reaches(parts, draft, start, wide, long, held),
    ensures
        ({
            let (after, made) = lower::constant_pushed(draft, Class::Word, value)->Ok_0;
            let next = held.insert(made, value as nat);
            &&& draft_reaches(
                parts,
                after,
                start,
                larger(wide, value as nat + 1),
                long,
                next,
            )
            &&& kept(held, next, draft.program.classes.len())
            &&& made.0 < parts.classes.len()
            &&& made.0 == draft.program.classes.len()
            &&& parts.class(made) == Class::Word
        }),
{
    let number = super::model::wrapped(Class::Word, value);
    assert(number == value) by {
        vstd::arithmetic::div_mod::lemma_small_mod(value as nat, 0x1_0000_0000_0000_0000);
    }
    let op = Op::Constant { class: Class::Word, value: number };
    let (after, made) = lower::constant_pushed(draft, Class::Word, value)->Ok_0;
    let range = Range::from(draft.program.operands.len(), 1);
    let next = held.insert(made, value as nat);
    a_pushed_result_is_the_next(parts, draft, op, Class::Word);
    a_new_value_keeps_the_rest(held, made, value as nat, draft.program.classes.len());
    assert forall|host: Host, fuel: nat|
        host.waits() && host.size >= value as nat + 1 && fuel >= 0 implies #[trigger] parts.op_runs(
            host,
            op,
            parts.values(range),
            held,
            fuel,
        ) == Some(Step::Goes(next)) by {
        vstd::arithmetic::div_mod::lemma_small_mod(value as nat, host.size);
    }
    one_more_goes(
        parts,
        draft.ops,
        draft.results,
        start,
        wide,
        long,
        held,
        op,
        range,
        value as nat + 1,
        0,
        next,
    );
}

/// What two words come to under an operation, where the result is one.
spec fn worked_out(op: Binary, left: nat, right: nat) -> nat {
    match op {
        Binary::Add => left + right,
        Binary::Sub => (left - right) as nat,
    }
}

/// An operation on two words comes to its result, where words are wide
/// enough for it.
proof fn an_operation_is_reached(
    parts: Parts,
    draft: Draft,
    op: Binary,
    left: ValueId,
    right: ValueId,
    start: Held,
    wide: nat,
    long: nat,
    held: Held,
)
    requires
        lower::binary_pushed(draft, op, left, right) matches Ok((after, _)) && holds(
            parts,
            after.program,
        ),
        draft_reaches(parts, draft, start, wide, long, held),
        draft.program.known(left),
        parts.class(left) == Class::Word,
        held.dom().contains(left),
        held.dom().contains(right),
        op == Binary::Sub ==> held[right] <= held[left],
    ensures
        ({
            let (after, made) = lower::binary_pushed(draft, op, left, right)->Ok_0;
            let number = worked_out(op, held[left], held[right]);
            let next = held.insert(made, number);
            &&& draft_reaches(parts, after, start, larger(wide, number + 1), long, next)
            &&& kept(held, next, draft.program.classes.len())
            &&& made.0 < parts.classes.len()
            &&& made.0 == draft.program.classes.len()
            &&& parts.class(made) == Class::Word
        }),
{
    let instruction = Op::Binary { op, left, right };
    let (after, made) = lower::binary_pushed(draft, op, left, right)->Ok_0;
    let number = worked_out(op, held[left], held[right]);
    let range = Range::from(draft.program.operands.len(), 1);
    let next = held.insert(made, number);
    assert(draft.program.class(left) == Class::Word) by {
        assert(after.program.classes[left.0 as int] == parts.classes[left.0 as int]);
    }
    a_pushed_result_is_the_next(parts, draft, instruction, Class::Word);
    a_new_value_keeps_the_rest(held, made, number, draft.program.classes.len());
    let both = seq![left, right];
    assert(machine::read(held, both) is Some) by {
        assert(both[0] == left && both[1] == right);
    }
    assert forall|host: Host, fuel: nat|
        host.waits() && host.size >= number + 1 && fuel >= 0 implies #[trigger] parts.op_runs(
            host,
            instruction,
            parts.values(range),
            held,
            fuel,
        ) == Some(Step::Goes(next)) by {
        vstd::arithmetic::div_mod::lemma_small_mod(number, host.size);
        assert(parts.computed(op, Class::Word, held[left], held[right], host.size) == number);
    }
    one_more_goes(
        parts,
        draft.ops,
        draft.results,
        start,
        wide,
        long,
        held,
        instruction,
        range,
        number + 1,
        0,
        next,
    );
}

/// Asking whether a number is nought says so.
proof fn asking_is_reached(
    parts: Parts,
    draft: Draft,
    scrutinee: ValueId,
    start: Held,
    wide: nat,
    long: nat,
    held: Held,
) -> (after_held: Held)
    requires
        draft.ops.len() == draft.results.len(),
        lower::asked(draft, Class::Word, scrutinee) matches Ok((after, _)) && holds(
            parts,
            after.program,
        ),
        draft_reaches(parts, draft, start, wide, long, held),
        draft.program.known(scrutinee),
        held.dom().contains(scrutinee),
    ensures
        ({
            let (after, condition) = lower::asked(draft, Class::Word, scrutinee)->Ok_0;
            &&& draft_reaches(parts, after, start, larger(wide, 1), long, after_held)
            &&& kept(held, after_held, draft.program.classes.len())
            &&& after_held.dom().contains(condition)
            &&& (after_held[condition] != 0) == (held[scrutinee] == 0)
        }),
{
    let (mid, nought) = lower::constant_pushed(draft, Class::Word, 0)->Ok_0;
    let (after, condition) = lower::asked(draft, Class::Word, scrutinee)->Ok_0;
    let constant = Op::Constant {
        class: Class::Word,
        value: super::model::wrapped(Class::Word, 0),
    };
    let op = Op::Compare { relation: Relation::Equal, left: scrutinee, right: nought };
    a_push_goes_on(draft, constant, seq![Class::Word]);
    a_push_goes_on(mid, op, seq![Class::Word]);
    an_extension_holds(after.program, mid.program);
    holding_chains(parts, after.program, mid.program);
    a_constant_is_reached(parts, draft, 0, start, wide, long, held);
    let between = held.insert(nought, 0);
    let says = if held[scrutinee] == 0 {
        1nat
    } else {
        0nat
    };
    let next = between.insert(condition, says);
    let range = Range::from(mid.program.operands.len(), 1);
    a_pushed_result_is_the_next(parts, mid, op, Class::Word);
    a_new_value_keeps_the_rest(between, condition, says, mid.program.classes.len());
    keeping_chains(held, between, next, draft.program.classes.len(), mid.program.classes.len());
    let both = seq![scrutinee, nought];
    assert(machine::read(between, both) is Some) by {
        assert(both[0] == scrutinee && both[1] == nought);
    }
    assert(between[scrutinee] == held[scrutinee]);
    assert forall|host: Host, fuel: nat|
        host.waits() && host.size >= 1 && fuel >= 0 implies #[trigger] parts.op_runs(
            host,
            op,
            parts.values(range),
            between,
            fuel,
        ) == Some(Step::Goes(next)) by {
        let read = machine::read(between, both)->Some_0;
        assert(read[0] == held[scrutinee]);
        assert(read[1] == 0);
    }
    one_more_goes(
        parts,
        mid.ops,
        mid.results,
        start,
        larger(wide, 1),
        long,
        between,
        op,
        range,
        1,
        0,
        next,
    );
    next
}

/// What is extended is held.
pub(super) proof fn an_extension_holds(whole: Parts, part: Parts)
    requires
        whole.extends(part),
    ensures
        holds(whole, part),
{
    assert forall|r: RegionId| r.0 < part.regions.len() && !part.is_body(
        r,
    ) implies #[trigger] whole.region(r) == part.region(r) by {
        assert(whole.regions[r.0 as int] == part.regions[r.0 as int]);
    }
}

/// What has left stays left, whatever follows.
proof fn a_departure_is_final(
    parts: Parts,
    before: Draft,
    after: Draft,
    start: Held,
    wide: nat,
    long: nat,
    left: Left,
    upto: int,
)
    requires
        goes_on(before, after),
        before.ops.len() == before.results.len(),
        departs(parts, before.ops, before.results, start, wide, long, left),
        before.ops.len() <= upto <= after.ops.len(),
    ensures
        departs(parts, after.ops.take(upto), after.results.take(upto), start, wide, long, left),
    decreases upto,
{
    if upto == before.ops.len() {
        assert(after.ops.take(upto) =~= before.ops);
        assert(after.results.take(upto) =~= before.results);
    } else {
        a_departure_is_final(parts, before, after, start, wide, long, left, upto - 1);
        one_more_is_never_run(
            parts,
            after.ops.take(upto - 1),
            after.results.take(upto - 1),
            start,
            wide,
            long,
            after.ops[upto - 1],
            after.results[upto - 1],
            left,
        );
        assert(after.ops.take(upto - 1).push(after.ops[upto - 1]) =~= after.ops.take(upto));
        assert(after.results.take(upto - 1).push(after.results[upto - 1]) =~= after.results.take(
            upto,
        ));
    }
}

/// The words a value of a type takes: a number takes one, and what carries
/// nothing none.
pub open spec fn words(frame: FrameForm, id: barb::TypeId, tree: Tree) -> Seq<nat> {
    match frame.classes[id.0 as int] {
        None => seq![],
        Some(_) => seq![count(frame.store, id, tree)],
    }
}

/// The words the first `count` of some values take.
pub open spec fn all_words(
    frame: FrameForm,
    types: Seq<barb::TypeId>,
    trees: Seq<Tree>,
    count: nat,
) -> Seq<nat>
    decreases count,
{
    if count == 0 {
        seq![]
    } else {
        all_words(frame, types, trees, (count - 1) as nat) + words(
            frame,
            types[count - 1],
            trees[count - 1],
        )
    }
}

/// A term answers what its type takes, where the locals that carry something
/// are those whose types do.
proof fn a_term_answers_its_class(
    frame: FrameForm,
    expr: barb::ExprId,
    types: Seq<barb::TypeId>,
    id: barb::TypeId,
    pure: bool,
)
    requires
        is_classed(frame),
        expr.0 < frame.store.exprs.len(),
        frame.store.has_type(expr, types, id, pure),
        forall|i: int|
            0 <= i < types.len() ==> (#[trigger] types[i]).0 < frame.store.types.len(),
    ensures
        id.0 < frame.store.types.len(),
        frame.answers(expr, frame.carrying(types)) == frame.classes[id.0 as int],
    decreases expr.0,
{
    let store = frame.store;
    let carried = frame.carrying(types);
    assert(store.expr_fits(expr.0 as int, store.exprs[expr.0 as int]));
    meaning::a_type_there_is(store, expr, types, id, pure);
    a_type_is_a_number_or_nothing(frame, id);
    match store.expr(expr) {
        barb::Expr::Let(value, body) => {
            let of = choose|of: barb::TypeId|
                store.has_type(value, types, of, pure) && store.has_type(
                    body,
                    #[trigger] types.push(of),
                    id,
                    pure,
                );
            a_term_answers_its_class(frame, value, types, of, pure);
            a_term_answers_its_class(frame, body, types.push(of), id, pure);
            assert(frame.carrying(types.push(of)) =~= carried.push(
                frame.answers(value, carried) is Some,
            ));
        },
        barb::Expr::Match(scrutinee, range) => {
            let list = range.read(store.arms);
            let owner = types[scrutinee.0.0 as int];
            a_type_is_a_number_or_nothing(frame, owner);
            assert(store.type_fits(owner.0 as int));
            assert(store.ctors_of(owner).len() == store.type_(owner).ctors.len);
            let first = list[0];
            assert(first == store.arms[range.start as int]);
            let fields = store.fields(first.ctor);
            let more = types + fields;
            assert(store.ctor_fits(first.ctor.0 as int));
            assert forall|i: int| 0 <= i < more.len() implies (#[trigger] more[i]).0
                < store.types.len() by {
                if i >= types.len() {
                    assert(fields[i - types.len()] == store.types_pool[store.ctor(
                        first.ctor,
                    ).fields.start + (i - types.len())]);
                }
            }
            a_term_answers_its_class(frame, first.body, more, id, pure);
            assert(frame.carrying(more) =~= carried + frame.carrying(fields));
        },
        _ => {},
    }
}

/// Whether the entry takes `most` steps at least, so that a run of no more
/// does not come back to it.
spec fn is_first(store: barb::Store, most: nat) -> bool {
    store.entry matches Some(entry) ==> forall|args: Seq<Tree>, fuel: nat|
        fuel < most && meaning::are_of(store, args, store.params(entry)) ==> (#[trigger]
        store.meaning(store.function(entry).body, args, fuel)) is None
}

/// Whether a function became what it was declared as.
pub open spec fn is_placed(frame: FrameForm, base: Parts, f: barb::FnId) -> bool {
    is_place_of(frame, base, f, frame.places[f.0 as int])
}

/// Whether a place is one that a function may become.
pub open spec fn is_place_of(frame: FrameForm, base: Parts, f: barb::FnId, place: Place) -> bool {
    let types = frame.store.params(f);
    match place {
        Place::Function(into) => {
            let function = base.function(into);
            let values = base.values(function.params);
            &&& frame.store.function(f).defined
            &&& facts::known_of(frame.facts, f) is None
            &&& into.0 < base.functions.len()
            &&& function.params.within(base.operands.len())
            &&& function.answers.within(base.signature.len())
            &&& values.no_duplicates()
            &&& values.len() == lower::classes_of(frame.classes, types, types.len()).len()
            &&& forall|i: int|
                0 <= i < values.len() ==> (#[trigger] values[i]).0 < base.classes.len()
                    && base.class(values[i]) == Class::Word
            &&& function.answers.read(base.signature) == if frame.store.entry == Some(f) {
                seq![Class::Word]
            } else {
                lower::listed(frame.classes[frame.store.function(f).result.0 as int])
            }
            &&& into.0 == 0 <==> frame.store.entry == Some(f)
        },
        Place::Instruction => facts::known_of(frame.facts, f) is Some,
        Place::Routine(platform) => {
            &&& !frame.store.function(f).defined
            &&& platform.0 < base.platform.len()
            &&& base.routine(platform).name.0 < base.names.len()
            &&& base.name(base.routine(platform).name) == lower::routine_name(
                frame.store.name(frame.store.function(f).name),
            )
        },
    }
}

/// Whether everything a body is lowered by is as it should be, where `base`
/// is what was declared.
pub open spec fn is_set(frame: FrameForm, base: Parts) -> bool {
    &&& is_classed(frame)
    &&& frame.store.typed()
    &&& frame.facts == frame.store.facts()
    &&& frame.places.len() == frame.store.functions.len()
    &&& lower::places_fit(base, frame.places)
    &&& signed(base)
    &&& base.functions.len() <= base.regions.len()
    &&& forall|i: int|
        0 <= i < base.functions.len() ==> (#[trigger] base.functions[i]).body.0 == i
    &&& forall|f: barb::FnId|
        f.0 < frame.store.functions.len() ==> #[trigger] is_placed(frame, base, f)
}

/// Whether a function's body in the whole program is what it was lowered to,
/// from `parts` on.
pub open spec fn lowered_from(
    frame: FrameForm,
    whole: Parts,
    base: Parts,
    f: barb::FnId,
    into: FunctionId,
    parts: Parts,
) -> bool {
    &&& holds(parts, base)
    &&& is_even(parts)
    &&& frame.function_lowered(parts, f, into) matches Ok(after) && {
        &&& holds(whole, after)
        &&& whole.region(base.function(into).body) == after.region(base.function(into).body)
    }
}

/// Whether every function that became one has its body.
pub open spec fn is_whole(frame: FrameForm, whole: Parts, base: Parts) -> bool {
    &&& holds(whole, base)
    &&& forall|f: barb::FnId|
        f.0 < frame.store.functions.len() ==> ((#[trigger] frame.places[f.0 as int]) matches
            Place::Function(into) ==> exists|parts: Parts| #[trigger]
            lowered_from(frame, whole, base, f, into, parts))
}

/// What asking for something of the outside comes to.
spec fn asked_of(frame: FrameForm, f: barb::FnId, args: Seq<Tree>) -> Left {
    let types = frame.store.params(f);
    Left::Asks(
        frame.places[f.0 as int]->Routine_0,
        all_words(frame, types, args, types.len()),
    )
}

/// Whether a draft computes what a term comes to, and `value` is where it is.
spec fn computes(
    frame: FrameForm,
    parts: Parts,
    after: Draft,
    value: Option<ValueId>,
    id: barb::TypeId,
    outcome: Outcome,
    start: Held,
    reached: (nat, nat, Held),
    before: Held,
    mark: nat,
) -> bool {
    let (wide, long, held) = reached;
    match outcome {
        Outcome::Answers(tree) => {
            &&& draft_reaches(parts, after, start, wide, long, held)
            &&& kept(before, held, mark)
            &&& stands_for(frame, parts, held, value, id, tree)
        },
        Outcome::Asks(f, args) => departs(
            parts,
            after.ops,
            after.results,
            start,
            wide,
            long,
            asked_of(frame, f, args),
        ),
    }
}

proof fn passing_reads(
    frame: FrameForm,
    parts: Parts,
    held: Held,
    locals: Seq<Option<ValueId>>,
    types: Seq<barb::TypeId>,
    trees: Seq<Tree>,
    atoms: Seq<barb::Atom>,
    wanted: Seq<barb::TypeId>,
    args: Seq<Tree>,
    count: nat,
)
    requires
        all_stand(frame, parts, held, locals, types, trees),
        barb::typing::atoms_fit(atoms, types, wanted),
        meaning::bound(atoms, trees) == Some(args),
        count <= atoms.len(),
        lower::passed(locals, atoms, count) is Ok,
    ensures
        ({
            let values = lower::passed(locals, atoms, count)->Ok_0;
            let numbers = all_words(frame, wanted, args, count);
            &&& values.len() == numbers.len()
            &&& forall|i: int|
                0 <= i < values.len() ==> held.dom().contains(#[trigger] values[i])
                    && held[values[i]] == numbers[i]
        }),
    decreases count,
{
    if count > 0 {
        let fewer = (count - 1) as nat;
        passing_reads(frame, parts, held, locals, types, trees, atoms, wanted, args, fewer);
        let at = atoms[fewer as int].0.0 as int;
        assert(types[at] == wanted[fewer as int]);
        assert(stands_for(frame, parts, held, locals[at], types[at], trees[at]));
        assert(args[fewer as int] == trees[at]);
        let before = lower::passed(locals, atoms, fewer)->Ok_0;
        let values = lower::passed(locals, atoms, count)->Ok_0;
        let numbers = all_words(frame, wanted, args, count);
        assert forall|i: int| 0 <= i < values.len() implies held.dom().contains(
            #[trigger] values[i],
        ) && held[values[i]] == numbers[i] by {
            if i < before.len() {
                assert(values[i] == before[i]);
            }
        }
    }
}

/// A call, pushed: where its arguments and its answers stand.
proof fn a_call_is_laid_out(
    parts: Parts,
    draft: Draft,
    args: Seq<ValueId>,
    op: Op,
    answers: Range,
)
    requires
        draft.ops.len() == draft.results.len(),
        answers.within(draft.program.signature.len()),
        lower::called(draft, args, op, answers) matches Ok((after, _)) && holds(
            parts,
            after.program,
        ),
    ensures
        ({
            let after = lower::called(draft, args, op, answers)->Ok_0.0;
            let run = Range::from(draft.program.operands.len(), args.len());
            let range = Range::from(
                draft.program.operands.len() + args.len(),
                answers.len as nat,
            );
            let classes = answers.read(draft.program.signature);
            &&& after.ops == draft.ops.push(op)
            &&& after.results == draft.results.push(range)
            &&& parts.values(run) == args
            &&& parts.values(range).len() == answers.len
            &&& answers.len > 0 ==> {
                &&& parts.values(range)[0] == lower::next(draft)
                &&& lower::next(draft).0 == draft.program.classes.len()
                &&& lower::next(draft).0 < parts.classes.len()
                &&& parts.class(lower::next(draft)) == classes[0]
            }
        }),
{
    let after = lower::called(draft, args, op, answers)->Ok_0.0;
    let classes = answers.read(draft.program.signature);
    let run = Range::from(draft.program.operands.len(), args.len());
    let range = Range::from(draft.program.operands.len() + args.len(), answers.len as nat);
    assert(run.within(after.program.operands.len()));
    assert(range.within(after.program.operands.len()));
    a_run_reads_the_same(parts, after.program, run);
    a_run_reads_the_same(parts, after.program, range);
    assert(after.program.values(run) =~= args);
    assert(after.program.values(range) =~= draft.program.fresh(classes.len()));
    if answers.len > 0 {
        let at = draft.program.classes.len() as int;
        assert(after.program.classes[at] == classes[0]);
        assert(after.program.classes[at] == parts.classes[at]);
    }
}

/// Defining what is answered, where at most one thing is.
proof fn answers_are_defined(held: Held, results: Seq<ValueId>, numbers: Seq<nat>, mark: nat)
    requires
        results.len() == numbers.len(),
        results.len() <= 1,
        results.len() == 1 ==> results[0].0 >= mark,
    ensures
        kept(held, machine::defined(held, results, numbers), mark),
        machine::gives(held, results, numbers) == Some(
            Step::Goes(machine::defined(held, results, numbers)),
        ),
        results.len() == 1 ==> machine::defined(held, results, numbers).dom().contains(results[0])
            && machine::defined(held, results, numbers)[results[0]] == numbers[0],
{
    reveal_with_fuel(machine::defined, 2);
}

/// What calling a function comes to.
spec fn function_left(frame: FrameForm, f: barb::FnId, outcome: Outcome) -> Left {
    match outcome {
        Outcome::Answers(tree) => Left::Answers(
            if frame.store.entry == Some(f) && frame.classes[frame.store.function(
                f,
            ).result.0 as int] is None {
                seq![0nat]
            } else {
                words(frame, frame.store.function(f).result, tree)
            },
        ),
        Outcome::Asks(g, args) => asked_of(frame, g, args),
    }
}

/// Whether a function comes to what it does, wherever words are wide enough
/// and there are steps enough.
spec fn function_comes_to(
    parts: Parts,
    into: FunctionId,
    numbers: Seq<nat>,
    wide: nat,
    long: nat,
    left: Left,
) -> bool {
    forall|host: Host, fuel: nat|
        host.waits() && host.size >= wide && fuel >= long ==> #[trigger] parts.function_runs(host, into, numbers, fuel)
            == Some(left)
}

/// Whether a region does.
spec fn region_comes_to(
    parts: Parts,
    region: RegionId,
    held: Held,
    wide: nat,
    long: nat,
    left: Left,
) -> bool {
    forall|host: Host, fuel: nat|
        host.waits() && host.size >= wide && fuel >= long ==> #[trigger] parts.region_runs(host, region, held, fuel)
            == Some(left)
}

/// A call of a function, after what runs to its end.
proof fn a_call_is_reached(
    frame: FrameForm,
    parts: Parts,
    draft: Draft,
    f: barb::FnId,
    into: FunctionId,
    args: Seq<ValueId>,
    outcome: Outcome,
    start: Held,
    wide: nat,
    long: nat,
    held: Held,
    numbers: Seq<nat>,
    least: nat,
    enough: nat,
) -> (reached: (nat, nat, Held))
    requires
        draft.ops.len() == draft.results.len(),
        ({
            let answers = draft.program.function(into).answers;
            let run = Range::from(draft.program.operands.len(), args.len());
            let result = frame.store.function(f).result;
            &&& answers.within(draft.program.signature.len())
            &&& answers.read(draft.program.signature) == lower::listed(
                frame.classes[result.0 as int],
            )
            &&& lower::called(draft, args, Op::Call { function: into, args: run }, answers) matches
                Ok((after, _)) && holds(parts, after.program)
            &&& frame.classes[result.0 as int] matches Some(class) ==> class == Class::Word
        }),
        !(frame.store.entry == Some(f) && frame.classes[frame.store.function(
            f,
        ).result.0 as int] is None),
        draft_reaches(parts, draft, start, wide, long, held),
        machine::read(held, args) == Some(numbers),
        function_comes_to(parts, into, numbers, least, enough, function_left(frame, f, outcome)),
    ensures
        ({
            let answers = draft.program.function(into).answers;
            let run = Range::from(draft.program.operands.len(), args.len());
            let (after, value) = lower::called(
                draft,
                args,
                Op::Call { function: into, args: run },
                answers,
            )->Ok_0;
            computes(
                frame,
                parts,
                after,
                value,
                frame.store.function(f).result,
                outcome,
                start,
                reached,
                held,
                draft.program.classes.len(),
            )
        }),
{
    let answers = draft.program.function(into).answers;
    let run = Range::from(draft.program.operands.len(), args.len());
    let op = Op::Call { function: into, args: run };
    let result = frame.store.function(f).result;
    let (after, value) = lower::called(draft, args, op, answers)->Ok_0;
    let range = Range::from(draft.program.operands.len() + args.len(), answers.len as nat);
    let classes = answers.read(draft.program.signature);
    assert(classes.len() == answers.len);
    a_call_is_laid_out(parts, draft, args, op, answers);
    let left = function_left(frame, f, outcome);
    match outcome {
        Outcome::Answers(tree) => {
            let given = words(frame, result, tree);
            let next = machine::defined(held, parts.values(range), given);
            answers_are_defined(held, parts.values(range), given, draft.program.classes.len());
            assert forall|host: Host, fuel: nat|
                host.waits() && host.size >= least && fuel >= enough + 1 implies #[trigger] parts.op_runs(
                    host,
                    op,
                    parts.values(range),
                    held,
                    fuel,
                ) == Some(Step::Goes(next)) by {
                assert(parts.function_runs(host, into, numbers, (fuel - 1) as nat) == Some(left));
            }
            one_more_goes(
                parts,
                draft.ops,
                draft.results,
                start,
                wide,
                long,
                held,
                op,
                range,
                least,
                enough + 1,
                next,
            );
            (larger(wide, least), larger(long, enough + 1), next)
        },
        Outcome::Asks(g, asked) => {
            assert forall|host: Host, fuel: nat|
                host.waits() && host.size >= least && fuel >= enough + 1 implies #[trigger] parts.op_runs(
                    host,
                    op,
                    parts.values(range),
                    held,
                    fuel,
                ) == Some(Step::Leaves(left)) by {
                assert(parts.function_runs(host, into, numbers, (fuel - 1) as nat) == Some(left));
            }
            one_more_leaves(
                parts,
                draft.ops,
                draft.results,
                start,
                wide,
                long,
                held,
                op,
                range,
                least,
                enough + 1,
                left,
            );
            (larger(wide, least), larger(long, enough + 1), held)
        },
    }
}

/// A call of a routine, after what runs to its end.
proof fn an_asking_is_reached(
    frame: FrameForm,
    parts: Parts,
    draft: Draft,
    f: barb::FnId,
    platform: PlatformId,
    args: Seq<ValueId>,
    trees: Seq<Tree>,
    start: Held,
    wide: nat,
    long: nat,
    held: Held,
)
    requires
        draft.ops.len() == draft.results.len(),
        frame.places[f.0 as int] == Place::Routine(platform),
        ({
            let answers = draft.program.routine(platform).answers;
            let run = Range::from(draft.program.operands.len(), args.len());
            &&& answers.within(draft.program.signature.len())
            &&& lower::called(draft, args, Op::PlatformCall { platform, args: run }, answers)
                matches Ok((after, _)) && holds(parts, after.program)
        }),
        draft_reaches(parts, draft, start, wide, long, held),
        machine::read(held, args) == Some(
            all_words(frame, frame.store.params(f), trees, frame.store.params(f).len()),
        ),
    ensures
        ({
            let answers = draft.program.routine(platform).answers;
            let run = Range::from(draft.program.operands.len(), args.len());
            let after = lower::called(
                draft,
                args,
                Op::PlatformCall { platform, args: run },
                answers,
            )->Ok_0.0;
            departs(
                parts,
                after.ops,
                after.results,
                start,
                wide,
                long,
                asked_of(frame, f, trees),
            )
        }),
{
    let answers = draft.program.routine(platform).answers;
    let run = Range::from(draft.program.operands.len(), args.len());
    let op = Op::PlatformCall { platform, args: run };
    let range = Range::from(draft.program.operands.len() + args.len(), answers.len as nat);
    a_call_is_laid_out(parts, draft, args, op, answers);
    let left = asked_of(frame, f, trees);
    assert forall|host: Host, fuel: nat|
        host.waits() && host.size >= 0 && fuel >= 0 implies #[trigger] parts.op_runs(
            host,
            op,
            parts.values(range),
            held,
            fuel,
        ) == Some(Step::Leaves(left)) by {
        assert(machine::read(held, parts.values(run)) == machine::read(held, args));
    }
    one_more_leaves(
        parts,
        draft.ops,
        draft.results,
        start,
        wide,
        long,
        held,
        op,
        range,
        0,
        0,
        left,
    );
}

/// Where a term is lowered: what it is lowered by, what came before, and what
/// its locals stand for.
spec fn ready(
    frame: FrameForm,
    whole: Parts,
    base: Parts,
    draft: Draft,
    locals: Seq<Option<ValueId>>,
    types: Seq<barb::TypeId>,
    trees: Seq<Tree>,
    start: Held,
    reached: (nat, nat, Held),
) -> bool {
    &&& is_set(frame, base)
    &&& is_whole(frame, whole, base)
    &&& holds(draft.program, base)
    &&& draft.ops.len() == draft.results.len()
    &&& is_even(draft.program)
    &&& lower::all_bound(draft.program, locals)
    &&& all_stand(frame, whole, reached.2, locals, types, trees)
    &&& draft_reaches(whole, draft, start, reached.0, reached.1, reached.2)
}

/// Lowering goes on where it is ready to.
pub(super) proof fn lowering_is_held(
    frame: FrameForm,
    whole: Parts,
    base: Parts,
    draft: Draft,
    expr: barb::ExprId,
    locals: Seq<Option<ValueId>>,
)
    requires
        is_set(frame, base),
        holds(draft.program, base),
        draft.ops.len() == draft.results.len(),
        lower::all_bound(draft.program, locals),
        expr.0 < frame.store.exprs.len(),
        frame.expr_lowered(draft, expr, locals) matches Ok((after, _)) && holds(
            whole,
            after.program,
        ),
    ensures
        ({
            let (after, value) = frame.expr_lowered(draft, expr, locals)->Ok_0;
            &&& goes_on(draft, after)
            &&& answers_known(after, value)
            &&& holds(after.program, draft.program)
            &&& holds(after.program, base)
            &&& holds(whole, draft.program)
        }),
{
    lowering_goes_on(frame, draft, expr, locals);
    let after = frame.expr_lowered(draft, expr, locals)->Ok_0.0;
    an_extension_holds(after.program, draft.program);
    holding_chains(after.program, draft.program, base);
    holding_chains(whole, after.program, draft.program);
}

/// A number known outright is the constant it is lowered to.
proof fn a_known_value_computes(
    frame: FrameForm,
    whole: Parts,
    draft: Draft,
    id: barb::TypeId,
    value: barb::ConstId,
    start: Held,
    reached: (nat, nat, Held),
) -> (after_reached: (nat, nat, Held))
    requires
        is_classed(frame),
        id.0 < frame.store.types.len(),
        exists|tree: Tree| #[trigger]
            constant::encodes(frame.store, id, tree, frame.store.known_bytes(value)),
        draft_reaches(whole, draft, start, reached.0, reached.1, reached.2),
        frame.known_lowered(draft, id, value) matches Ok((after, _)) && holds(
            whole,
            after.program,
        ),
    ensures
        ({
            let (after, made) = frame.known_lowered(draft, id, value)->Ok_0;
            computes(
                frame,
                whole,
                after,
                made,
                id,
                Outcome::Answers(frame.store.held(id, value)),
                start,
                after_reached,
                reached.2,
                draft.program.classes.len(),
            )
        }),
{
    let store = frame.store;
    let bytes = store.known_bytes(value);
    let tree = store.held(id, value);
    let number = count(store, id, tree);
    assert(constant::encodes(store, id, tree, bytes));
    a_type_is_a_number_or_nothing(frame, id);
    a_value_is_its_count(store, id, tree);
    constant::a_number_is_its_count(store, id, number);
    constant::a_number_reads_back(number as u64, bytes);
    a_constant_is_reached(
        whole,
        draft,
        number as u64,
        start,
        reached.0,
        reached.1,
        reached.2,
    );
    let made = lower::constant_pushed(draft, Class::Word, number as u64)->Ok_0.1;
    (larger(reached.0, number + 1), reached.1, reached.2.insert(made, number))
}

/// A constructor is what it is lowered to: nought, one more, or nothing.
proof fn a_con_computes(
    frame: FrameForm,
    whole: Parts,
    draft: Draft,
    ctor: barb::CtorId,
    atoms: Seq<barb::Atom>,
    locals: Seq<Option<ValueId>>,
    types: Seq<barb::TypeId>,
    trees: Seq<Tree>,
    start: Held,
    reached: (nat, nat, Held),
) -> (after_reached: (nat, nat, Held))
    requires
        is_classed(frame),
        draft.ops.len() == draft.results.len(),
        ctor.0 < frame.store.ctors.len(),
        barb::typing::atoms_fit(atoms, types, frame.store.fields(ctor)),
        lower::all_bound(draft.program, locals),
        all_stand(frame, whole, reached.2, locals, types, trees),
        draft_reaches(whole, draft, start, reached.0, reached.1, reached.2),
        frame.con_lowered(draft, ctor, atoms, locals) matches Ok((after, _)) && holds(
            whole,
            after.program,
        ),
        meaning::bound(atoms, trees) is Some,
        constant::typed(
            frame.store,
            frame.store.ctor(ctor).owner,
            (Tree { ctor, fields: meaning::bound(atoms, trees)->Some_0 }),
        ),
    ensures
        ({
            let (after, made) = frame.con_lowered(draft, ctor, atoms, locals)->Ok_0;
            computes(
                frame,
                whole,
                after,
                made,
                frame.store.ctor(ctor).owner,
                Outcome::Answers(Tree { ctor, fields: meaning::bound(atoms, trees)->Some_0 }),
                start,
                after_reached,
                reached.2,
                draft.program.classes.len(),
            )
        }),
{
    let store = frame.store;
    let owner = store.ctor(ctor).owner;
    let fields = meaning::bound(atoms, trees)->Some_0;
    let tree = Tree { ctor, fields };
    let (wide, long, held) = reached;
    assert(store.ctor_fits(ctor.0 as int));
    a_type_is_a_number_or_nothing(frame, owner);
    if frame.classes[owner.0 as int] is None {
        reached
    } else {
        a_value_is_its_count(store, owner, tree);
        constant::a_spine_has_two_ends(store, owner);
        if atoms.len() == 0 {
            a_constant_is_reached(whole, draft, 0, start, wide, long, held);
            let made = lower::constant_pushed(draft, Class::Word, 0)->Ok_0.1;
            (larger(wide, 1), long, held.insert(made, 0))
        } else {
            let at = atoms[0].0.0 as int;
            let (mid, one) = lower::constant_pushed(draft, Class::Word, 1)->Ok_0;
            let less = lower::read_value(locals, atoms[0])->Ok_0;
            let (after, made) = lower::binary_pushed(mid, Binary::Add, less, one)->Ok_0;
            a_push_goes_on(
                draft,
                Op::Constant { class: Class::Word, value: super::model::wrapped(Class::Word, 1) },
                seq![Class::Word],
            );
            a_push_goes_on(
                mid,
                Op::Binary { op: Binary::Add, left: less, right: one },
                seq![mid.program.class(less)],
            );
            an_extension_holds(after.program, mid.program);
            holding_chains(whole, after.program, mid.program);
            a_constant_is_reached(whole, draft, 1, start, wide, long, held);
            let between = held.insert(one, 1);
            assert(stands_for(frame, whole, held, locals[at], types[at], trees[at]));
            assert(draft.program.known(less));
            assert(types[at] == owner) by {
                assert(store.fields(ctor)[0] == owner) by {
                    assert(tree.fields.len() == 1);
                }
            }
            assert(tree.fields[0] == trees[at]);
            assert(between[less] == held[less]);
            an_operation_is_reached(
                whole,
                mid,
                Binary::Add,
                less,
                one,
                start,
                larger(wide, 2),
                long,
                between,
            );
            let number = count(store, owner, tree);
            let next = between.insert(made, number);
            keeping_chains(
                held,
                between,
                next,
                draft.program.classes.len(),
                mid.program.classes.len(),
            );
            (larger(larger(wide, 2), number + 1), long, next)
        }
    }
}

/// A call that became an instruction computes what the function does.
proof fn an_addition_computes(
    frame: FrameForm,
    whole: Parts,
    draft: Draft,
    f: barb::FnId,
    atoms: Seq<barb::Atom>,
    locals: Seq<Option<ValueId>>,
    types: Seq<barb::TypeId>,
    trees: Seq<Tree>,
    outcome: Outcome,
    fuel: nat,
    start: Held,
    reached: (nat, nat, Held),
) -> (after_reached: (nat, nat, Held))
    requires
        is_classed(frame),
        f.0 < frame.store.functions.len(),
        frame.store.operation(f) == Some(barb::Operation::Add),
        barb::typing::atoms_fit(atoms, types, frame.store.params(f)),
        lower::all_bound(draft.program, locals),
        all_stand(frame, whole, reached.2, locals, types, trees),
        draft_reaches(whole, draft, start, reached.0, reached.1, reached.2),
        lower::passed(locals, atoms, atoms.len()) matches Ok(values) && values.len() >= 2 && (
        lower::binary_pushed(draft, Binary::Add, values[0], values[1]) matches Ok((after, _))
            && holds(whole, after.program)),
        meaning::bound(atoms, trees) matches Some(args) && frame.store.meaning(
            frame.store.function(f).body,
            args,
            fuel,
        ) == Some(outcome),
    ensures
        ({
            let values = lower::passed(locals, atoms, atoms.len())->Ok_0;
            let (after, made) = lower::binary_pushed(
                draft,
                Binary::Add,
                values[0],
                values[1],
            )->Ok_0;
            computes(
                frame,
                whole,
                after,
                Some(made),
                frame.store.function(f).result,
                outcome,
                start,
                after_reached,
                reached.2,
                draft.program.classes.len(),
            )
        }),
{
    let store = frame.store;
    let of = store.function(f).result;
    let args = meaning::bound(atoms, trees)->Some_0;
    let (wide, long, held) = reached;
    let one = atoms[0].0.0 as int;
    let other = atoms[1].0.0 as int;
    assert(store.function_fits(f.0 as int));
    assert(types[one] == of);
    assert(types[other] == of);
    a_type_is_a_number_or_nothing(frame, of);
    constant::a_spine_has_two_ends(store, of);
    assert(frame.classes[of.0 as int] is Some) by {
        if lower::is_erased(store, of) {
            assert(store.type_fits(of.0 as int));
            assert(store.ctors_of(of).len() == 1);
        }
    }
    assert(stands_for(frame, whole, held, locals[one], types[one], trees[one]));
    assert(stands_for(frame, whole, held, locals[other], types[other], trees[other]));
    reveal_with_fuel(lower::passed, 3);
    let values = lower::passed(locals, atoms, atoms.len())->Ok_0;
    let left = locals[one]->Some_0;
    let right = locals[other]->Some_0;
    assert(values =~= seq![left, right]);
    let first = count(store, of, trees[one]);
    let second = count(store, of, trees[other]);
    a_value_is_its_count(store, of, trees[one]);
    a_value_is_its_count(store, of, trees[other]);
    assert(args =~= facts::two_numbers(store, of, first, second));
    facts::addition_adds(store, f, first, second);
    let body = store.function(f).body;
    let sum = constant::number_tree(store, of, first + second);
    let enough = choose|enough: nat| #[trigger]
        store.meaning(body, facts::two_numbers(store, of, first, second), enough) == Some(
            Outcome::Answers(sum),
        );
    meaning::a_term_means_one_thing(store, body, args, fuel, enough);
    constant::a_number_is_its_count(store, of, first + second);
    an_operation_is_reached(whole, draft, Binary::Add, left, right, start, wide, long, held);
    let made = lower::binary_pushed(draft, Binary::Add, left, right)->Ok_0.1;
    (larger(wide, first + second + 1), long, held.insert(made, first + second))
}

/// What an arm comes to.
spec fn arm_left(frame: FrameForm, id: barb::TypeId, outcome: Outcome) -> Left {
    match outcome {
        Outcome::Answers(tree) => Left::Yields(words(frame, id, tree)),
        Outcome::Asks(f, args) => asked_of(frame, f, args),
    }
}

/// The instructions of a region are those it was built of.
pub(super) proof fn a_settled_region_reads_back(
    whole: Parts,
    ended: Draft,
    terminator: Terminator,
    region: RegionId,
)
    requires
        whole.region(region) == ended.region(terminator),
        ended.settled().ops.is_prefix_of(whole.ops),
        ended.settled().results.is_prefix_of(whole.results),
        is_even(ended.program),
        ended.ops.len() == ended.results.len(),
        ended.program.room(ended.ops.len() + 1),
    ensures
        whole.region(region).terminator == terminator,
        whole.region_ops(region) == ended.ops,
        whole.region_results(region) == ended.results,
{
    let from = ended.program.ops.len() as int;
    let settled = ended.settled();
    assert(whole.region(region).ops.start == from);
    assert(whole.region(region).ops.len == ended.ops.len());
    assert forall|i: int| 0 <= i < ended.ops.len() implies #[trigger] whole.region_ops(region)[i]
        == ended.ops[i] by {
        assert(settled.ops[from + i] == whole.ops[from + i]);
    }
    assert forall|i: int| 0 <= i < ended.ops.len() implies #[trigger] whole.region_results(
        region,
    )[i] == ended.results[i] by {
        assert(settled.results[from + i] == whole.results[from + i]);
    }
    assert(whole.region_ops(region) =~= ended.ops);
    assert(whole.region_results(region) =~= ended.results);
}

/// The newest region of a program, as it stands in one that holds it.
pub(super) proof fn the_newest_region(whole: Parts, base: Parts, ended: Draft, terminator: Terminator)
    requires
        holds(ended.program, base),
        base.functions.len() <= base.regions.len(),
        forall|i: int|
            0 <= i < base.functions.len() ==> (#[trigger] base.functions[i]).body.0 == i,
        holds(whole, ended.as_newest(terminator)),
        is_even(ended.program),
        ended.ops.len() == ended.results.len(),
        ended.program.room(ended.ops.len() + 1),
    ensures
        ({
            let region = RegionId(ended.program.regions.len() as u32);
            &&& whole.region(region).terminator == terminator
            &&& whole.region_ops(region) == ended.ops
            &&& whole.region_results(region) == ended.results
        }),
{
    let newest = ended.as_newest(terminator);
    let region = RegionId(ended.program.regions.len() as u32);
    assert(!newest.is_body(region)) by {
        if newest.is_body(region) {
            let f = choose|f: int|
                0 <= f < newest.functions.len() && (#[trigger] newest.functions[f]).body == region;
            assert(newest.functions[f] == base.functions[f]);
        }
    }
    assert(whole.region(region) == newest.region(region));
    a_settled_region_reads_back(whole, ended, terminator, region);
}

/// A region that leaves with a term's value, once its instructions have run.
proof fn a_region_leaves(
    frame: FrameForm,
    whole: Parts,
    region: RegionId,
    end: Draft,
    terminator: Terminator,
    value: Option<ValueId>,
    id: barb::TypeId,
    outcome: Outcome,
    start: Held,
    reached: (nat, nat, Held),
    before: Held,
    mark: nat,
    left: Left,
)
    requires
        whole.region(region).terminator == terminator,
        whole.region_ops(region) == end.ops,
        whole.region_results(region) == end.results,
        whole.values(terminator.values) == lower::leaving(value),
        computes(frame, whole, end, value, id, outcome, start, reached, before, mark),
        left == match outcome {
            Outcome::Answers(tree) => match terminator.exit {
                Exit::Yield => Left::Yields(words(frame, id, tree)),
                _ => Left::Answers(words(frame, id, tree)),
            },
            Outcome::Asks(f, args) => asked_of(frame, f, args),
        },
        terminator.exit == Exit::Yield || terminator.exit == Exit::Return,
    ensures
        region_comes_to(whole, region, start, reached.0, reached.1, left),
{
    let (wide, long, held) = reached;
    match outcome {
        Outcome::Answers(tree) => {
            let numbers = words(frame, id, tree);
            let values = lower::leaving(value);
            assert(machine::read(held, values) == Some(numbers)) by {
                if frame.classes[id.0 as int] is Some {
                    assert(values =~= seq![value->Some_0]);
                }
                assert(machine::read(held, values)->Some_0 =~= numbers);
            }
            assert forall|host: Host, fuel: nat|
                host.waits() && host.size >= wide && fuel >= long implies #[trigger] whole.region_runs(
                    host,
                    region,
                    start,
                    fuel,
                ) == Some(left) by {
                assert(whole.ops_run(host, end.ops, end.results, start, fuel) == Some(
                    Step::Goes(held),
                ));
            }
        },
        Outcome::Asks(f, args) => {
            assert forall|host: Host, fuel: nat|
                host.waits() && host.size >= wide && fuel >= long implies #[trigger] whole.region_runs(
                    host,
                    region,
                    start,
                    fuel,
                ) == Some(left) by {
                assert(whole.ops_run(host, end.ops, end.results, start, fuel) == Some(
                    Step::Leaves(left),
                ));
            }
        },
    }
}

/// What an arm of a match begins with: one less than what was matched on,
/// where it takes that.
spec fn arm_is_ready(
    frame: FrameForm,
    whole: Parts,
    outer: Draft,
    locals: Seq<Option<ValueId>>,
    counts: Option<(Class, ValueId)>,
    types: Seq<barb::TypeId>,
    trees: Seq<Tree>,
    held: Held,
) -> bool {
    match counts {
        None => all_stand(frame, whole, held, locals, types, trees),
        Some((class, scrutinee)) => {
            &&& class == Class::Word
            &&& types.len() == locals.len() + 1
            &&& trees.len() == types.len()
            &&& all_stand(frame, whole, held, locals, types.drop_last(), trees.drop_last())
            &&& types.last().0 < frame.store.types.len()
            &&& frame.classes[types.last().0 as int] is Some
            &&& constant::typed(frame.store, types.last(), trees.last())
            &&& outer.program.known(scrutinee)
            &&& whole.class(scrutinee) == Class::Word
            &&& held.dom().contains(scrutinee)
            &&& held[scrutinee] == 1 + count(frame.store, types.last(), trees.last())
        },
    }
}

/// Counting down what was matched on, where an arm takes that.
proof fn counting_down_is_reached(
    frame: FrameForm,
    whole: Parts,
    inner: Draft,
    locals: Seq<Option<ValueId>>,
    counts: Option<(Class, ValueId)>,
    types: Seq<barb::TypeId>,
    trees: Seq<Tree>,
    held: Held,
) -> (reached: (nat, nat, Held))
    requires
        inner.ops.len() == 0,
        inner.results.len() == 0,
        lower::all_bound(inner.program, locals),
        arm_is_ready(frame, whole, inner, locals, counts, types, trees, held),
        lower::counted_down(inner, locals, counts) matches Ok((after, _)) && holds(
            whole,
            after.program,
        ),
    ensures
        ({
            let (after, more) = lower::counted_down(inner, locals, counts)->Ok_0;
            &&& draft_reaches(whole, after, held, reached.0, reached.1, reached.2)
            &&& all_stand(frame, whole, reached.2, more, types, trees)
        }),
{
    assert(draft_reaches(whole, inner, held, 0, 0, held)) by {
        assert forall|host: Host, fuel: nat| #[trigger]
            whole.ops_run(host, inner.ops, inner.results, held, fuel) == Some(
                Step::Goes(held),
            ) by {}
    }
    match counts {
        None => (0, 0, held),
        Some((class, scrutinee)) => {
            let (mid, one) = lower::constant_pushed(inner, Class::Word, 1)->Ok_0;
            let (after, less) = lower::binary_pushed(mid, Binary::Sub, scrutinee, one)->Ok_0;
            a_push_goes_on(
                inner,
                Op::Constant { class: Class::Word, value: super::model::wrapped(Class::Word, 1) },
                seq![Class::Word],
            );
            a_push_goes_on(
                mid,
                Op::Binary { op: Binary::Sub, left: scrutinee, right: one },
                seq![mid.program.class(scrutinee)],
            );
            an_extension_holds(after.program, mid.program);
            holding_chains(whole, after.program, mid.program);
            a_constant_is_reached(whole, inner, 1, held, 0, 0, held);
            let between = held.insert(one, 1);
            assert(between[scrutinee] == held[scrutinee]);
            an_operation_is_reached(
                whole,
                mid,
                Binary::Sub,
                scrutinee,
                one,
                held,
                larger(0, 2),
                0,
                between,
            );
            let number = count(frame.store, types.last(), trees.last());
            let next = between.insert(less, number);
            keeping_chains(
                held,
                between,
                next,
                inner.program.classes.len(),
                mid.program.classes.len(),
            );
            let fewer = types.drop_last();
            let rest = trees.drop_last();
            standing_is_kept(frame, whole, inner.program, held, next, locals, fewer, rest);
            one_more_stands(
                frame,
                whole,
                next,
                locals,
                fewer,
                rest,
                Some(less),
                types.last(),
                trees.last(),
            );
            assert(fewer.push(types.last()) =~= types);
            assert(rest.push(trees.last()) =~= trees);
            (larger(larger(0, 2), number + 1), 0, next)
        },
    }
}

/// A term is what it is lowered to: what it comes to is what its instructions
/// do.
proof fn an_expr_computes(
    frame: FrameForm,
    whole: Parts,
    base: Parts,
    draft: Draft,
    expr: barb::ExprId,
    locals: Seq<Option<ValueId>>,
    types: Seq<barb::TypeId>,
    id: barb::TypeId,
    pure: bool,
    trees: Seq<Tree>,
    fuel: nat,
    most: nat,
    start: Held,
    reached: (nat, nat, Held),
) -> (after_reached: (nat, nat, Held))
    requires
        is_first(frame.store, most),
        fuel <= most,
        ready(frame, whole, base, draft, locals, types, trees, start, reached),
        expr.0 < frame.store.exprs.len(),
        frame.store.has_type(expr, types, id, pure),
        frame.expr_lowered(draft, expr, locals) matches Ok((after, _)) && holds(
            whole,
            after.program,
        ),
        frame.store.meaning(expr, trees, fuel) is Some,
    ensures
        ({
            let (after, value) = frame.expr_lowered(draft, expr, locals)->Ok_0;
            computes(
                frame,
                whole,
                after,
                value,
                id,
                frame.store.meaning(expr, trees, fuel)->Some_0,
                start,
                after_reached,
                reached.2,
                draft.program.classes.len(),
            )
        }),
    decreases fuel, 1nat,
{
    let store = frame.store;
    let less = (fuel - 1) as nat;
    assert(store.expr_fits(expr.0 as int, store.exprs[expr.0 as int]));
    match store.expr(expr) {
        barb::Expr::Atom(atom) => {
            let at = atom.0.0 as int;
            assert(stands_for(frame, whole, reached.2, locals[at], types[at], trees[at]));
            reached
        },
        barb::Expr::Static(_, value) => a_known_value_computes(
            frame,
            whole,
            draft,
            id,
            value,
            start,
            reached,
        ),
        barb::Expr::Con(ctor, args) => {
            meaning::running_keeps_types(store, expr, types, id, pure, trees, fuel);
            a_con_computes(
                frame,
                whole,
                draft,
                ctor,
                args.read(store.atoms),
                locals,
                types,
                trees,
                start,
                reached,
            )
        },
        barb::Expr::Call(function, args) => a_call_computes(
            frame,
            whole,
            base,
            draft,
            expr,
            locals,
            types,
            id,
            pure,
            trees,
            fuel,
            most,
            start,
            reached,
        ),
        barb::Expr::Let(value, body) => {
            let of = choose|of: barb::TypeId|
                store.has_type(value, types, of, pure) && store.has_type(
                    body,
                    #[trigger] types.push(of),
                    id,
                    pure,
                );
            let (mid, made) = frame.expr_lowered(draft, value, locals)->Ok_0;
            let more = locals.push(made);
            let after = frame.expr_lowered(mid, body, more)->Ok_0.0;
            fits_a_base(frame, base, draft.program);
            lowering_goes_on(frame, draft, value, locals);
            an_extension_holds(mid.program, draft.program);
            holding_chains(mid.program, draft.program, base);
            more_is_bound(draft.program, mid.program, locals, made);
            lowering_is_held(frame, whole, base, mid, body, more);
            let between = an_expr_computes(
                frame,
                whole,
                base,
                draft,
                value,
                locals,
                types,
                of,
                pure,
                trees,
                less,
                most,
                start,
                reached,
            );
            meaning::running_keeps_types(store, value, types, of, pure, trees, less);
            meaning::a_type_there_is(store, value, types, of, pure);
            match store.meaning(value, trees, less)->Some_0 {
                Outcome::Answers(held) => {
                    let low = draft.program.classes.len();
                    standing_is_kept(
                        frame,
                        whole,
                        draft.program,
                        reached.2,
                        between.2,
                        locals,
                        types,
                        trees,
                    );
                    one_more_stands(
                        frame,
                        whole,
                        between.2,
                        locals,
                        types,
                        trees,
                        made,
                        of,
                        held,
                    );
                    let last = an_expr_computes(
                        frame,
                        whole,
                        base,
                        mid,
                        body,
                        more,
                        types.push(of),
                        id,
                        pure,
                        trees.push(held),
                        less,
                        most,
                        start,
                        between,
                    );
                    if store.meaning(body, trees.push(held), less)->Some_0 is Answers {
                        keeping_chains(
                            reached.2,
                            between.2,
                            last.2,
                            low,
                            mid.program.classes.len(),
                        );
                    }
                    last
                },
                Outcome::Asks(f, args) => {
                    a_departure_is_final(
                        whole,
                        mid,
                        after,
                        start,
                        between.0,
                        between.1,
                        asked_of(frame, f, args),
                        after.ops.len() as int,
                    );
                    assert(after.ops.take(after.ops.len() as int) =~= after.ops);
                    assert(after.results.take(after.ops.len() as int) =~= after.results);
                    between
                },
            }
        },
        barb::Expr::Match(scrutinee, arms) => a_match_computes(
            frame,
            whole,
            base,
            draft,
            expr,
            locals,
            types,
            id,
            pure,
            trees,
            fuel,
            most,
            start,
            reached,
        ),
    }
}

/// What was declared goes on fitting the frame.
pub(super) proof fn fits_a_base(frame: FrameForm, base: Parts, program: Parts)
    requires
        is_set(frame, base),
        holds(program, base),
    ensures
        signed(program),
        lower::places_fit(program, frame.places),
{
}

/// A call is what it is lowered to.
proof fn a_call_computes(
    frame: FrameForm,
    whole: Parts,
    base: Parts,
    draft: Draft,
    expr: barb::ExprId,
    locals: Seq<Option<ValueId>>,
    types: Seq<barb::TypeId>,
    id: barb::TypeId,
    pure: bool,
    trees: Seq<Tree>,
    fuel: nat,
    most: nat,
    start: Held,
    reached: (nat, nat, Held),
) -> (after_reached: (nat, nat, Held))
    requires
        is_first(frame.store, most),
        fuel <= most,
        ready(frame, whole, base, draft, locals, types, trees, start, reached),
        expr.0 < frame.store.exprs.len(),
        frame.store.expr(expr) is Call,
        frame.store.has_type(expr, types, id, pure),
        frame.expr_lowered(draft, expr, locals) matches Ok((after, _)) && holds(
            whole,
            after.program,
        ),
        frame.store.meaning(expr, trees, fuel) is Some,
        fuel > 0,
    ensures
        ({
            let (after, value) = frame.expr_lowered(draft, expr, locals)->Ok_0;
            computes(
                frame,
                whole,
                after,
                value,
                id,
                frame.store.meaning(expr, trees, fuel)->Some_0,
                start,
                after_reached,
                reached.2,
                draft.program.classes.len(),
            )
        }),
    decreases fuel, 0nat,
{
    let store = frame.store;
    let less = (fuel - 1) as nat;
    let f = store.expr(expr)->Call_0;
    let args = store.expr(expr)->Call_1;
    let atoms = args.read(store.atoms);
    let wanted = store.params(f);
    let (wide, long, held) = reached;
    assert(store.expr_fits(expr.0 as int, store.exprs[expr.0 as int]));
    assert(store.function_fits(f.0 as int));
    assert(atoms.len() == args.len);
    let passed = meaning::bound(atoms, trees)->Some_0;
    let values = lower::passed(locals, atoms, args.len as nat)->Ok_0;
    passing_reads(
        frame,
        whole,
        held,
        locals,
        types,
        trees,
        atoms,
        wanted,
        passed,
        atoms.len(),
    );
    let numbers = all_words(frame, wanted, passed, wanted.len());
    assert(machine::read(held, values) == Some(numbers)) by {
        assert(machine::read(held, values)->Some_0 =~= numbers);
    }
    assert(is_placed(frame, base, f));
    let outcome = store.meaning(expr, trees, fuel)->Some_0;
    if facts::known_of(frame.facts, f) is Some {
        assert(store.operation(f) == Some(barb::Operation::Add)) by {
            assert(frame.facts[f.0 as int] == store.operation(barb::FnId(f.0)));
        }
        an_addition_computes(
            frame,
            whole,
            draft,
            f,
            atoms,
            locals,
            types,
            trees,
            outcome,
            less,
            start,
            reached,
        )
    } else {
        match frame.places[f.0 as int] {
            Place::Function(into) => {
                meaning::bound_values_are_of(store, atoms, trees, types, wanted);
                let (least, enough) = a_function_computes(
                    frame,
                    whole,
                    base,
                    f,
                    passed,
                    less,
                    most,
                );
                a_type_is_a_number_or_nothing(frame, store.function(f).result);
                assert(draft.program.functions[into.0 as int] == base.functions[into.0 as int]);
                assert(store.entry != Some(f));
                a_call_is_reached(
                    frame,
                    whole,
                    draft,
                    f,
                    into,
                    values,
                    outcome,
                    start,
                    wide,
                    long,
                    held,
                    numbers,
                    least,
                    enough,
                )
            },
            Place::Routine(platform) => {
                assert(draft.program.platform[platform.0 as int]
                    == base.platform[platform.0 as int]);
                an_asking_is_reached(
                    frame,
                    whole,
                    draft,
                    f,
                    platform,
                    values,
                    passed,
                    start,
                    wide,
                    long,
                    held,
                );
                reached
            },
            Place::Instruction => reached,
        }
    }
}

/// A match on a number has two arms: one for nought, and one for the rest.
proof fn a_number_has_two_arms(
    store: barb::Store,
    arms: Seq<barb::Arm>,
    owner: barb::TypeId,
    tree: Tree,
)
    requires
        store.wf(),
        owner.0 < store.types.len(),
        store.is_number(owner),
        store.exhausts(arms, owner),
        constant::typed(store, owner, tree),
    ensures
        ({
            let nil = store.shape(owner)->nil;
            let found = facts::arm_for(arms, tree.ctor, 0);
            let empty = facts::arm_for(arms, nil, 0);
            let counted = lower::other_arm(arms, nil, 0);
            &&& arms.len() == 2
            &&& store.ctor(arms[0].ctor).owner == owner
            &&& 0 <= empty < 2
            &&& 0 <= counted < 2
            &&& 0 <= found < 2
            &&& arms[found].ctor == tree.ctor
            &&& arms[empty].ctor == nil
            &&& tree.ctor == nil ==> found == empty
            &&& tree.ctor != nil ==> found == counted
        }),
{
    a_value_is_its_count(store, owner, tree);
    constant::a_spine_has_two_ends(store, owner);
    assert(store.type_fits(owner.0 as int));
    assert(arms[0].ctor == store.ctor_at(owner, 0));
    assert(arms[1].ctor == store.ctor_at(owner, 1));
    assert(store.builds(owner, arms[0].ctor));
    assert(store.builds(owner, arms[1].ctor));
    reveal_with_fuel(facts::arm_for, 3);
    reveal_with_fuel(lower::other_arm, 3);
}

/// An arm of a match is what it is lowered to.
proof fn an_arm_computes(
    frame: FrameForm,
    whole: Parts,
    base: Parts,
    outer: Draft,
    expr: barb::ExprId,
    body: barb::ExprId,
    locals: Seq<Option<ValueId>>,
    counts: Option<(Class, ValueId)>,
    types: Seq<barb::TypeId>,
    id: barb::TypeId,
    pure: bool,
    trees: Seq<Tree>,
    fuel: nat,
    most: nat,
    held: Held,
) -> (enough: (nat, nat))
    requires
        is_first(frame.store, most),
        fuel <= most,
        is_set(frame, base),
        is_whole(frame, whole, base),
        holds(outer.program, base),
        is_even(outer.program),
        lower::all_bound(outer.program, locals),
        arm_is_ready(frame, whole, outer, locals, counts, types, trees, held),
        body.0 < frame.store.exprs.len(),
        frame.store.has_type(body, types, id, pure),
        frame.arm_lowered(outer, expr, body, locals, counts) matches Ok(after) && holds(
            whole,
            after.program,
        ),
        frame.store.meaning(body, trees, fuel) is Some,
    ensures
        ({
            let after = frame.arm_lowered(outer, expr, body, locals, counts)->Ok_0;
            &&& after.program.regions.len() > 0
            &&& after.program.regions.len() <= u32::MAX
            &&& region_comes_to(
                whole,
                RegionId((after.program.regions.len() - 1) as u32),
                held,
                enough.0,
                enough.1,
                arm_left(frame, id, frame.store.meaning(body, trees, fuel)->Some_0),
            )
        }),
    decreases fuel, 2nat,
{
    let inner = outer.inside(seq![]);
    assert(inner.program.extends(outer.program));
    an_extension_holds(inner.program, outer.program);
    holding_chains(inner.program, outer.program, base);
    more_is_bound(outer.program, inner.program, locals, None);
    counting_goes_on(inner, locals, counts);
    let (mid, more) = lower::counted_down(inner, locals, counts)->Ok_0;
    an_extension_holds(mid.program, inner.program);
    holding_chains(mid.program, inner.program, base);
    fits_a_base(frame, base, mid.program);
    lowering_goes_on(frame, mid, body, more);
    let (end, answer) = frame.expr_lowered(mid, body, more)->Ok_0;
    let values = lower::leaving(answer);
    let ended = end.hold(values);
    let terminator = end.leaving(Exit::Yield, values.len());
    let newest = ended.as_newest(terminator);
    assert(ended.program.extends(end.program));
    assert(newest.extends(ended.program));
    an_extension_holds(ended.program, end.program);
    an_extension_holds(newest, ended.program);
    an_extension_holds(end.program, mid.program);
    holding_chains(whole, newest, ended.program);
    holding_chains(whole, ended.program, end.program);
    holding_chains(whole, end.program, mid.program);
    holding_chains(end.program, mid.program, base);
    holding_chains(ended.program, end.program, base);
    let reached = counting_down_is_reached(
        frame,
        whole,
        inner,
        locals,
        counts,
        types,
        trees,
        held,
    );
    let last = an_expr_computes(
        frame,
        whole,
        base,
        mid,
        body,
        more,
        types,
        id,
        pure,
        trees,
        fuel,
        most,
        held,
        reached,
    );
    the_newest_region(whole, base, ended, terminator);
    assert(terminator.values.within(ended.program.operands.len()));
    a_run_reads_the_same(whole, ended.program, terminator.values);
    assert(ended.program.values(terminator.values) =~= values);
    let outcome = frame.store.meaning(body, trees, fuel)->Some_0;
    let region = RegionId(ended.program.regions.len() as u32);
    a_region_leaves(
        frame,
        whole,
        region,
        end,
        terminator,
        answer,
        id,
        outcome,
        held,
        last,
        reached.2,
        mid.program.classes.len(),
        arm_left(frame, id, outcome),
    );
    (last.0, last.1)
}

/// Where a match's arms stand, one built after the other.
proof fn a_branch_is_laid_out(
    frame: FrameForm,
    whole: Parts,
    base: Parts,
    draft: Draft,
    expr: barb::ExprId,
    scrutinee: ValueId,
    arms: Seq<barb::Arm>,
    owner: barb::TypeId,
    locals: Seq<Option<ValueId>>,
)
    requires
        is_set(frame, base),
        holds(draft.program, base),
        draft.ops.len() == draft.results.len(),
        is_even(draft.program),
        lower::all_bound(draft.program, locals),
        draft.program.known(scrutinee),
        expr.0 < frame.store.exprs.len(),
        frame.store.ctor(arms[0].ctor).owner == owner,
        frame.classes[owner.0 as int] == Some(Class::Word),
        frame.branch_lowered(draft, expr, scrutinee, arms, locals) matches Ok((end, _)) && holds(
            whole,
            end.program,
        ),
    ensures
        ({
            let nil = frame.store.shape(owner)->nil;
            let empty = facts::arm_for(arms, nil, 0);
            let counted = lower::other_arm(arms, nil, 0);
            let counts = Some((Class::Word, scrutinee));
            let results = lower::listed(frame.answers(arms[empty].body, lower::carrying(locals)));
            let (end, value) = frame.branch_lowered(draft, expr, scrutinee, arms, locals)->Ok_0;
            &&& lower::asked(draft, Class::Word, scrutinee) matches Ok((first, condition)) && {
                &&& holds(whole, first.program)
                &&& holds(first.program, base)
                &&& is_even(first.program)
                &&& lower::all_bound(first.program, locals)
                &&& first.program.known(scrutinee)
                &&& draft.program.classes.len() <= first.program.classes.len()
                &&& frame.arm_lowered(first, expr, arms[empty].body, locals, None) matches
                    Ok(between) && {
                    &&& holds(whole, between.program)
                    &&& holds(between.program, base)
                    &&& is_even(between.program)
                    &&& lower::all_bound(between.program, locals)
                    &&& between.program.known(scrutinee)
                    &&& first.program.classes.len() <= between.program.classes.len()
                    &&& frame.arm_lowered(
                        between,
                        expr,
                        arms[counted].body,
                        locals,
                        counts,
                    ) matches Ok(after) && {
                        let op = Op::If {
                            condition,
                            then_region: RegionId((between.program.regions.len() - 1) as u32),
                            else_region: RegionId((after.program.regions.len() - 1) as u32),
                        };
                        &&& holds(whole, after.program)
                        &&& after.ops == first.ops
                        &&& after.results == first.results
                        &&& between.program.classes.len() <= after.program.classes.len()
                        &&& lower::pushed(after, op, results) == Ok::<_, Seq<char>>(end)
                        &&& value == if results.len() > 0 {
                            Some(lower::next(after))
                        } else {
                            None
                        }
                    }
                }
            }
        }),
{
    let nil = frame.store.shape(owner)->nil;
    let empty = facts::arm_for(arms, nil, 0);
    let counted = lower::other_arm(arms, nil, 0);
    let counts = Some((Class::Word, scrutinee));
    let (first, condition) = lower::asked(draft, Class::Word, scrutinee)->Ok_0;
    let between = frame.arm_lowered(first, expr, arms[empty].body, locals, None)->Ok_0;
    let after = frame.arm_lowered(between, expr, arms[counted].body, locals, counts)->Ok_0;
    let (end, value) = frame.branch_lowered(draft, expr, scrutinee, arms, locals)->Ok_0;
    let results = lower::listed(frame.answers(arms[empty].body, lower::carrying(locals)));
    let op = Op::If {
        condition,
        then_region: RegionId((between.program.regions.len() - 1) as u32),
        else_region: RegionId((after.program.regions.len() - 1) as u32),
    };
    fits_a_base(frame, base, draft.program);
    asking_goes_on(draft, Class::Word, scrutinee);
    more_is_bound(draft.program, first.program, locals, None);
    an_extension_holds(first.program, draft.program);
    holding_chains(first.program, draft.program, base);
    fits_a_base(frame, base, first.program);
    an_arm_goes_on(frame, first, expr, arms[empty].body, locals, None);
    more_is_bound(first.program, between.program, locals, None);
    an_extension_holds(between.program, first.program);
    holding_chains(between.program, first.program, base);
    fits_a_base(frame, base, between.program);
    an_arm_goes_on(frame, between, expr, arms[counted].body, locals, counts);
    an_extension_holds(after.program, between.program);
    a_push_goes_on(after, op, results);
    an_extension_holds(end.program, after.program);
    holding_chains(whole, end.program, after.program);
    holding_chains(whole, after.program, between.program);
    holding_chains(whole, between.program, first.program);
}

/// A match is what it is lowered to.
#[verifier::rlimit(40)]
#[verifier::spinoff_prover]
proof fn a_match_computes(
    frame: FrameForm,
    whole: Parts,
    base: Parts,
    draft: Draft,
    expr: barb::ExprId,
    locals: Seq<Option<ValueId>>,
    types: Seq<barb::TypeId>,
    id: barb::TypeId,
    pure: bool,
    trees: Seq<Tree>,
    fuel: nat,
    most: nat,
    start: Held,
    reached: (nat, nat, Held),
) -> (after_reached: (nat, nat, Held))
    requires
        is_first(frame.store, most),
        fuel <= most,
        ready(frame, whole, base, draft, locals, types, trees, start, reached),
        expr.0 < frame.store.exprs.len(),
        frame.store.expr(expr) is Match,
        frame.store.has_type(expr, types, id, pure),
        frame.expr_lowered(draft, expr, locals) matches Ok((after, _)) && holds(
            whole,
            after.program,
        ),
        frame.store.meaning(expr, trees, fuel) is Some,
        fuel > 0,
    ensures
        ({
            let (after, value) = frame.expr_lowered(draft, expr, locals)->Ok_0;
            computes(
                frame,
                whole,
                after,
                value,
                id,
                frame.store.meaning(expr, trees, fuel)->Some_0,
                start,
                after_reached,
                reached.2,
                draft.program.classes.len(),
            )
        }),
    decreases fuel, 0nat,
{
    let store = frame.store;
    let less = (fuel - 1) as nat;
    let at = store.expr(expr)->Match_0.0.0 as int;
    let range = store.expr(expr)->Match_1;
    let arms = range.read(store.arms);
    let owner = types[at];
    let tree = trees[at];
    let nil = store.shape(owner)->nil;
    let scrutinee = locals[at]->Some_0;
    let (wide, long, held) = reached;
    assert(store.expr_fits(expr.0 as int, store.exprs[expr.0 as int]));
    assert(stands_for(frame, whole, held, locals[at], types[at], trees[at]));
    a_type_is_a_number_or_nothing(frame, owner);
    a_number_has_two_arms(store, arms, owner, tree);
    a_value_is_its_count(store, owner, tree);
    constant::a_spine_has_two_ends(store, owner);
    let empty = facts::arm_for(arms, nil, 0);
    let counted = lower::other_arm(arms, nil, 0);
    let found = facts::arm_for(arms, tree.ctor, 0);
    assert(arms[empty] == store.arms[range.start + empty]);
    assert(arms[counted] == store.arms[range.start + counted]);
    let counts = Some((Class::Word, scrutinee));
    let (first, condition) = lower::asked(draft, Class::Word, scrutinee)->Ok_0;
    let between = frame.arm_lowered(first, expr, arms[empty].body, locals, None)->Ok_0;
    let after = frame.arm_lowered(between, expr, arms[counted].body, locals, counts)->Ok_0;
    let (end, value) = frame.expr_lowered(draft, expr, locals)->Ok_0;
    let results = lower::listed(frame.answers(arms[empty].body, lower::carrying(locals)));
    let op = Op::If {
        condition,
        then_region: RegionId((between.program.regions.len() - 1) as u32),
        else_region: RegionId((after.program.regions.len() - 1) as u32),
    };
    assert(frame.branch_lowered(draft, expr, scrutinee, arms, locals) == Ok::<_, Seq<char>>(
        (end, value),
    ));
    a_branch_is_laid_out(frame, whole, base, draft, expr, scrutinee, arms, owner, locals);
    // What is asked, and which arm that leads to.
    let asked = asking_is_reached(whole, draft, scrutinee, start, wide, long, held);
    let mark = draft.program.classes.len();
    standing_is_kept(frame, whole, draft.program, held, asked, locals, types, trees);
    assert(asked[scrutinee] == held[scrutinee]);
    let taken = store.fields(arms[found].ctor);
    assert(store.has_type(arms[found].body, types + taken, id, pure));
    let outcome = store.meaning(expr, trees, fuel)->Some_0;
    let (region, enough) = if tree.ctor == nil {
        assert(types + taken =~= types);
        assert(trees + tree.fields =~= trees);
        (
            op->then_region,
            an_arm_computes(
                frame,
                whole,
                base,
                first,
                expr,
                arms[empty].body,
                locals,
                None,
                types,
                id,
                pure,
                trees,
                less,
                most,
                asked,
            ),
        )
    } else {
        let lower_types = types.push(owner);
        let lower_trees = trees.push(tree.fields[0]);
        assert(taken =~= seq![owner]);
        assert(types + taken =~= lower_types);
        assert(trees + tree.fields =~= lower_trees);
        assert(lower_types.drop_last() =~= types);
        assert(lower_trees.drop_last() =~= trees);
        assert(between.program.known(scrutinee));
        (
            op->else_region,
            an_arm_computes(
                frame,
                whole,
                base,
                between,
                expr,
                arms[counted].body,
                locals,
                counts,
                lower_types,
                id,
                pure,
                lower_trees,
                less,
                most,
                asked,
            ),
        )
    };
    assert(store.has_type(
        arms[empty].body,
        types + store.fields(arms[empty].ctor),
        id,
        pure,
    ));
    assert(types + store.fields(arms[empty].ctor) =~= types);
    a_term_answers_its_class(frame, arms[empty].body, types, id, pure);
    assert forall|i: int| 0 <= i < types.len() implies locals[i] is Some == (
    #[trigger] frame.carrying(types)[i]) by {
        assert(stands_for(frame, whole, held, locals[i], types[i], trees[i]));
    }
    assert(lower::carrying(locals) =~= frame.carrying(types));
    meaning::a_type_there_is(store, expr, types, id, pure);
    a_type_is_a_number_or_nothing(frame, id);
    an_if_is_reached(
        frame,
        whole,
        after,
        op,
        region,
        id,
        outcome,
        start,
        (larger(wide, 1), long, asked),
        enough,
        held,
        mark,
    )
}

/// An `if`, once the region it takes is known.
proof fn an_if_is_reached(
    frame: FrameForm,
    whole: Parts,
    draft: Draft,
    op: Op,
    region: RegionId,
    id: barb::TypeId,
    outcome: Outcome,
    start: Held,
    reached: (nat, nat, Held),
    enough: (nat, nat),
    before: Held,
    mark: nat,
) -> (after_reached: (nat, nat, Held))
    requires
        op matches Op::If { condition, then_region, else_region } && {
            &&& reached.2.dom().contains(condition)
            &&& region == if reached.2[condition] != 0 {
                then_region
            } else {
                else_region
            }
        },
        frame.classes[id.0 as int] matches Some(class) ==> class == Class::Word,
        lower::pushed(draft, op, lower::listed(frame.classes[id.0 as int])) matches Ok(after)
            && holds(whole, after.program),
        draft_reaches(whole, draft, start, reached.0, reached.1, reached.2),
        kept(before, reached.2, mark),
        mark <= draft.program.classes.len(),
        region_comes_to(
            whole,
            region,
            reached.2,
            enough.0,
            enough.1,
            arm_left(frame, id, outcome),
        ),
    ensures
        ({
            let classes = lower::listed(frame.classes[id.0 as int]);
            let after = lower::pushed(draft, op, classes)->Ok_0;
            let value = if classes.len() > 0 {
                Some(lower::next(draft))
            } else {
                None
            };
            computes(
                frame,
                whole,
                after,
                value,
                id,
                outcome,
                start,
                after_reached,
                before,
                mark,
            )
        }),
{
    let (wide, long, held) = reached;
    let condition = op->condition;
    let classes = lower::listed(frame.classes[id.0 as int]);
    let after = lower::pushed(draft, op, classes)->Ok_0;
    let range = Range::from(draft.program.operands.len(), classes.len());
    let left = arm_left(frame, id, outcome);
    assert(range.within(after.program.operands.len()));
    a_run_reads_the_same(whole, after.program, range);
    assert(after.program.values(range) =~= draft.program.fresh(classes.len()));
    let results = whole.values(range);
    let one = seq![condition];
    assert(machine::read(held, one) is Some) by {
        assert(one[0] == condition);
    }
    match outcome {
        Outcome::Answers(tree) => {
            let numbers = words(frame, id, tree);
            let next = machine::defined(held, results, numbers);
            answers_are_defined(held, results, numbers, draft.program.classes.len());
            if classes.len() > 0 {
                let at = draft.program.classes.len() as int;
                assert(results[0] == lower::next(draft));
                assert(after.program.classes[at] == whole.classes[at]);
            }
            assert forall|host: Host, fuel: nat|
                host.waits() && host.size >= enough.0 && fuel >= enough.1 + 1 implies #[trigger] whole.op_runs(
                    host,
                    op,
                    results,
                    held,
                    fuel,
                ) == Some(Step::Goes(next)) by {
                assert(whole.region_runs(host, region, held, (fuel - 1) as nat) == Some(left));
            }
            one_more_goes(
                whole,
                draft.ops,
                draft.results,
                start,
                wide,
                long,
                held,
                op,
                range,
                enough.0,
                enough.1 + 1,
                next,
            );
            keeping_chains(before, held, next, mark, draft.program.classes.len());
            (larger(wide, enough.0), larger(long, enough.1 + 1), next)
        },
        Outcome::Asks(f, args) => {
            assert forall|host: Host, fuel: nat|
                host.waits() && host.size >= enough.0 && fuel >= enough.1 + 1 implies #[trigger] whole.op_runs(
                    host,
                    op,
                    results,
                    held,
                    fuel,
                ) == Some(Step::Leaves(left)) by {
                assert(whole.region_runs(host, region, held, (fuel - 1) as nat) == Some(left));
            }
            one_more_leaves(
                whole,
                draft.ops,
                draft.results,
                start,
                wide,
                long,
                held,
                op,
                range,
                enough.0,
                enough.1 + 1,
                left,
            );
            (larger(wide, enough.0), larger(long, enough.1 + 1), held)
        },
    }
}

/// What a function's parameters stand for where it is called.
proof fn parameters_stand(
    frame: FrameForm,
    whole: Parts,
    name: Seq<char>,
    types: Seq<barb::TypeId>,
    trees: Seq<Tree>,
    values: Seq<ValueId>,
    numbers: Seq<nat>,
    held: Held,
    count: nat,
)
    requires
        meaning::are_of(frame.store, trees, types),
        forall|i: int|
            0 <= i < types.len() ==> (#[trigger] types[i]).0 < frame.store.types.len(),
        count <= types.len(),
        numbers == all_words(frame, types, trees, types.len()),
        values.len() == numbers.len(),
        forall|i: int|
            0 <= i < values.len() ==> {
                &&& held.dom().contains(#[trigger] values[i])
                &&& held[values[i]] == numbers[i]
                &&& values[i].0 < whole.classes.len()
                &&& whole.class(values[i]) == Class::Word
            },
        frame.params_bound(name, types, values, count) is Ok,
    ensures
        all_stand(
            frame,
            whole,
            held,
            frame.params_bound(name, types, values, count)->Ok_0,
            types.take(count as int),
            trees.take(count as int),
        ),
    decreases count,
{
    let locals = frame.params_bound(name, types, values, count)->Ok_0;
    if count > 0 {
        let fewer = (count - 1) as nat;
        parameters_stand(
            frame,
            whole,
            name,
            types,
            trees,
            values,
            numbers,
            held,
            fewer,
        );
        let rest = frame.params_bound(name, types, values, fewer)->Ok_0;
        let id = types[fewer as int];
        let tree = trees[fewer as int];
        let taken = lower::classes_of(frame.classes, types, fewer).len();
        words_are_classed(frame, types, trees, fewer);
        words_come_in_order(frame, types, trees, count, types.len());
        assert(all_words(frame, types, trees, count) == all_words(frame, types, trees, fewer)
            + words(frame, id, tree));
        if frame.classes[id.0 as int] is Some {
            assert(all_words(frame, types, trees, count)[taken as int] == numbers[taken as int]);
            assert(stands_for(frame, whole, held, locals[fewer as int], id, tree));
        }
        one_more_stands(
            frame,
            whole,
            held,
            rest,
            types.take(fewer as int),
            trees.take(fewer as int),
            locals[fewer as int],
            id,
            tree,
        );
        assert(types.take(fewer as int).push(id) =~= types.take(count as int));
        assert(trees.take(fewer as int).push(tree) =~= trees.take(count as int));
        assert(rest.push(locals[fewer as int]) =~= locals);
    }
}

proof fn words_are_classed(
    frame: FrameForm,
    types: Seq<barb::TypeId>,
    trees: Seq<Tree>,
    count: nat,
)
    ensures
        all_words(frame, types, trees, count).len() == lower::classes_of(
            frame.classes,
            types,
            count,
        ).len(),
    decreases count,
{
    if count > 0 {
        words_are_classed(frame, types, trees, (count - 1) as nat);
    }
}

proof fn words_come_in_order(
    frame: FrameForm,
    types: Seq<barb::TypeId>,
    trees: Seq<Tree>,
    count: nat,
    all: nat,
)
    requires
        count <= all,
    ensures
        all_words(frame, types, trees, count).is_prefix_of(all_words(frame, types, trees, all)),
    decreases all,
{
    if count < all {
        words_come_in_order(frame, types, trees, count, (all - 1) as nat);
    }
}

/// Values that are each their own hold what they are defined as.
proof fn what_is_defined_is_held(held: Held, values: Seq<ValueId>, numbers: Seq<nat>)
    requires
        values.no_duplicates(),
        values.len() <= numbers.len(),
    ensures
        forall|i: int|
            0 <= i < values.len() ==> machine::defined(held, values, numbers).dom().contains(
                #[trigger] values[i],
            ) && machine::defined(held, values, numbers)[values[i]] == numbers[i],
    decreases values.len(),
{
    if values.len() > 0 {
        let rest = values.drop_last();
        what_is_defined_is_held(held, rest, numbers);
        let all = machine::defined(held, values, numbers);
        assert forall|i: int| 0 <= i < values.len() implies all.dom().contains(
            #[trigger] values[i],
        ) && all[values[i]] == numbers[i] by {
            if i < rest.len() {
                assert(rest[i] == values[i]);
                assert(values[i] != values.last());
            }
        }
    }
}

/// A body, put where its function runs it, holds what it was built on.
pub(super) proof fn a_body_is_held(base: Parts, ended: Draft, into: FunctionId, terminator: Terminator)
    requires
        holds(ended.program, base),
        into.0 < base.functions.len() <= base.regions.len(),
        forall|i: int|
            0 <= i < base.functions.len() ==> (#[trigger] base.functions[i]).body.0 == i,
    ensures
        holds(ended.as_body(into, terminator), ended.program),
        ended.as_body(into, terminator).region(base.function(into).body) == ended.region(
            terminator,
        ),
{
    let after = ended.as_body(into, terminator);
    let body = base.function(into).body;
    assert(base.functions[into.0 as int].body.0 == into.0);
    assert forall|r: RegionId|
        r.0 < ended.program.regions.len() && !ended.program.is_body(
            r,
        ) implies #[trigger] after.region(r) == ended.program.region(r) by {
        assert(ended.program.functions[into.0 as int].body == body);
        assert(ended.program.is_body(body));
        assert(r != body);
        assert(r.0 != body.0);
    }
}

/// What a function leaves with, once its body has run.
proof fn a_function_leaves(
    frame: FrameForm,
    whole: Parts,
    draft: Draft,
    answer: Option<ValueId>,
    f: barb::FnId,
    region: RegionId,
    outcome: Outcome,
    start: Held,
    reached: (nat, nat, Held),
    before: Held,
    mark: nat,
) -> (enough: (nat, nat))
    requires
        draft.ops.len() == draft.results.len(),
        frame.answered(draft, answer, frame.store.entry == Some(f)) matches Ok((said, values)) && {
            let ended = said.hold(values);
            let terminator = said.leaving(Exit::Return, values.len());
            &&& holds(whole, ended.program)
            &&& said.program.room(values.len())
            &&& ended.program.room(ended.ops.len() + 1)
            &&& is_even(ended.program)
            &&& whole.region(region) == ended.region(terminator)
            &&& ended.settled().ops.is_prefix_of(whole.ops)
            &&& ended.settled().results.is_prefix_of(whole.results)
        },
        computes(
            frame,
            whole,
            draft,
            answer,
            frame.store.function(f).result,
            outcome,
            start,
            reached,
            before,
            mark,
        ),
    ensures
        region_comes_to(
            whole,
            region,
            start,
            enough.0,
            enough.1,
            function_left(frame, f, outcome),
        ),
{
    let entry = frame.store.entry == Some(f);
    let result = frame.store.function(f).result;
    let (said, values) = frame.answered(draft, answer, entry)->Ok_0;
    let ended = said.hold(values);
    let terminator = said.leaving(Exit::Return, values.len());
    let left = function_left(frame, f, outcome);
    let (wide, long, held) = reached;
    an_extension_holds(ended.program, said.program);
    holding_chains(whole, ended.program, said.program);
    if answer is None && entry {
        a_push_goes_on(
            draft,
            Op::Constant { class: Class::Word, value: super::model::wrapped(Class::Word, 0) },
            seq![Class::Word],
        );
    }
    a_settled_region_reads_back(whole, ended, terminator, region);
    assert(terminator.values.within(ended.program.operands.len()));
    a_run_reads_the_same(whole, ended.program, terminator.values);
    assert(ended.program.values(terminator.values) =~= values);
    if answer is None && entry {
        match outcome {
            Outcome::Answers(tree) => {
                a_constant_is_reached(whole, draft, 0, start, wide, long, held);
                let made = lower::constant_pushed(draft, Class::Word, 0)->Ok_0.1;
                let next = held.insert(made, 0);
                assert(values =~= seq![made]);
                assert(machine::read(next, values)->Some_0 =~= seq![0nat]);
                assert forall|host: Host, fuel: nat|
                    host.waits() && host.size >= larger(wide, 1) && fuel >= long implies #[trigger] whole.region_runs(
                        host,
                        region,
                        start,
                        fuel,
                    ) == Some(left) by {
                    assert(whole.ops_run(host, said.ops, said.results, start, fuel) == Some(
                        Step::Goes(next),
                    ));
                }
                (larger(wide, 1), long)
            },
            Outcome::Asks(g, args) => {
                a_departure_is_final(
                    whole,
                    draft,
                    said,
                    start,
                    wide,
                    long,
                    left,
                    said.ops.len() as int,
                );
                assert(said.ops.take(said.ops.len() as int) =~= said.ops);
                assert(said.results.take(said.ops.len() as int) =~= said.results);
                assert forall|host: Host, fuel: nat|
                    host.waits() && host.size >= wide && fuel >= long implies #[trigger] whole.region_runs(
                        host,
                        region,
                        start,
                        fuel,
                    ) == Some(left) by {
                    assert(whole.ops_run(host, said.ops, said.results, start, fuel) == Some(
                        Step::Leaves(left),
                    ));
                }
                (wide, long)
            },
        }
    } else {
        a_region_leaves(
            frame,
            whole,
            region,
            draft,
            terminator,
            answer,
            result,
            outcome,
            start,
            reached,
            before,
            mark,
            left,
        );
        (wide, long)
    }
}

/// A function is what it is lowered to.
proof fn a_function_computes(
    frame: FrameForm,
    whole: Parts,
    base: Parts,
    f: barb::FnId,
    args: Seq<Tree>,
    fuel: nat,
    most: nat,
) -> (enough: (nat, nat))
    requires
        is_first(frame.store, most),
        fuel <= most,
        is_set(frame, base),
        is_whole(frame, whole, base),
        f.0 < frame.store.functions.len(),
        frame.places[f.0 as int] is Function,
        meaning::are_of(frame.store, args, frame.store.params(f)),
        frame.store.meaning(frame.store.function(f).body, args, fuel) is Some,
    ensures
        function_comes_to(
            whole,
            frame.places[f.0 as int]->Function_0,
            all_words(frame, frame.store.params(f), args, frame.store.params(f).len()),
            enough.0,
            enough.1,
            function_left(
                frame,
                f,
                frame.store.meaning(frame.store.function(f).body, args, fuel)->Some_0,
            ),
        ),
    decreases fuel, 2nat,
{
    let store = frame.store;
    let into = frame.places[f.0 as int]->Function_0;
    let function = store.function(f);
    let types = store.params(f);
    let name = store.name(function.name);
    let outcome = store.meaning(function.body, args, fuel)->Some_0;
    assert(is_placed(frame, base, f));
    assert(store.function_fits(f.0 as int));
    assert(store.is_kept(f));
    assert forall|i: int| 0 <= i < types.len() implies (#[trigger] types[i]).0
        < store.types.len() by {
        assert(types[i] == store.types_pool[function.params.start + i]);
    }
    let parts = choose|parts: Parts| #[trigger]
        lowered_from(frame, whole, base, f, into, parts);
    assert(lowered_from(frame, whole, base, f, into, parts));
    let params = parts.function(into).params;
    assert(params == base.function(into).params);
    a_run_reads_the_same(parts, base, params);
    let values = parts.values(params);
    let locals = frame.params_bound(name, types, values, types.len())->Ok_0;
    let opened = Draft::opened(parts, params);
    let (draft, answer) = frame.expr_lowered(opened, function.body, locals)->Ok_0;
    let entry = store.entry == Some(f);
    let (said, leaves) = frame.answered(draft, answer, entry)->Ok_0;
    let ended = said.hold(leaves);
    let terminator = said.leaving(Exit::Return, leaves.len());
    let after = ended.as_body(into, terminator);
    let region = base.function(into).body;
    // Where everything stands.
    parameters_are_bound(frame, parts, base, name, types, values, types.len());
    fits_a_base(frame, base, parts);
    lowering_goes_on(frame, opened, function.body, locals);
    an_extension_holds(draft.program, parts);
    holding_chains(draft.program, parts, base);
    if answer is None && entry {
        a_push_goes_on(
            draft,
            Op::Constant { class: Class::Word, value: super::model::wrapped(Class::Word, 0) },
            seq![Class::Word],
        );
    }
    an_extension_holds(said.program, draft.program);
    assert(ended.program.extends(said.program));
    an_extension_holds(ended.program, said.program);
    holding_chains(said.program, draft.program, base);
    holding_chains(ended.program, said.program, base);
    a_body_is_held(base, ended, into, terminator);
    holding_chains(whole, after, ended.program);
    holding_chains(whole, ended.program, said.program);
    holding_chains(whole, said.program, draft.program);
    // What the parameters hold, and what the body makes of it.
    let numbers = all_words(frame, types, args, types.len());
    words_are_classed(frame, types, args, types.len());
    let start = machine::defined(Map::empty(), values, numbers);
    what_is_defined_is_held(Map::empty(), values, numbers);
    holding_chains(whole, draft.program, parts);
    a_run_reads_the_same(whole, parts, params);
    assert forall|i: int| 0 <= i < values.len() implies {
        &&& start.dom().contains(#[trigger] values[i])
        &&& start[values[i]] == numbers[i]
        &&& values[i].0 < whole.classes.len()
        &&& whole.class(values[i]) == Class::Word
    } by {
        let v = values[i].0 as int;
        assert(base.class(values[i]) == Class::Word);
        assert(base.classes[v] == parts.classes[v]);
        assert(parts.classes[v] == whole.classes[v]);
    }
    parameters_stand(
        frame,
        whole,
        name,
        types,
        args,
        values,
        numbers,
        start,
        types.len(),
    );
    assert(types.take(types.len() as int) =~= types);
    assert(args.take(types.len() as int) =~= args);
    assert(draft_reaches(whole, opened, start, 0, 0, start)) by {
        assert forall|host: Host, fuel: nat| #[trigger]
            whole.ops_run(host, opened.ops, opened.results, start, fuel) == Some(
                Step::Goes(start),
            ) by {}
    }
    let reached = an_expr_computes(
        frame,
        whole,
        base,
        opened,
        function.body,
        locals,
        types,
        function.result,
        !store.works(f),
        args,
        fuel,
        most,
        start,
        (0, 0, start),
    );
    let enough = a_function_leaves(
        frame,
        whole,
        draft,
        answer,
        f,
        region,
        outcome,
        start,
        reached,
        start,
        parts.classes.len(),
    );
    let left = function_left(frame, f, outcome);
    assert forall|host: Host, fuel: nat|
        host.waits() && host.size >= enough.0 && fuel >= enough.1 implies #[trigger] whole.function_runs(
            host,
            into,
            numbers,
            fuel,
        ) == Some(left) by {
        assert(whole.function(into) == base.function(into));
        assert(whole.region_runs(host, region, start, fuel) == Some(left));
    }
    enough
}

pub(super) proof fn parameters_are_bound(
    frame: FrameForm,
    parts: Parts,
    base: Parts,
    name: Seq<char>,
    types: Seq<barb::TypeId>,
    values: Seq<ValueId>,
    count: nat,
)
    requires
        holds(parts, base),
        forall|i: int| 0 <= i < values.len() ==> (#[trigger] values[i]).0 < base.classes.len(),
        frame.params_bound(name, types, values, count) is Ok,
    ensures
        lower::all_bound(parts, frame.params_bound(name, types, values, count)->Ok_0),
    decreases count,
{
    if count > 0 {
        let fewer = (count - 1) as nat;
        parameters_are_bound(frame, parts, base, name, types, values, fewer);
        let rest = frame.params_bound(name, types, values, fewer)->Ok_0;
        let locals = frame.params_bound(name, types, values, count)->Ok_0;
        assert forall|i: int| 0 <= i < locals.len() implies ((#[trigger] locals[i]) matches Some(v)
            ==> parts.known(v)) by {
            if i < rest.len() {
                assert(locals[i] == rest[i]);
            }
        }
    }
}

/// Whether a program is another with more declared in it.
spec fn declares_more(after: Parts, before: Parts) -> bool {
    &&& before.functions.is_prefix_of(after.functions)
    &&& before.platform.is_prefix_of(after.platform)
    &&& before.signature.is_prefix_of(after.signature)
    &&& before.operands.is_prefix_of(after.operands)
    &&& before.classes.is_prefix_of(after.classes)
    &&& before.names.len() <= after.names.len()
    &&& forall|s: int|
        0 <= s < before.names.len() ==> #[trigger] after.names.bytes(s) == before.names.bytes(s)
}

/// Whether a program has nothing but declarations, each function with a body
/// of its own to come.
spec fn only_declares(parts: Parts) -> bool {
    &&& parts.names.fits()
    &&& parts.ops.len() == 0
    &&& parts.results.len() == 0
    &&& parts.functions.len() > 0
    &&& parts.functions.len() == parts.regions.len()
    &&& forall|i: int|
        0 <= i < parts.functions.len() ==> (#[trigger] parts.functions[i]).body.0 == i
    &&& signed(parts)
}

/// What a function became goes on being what it became.
proof fn a_place_is_kept(
    frame: FrameForm,
    before: Parts,
    after: Parts,
    f: barb::FnId,
    place: Place,
)
    requires
        declares_more(after, before),
        is_place_of(frame, before, f, place),
    ensures
        is_place_of(frame, after, f, place),
{
    match place {
        Place::Function(into) => {
            let function = before.function(into);
            assert(after.functions[into.0 as int] == before.functions[into.0 as int]);
            assert(after.values(function.params) =~= before.values(function.params));
            assert(function.answers.read(after.signature) =~= function.answers.read(
                before.signature,
            ));
            let values = before.values(function.params);
            assert forall|i: int| 0 <= i < values.len() implies (#[trigger] values[i]).0
                < after.classes.len() && after.class(values[i]) == Class::Word by {
                let v = values[i].0 as int;
                assert(before.class(values[i]) == Class::Word);
                assert(before.classes[v] == after.classes[v]);
            }
        },
        Place::Instruction => {},
        Place::Routine(platform) => {
            let symbol = before.routine(platform).name.0 as int;
            assert(after.platform[platform.0 as int] == before.platform[platform.0 as int]);
            assert(after.names.bytes(symbol) == before.names.bytes(symbol));
        },
    }
}

/// Classes that types take are words.
proof fn classes_are_words(frame: FrameForm, types: Seq<barb::TypeId>, count: nat)
    requires
        is_classed(frame),
        count <= types.len(),
        forall|i: int|
            0 <= i < types.len() ==> (#[trigger] types[i]).0 < frame.store.types.len(),
    ensures
        forall|i: int|
            0 <= i < lower::classes_of(frame.classes, types, count).len() ==> (
            #[trigger] lower::classes_of(frame.classes, types, count)[i]) == Class::Word,
    decreases count,
{
    if count > 0 {
        let fewer = (count - 1) as nat;
        classes_are_words(frame, types, fewer);
        a_type_is_a_number_or_nothing(frame, types[fewer as int]);
        let rest = lower::classes_of(frame.classes, types, fewer);
        let all = lower::classes_of(frame.classes, types, count);
        assert forall|i: int| 0 <= i < all.len() implies (#[trigger] all[i]) == Class::Word by {
            if i < rest.len() {
                assert(all[i] == rest[i]);
            }
        }
    }
}

/// Declaring a function declares it, after all there is.
proof fn a_declared_function_is_placed(
    frame: FrameForm,
    before: Parts,
    f: barb::FnId,
    name: Seq<char>,
)
    requires
        is_classed(frame),
        only_declares(before),
        f.0 < frame.store.functions.len(),
        frame.store.function(f).defined,
        facts::known_of(frame.facts, f) is None,
        frame.store.entry != Some(f),
        ({
            let types = frame.store.params(f);
            let params = lower::classes_of(frame.classes, types, types.len());
            let answers = lower::listed(frame.classes[frame.store.function(f).result.0 as int]);
            before.room(lower::declaring(name, params.len(), answers.len()))
        }),
    ensures
        ({
            let types = frame.store.params(f);
            let params = lower::classes_of(frame.classes, types, types.len());
            let answers = lower::listed(frame.classes[frame.store.function(f).result.0 as int]);
            let after = before.with_function(name, params, answers);
            &&& only_declares(after)
            &&& declares_more(after, before)
            &&& is_place_of(
                frame,
                after,
                f,
                Place::Function(FunctionId(before.functions.len() as u32)),
            )
        }),
{
    let types = frame.store.params(f);
    let params = lower::classes_of(frame.classes, types, types.len());
    let answers = lower::listed(frame.classes[frame.store.function(f).result.0 as int]);
    let after = before.with_function(name, params, answers);
    let into = FunctionId(before.functions.len() as u32);
    assert(frame.store.function_fits(f.0 as int));
    assert forall|i: int| 0 <= i < types.len() implies (#[trigger] types[i]).0
        < frame.store.types.len() by {
        assert(types[i] == frame.store.types_pool[frame.store.function(f).params.start + i]);
    }
    classes_are_words(frame, types, types.len());
    crate::pool::naming_keeps_names(before.names, name);
    assert forall|i: int| 0 <= i < after.functions.len() implies (
    #[trigger] after.functions[i]).body.0 == i && after.functions[i].answers.within(
        after.signature.len(),
    ) by {
        if i < before.functions.len() {
            assert(after.functions[i] == before.functions[i]);
        }
    }
    assert forall|i: int| 0 <= i < after.platform.len() implies (
    #[trigger] after.platform[i]).answers.within(after.signature.len()) by {
        assert(after.platform[i] == before.platform[i]);
    }
    let function = after.function(into);
    let values = after.values(function.params);
    assert(values =~= before.fresh(params.len()));
    assert(function.answers.read(after.signature) =~= answers);
    assert forall|i: int| 0 <= i < values.len() implies (#[trigger] values[i]).0
        < after.classes.len() && after.class(values[i]) == Class::Word by {
        assert(after.classes[values[i].0 as int] == params[i]);
    }
}

/// Declaring a routine declares it, after all there is.
proof fn a_declared_routine_is_placed(
    frame: FrameForm,
    before: Parts,
    f: barb::FnId,
    params: Seq<Class>,
    answers: Seq<Class>,
)
    requires
        only_declares(before),
        !frame.store.function(f).defined,
        ({
            let name = lower::routine_name(frame.store.name(frame.store.function(f).name));
            before.room(lower::declaring(name, params.len(), answers.len()))
        }),
    ensures
        ({
            let name = lower::routine_name(frame.store.name(frame.store.function(f).name));
            let after = before.with_platform(name, params, answers);
            &&& only_declares(after)
            &&& declares_more(after, before)
            &&& is_place_of(
                frame,
                after,
                f,
                Place::Routine(PlatformId(before.platform.len() as u32)),
            )
        }),
{
    let name = lower::routine_name(frame.store.name(frame.store.function(f).name));
    let after = before.with_platform(name, params, answers);
    crate::pool::naming_keeps_names(before.names, name);
    assert forall|i: int| 0 <= i < after.functions.len() implies (
    #[trigger] after.functions[i]).answers.within(after.signature.len()) by {
        assert(after.functions[i] == before.functions[i]);
    }
    assert forall|i: int| 0 <= i < after.platform.len() implies (
    #[trigger] after.platform[i]).answers.within(after.signature.len()) by {
        if i < before.platform.len() {
            assert(after.platform[i] == before.platform[i]);
        }
    }
}

/// Whether functions that became functions became ones of their own.
pub open spec fn are_apart(places: Seq<Place>) -> bool {
    forall|f: int, g: int|
        0 <= f < g < places.len() && (#[trigger] places[f]) is Function && (
        #[trigger] places[g]) is Function ==> places[f]->Function_0 != places[g]->Function_0
}

/// Whether the first functions became what they were declared as.
spec fn placed_so_far(frame: FrameForm, parts: Parts, places: Seq<Place>, count: nat) -> bool {
    &&& only_declares(parts)
    &&& places.len() == count
    &&& lower::places_fit(parts, places)
    &&& are_apart(places)
    &&& is_entry(frame, parts)
    &&& forall|i: int|
        0 <= i < count ==> is_place_of(
            frame,
            parts,
            barb::FnId(i as u32),
            #[trigger] places[i],
        )
}

/// Whether the entry is the first function, as it is declared.
spec fn is_entry(frame: FrameForm, parts: Parts) -> bool {
    frame.store.entry matches Some(entry) && is_place_of(
        frame,
        parts,
        entry,
        Place::Function(FunctionId(0)),
    )
}

/// Whether the entry is a function that can be started: it is defined, and
/// takes nothing but what carries nothing.
pub open spec fn can_start(store: barb::Store) -> bool {
    store.entry matches Some(entry) && {
        &&& store.function(entry).defined
        &&& forall|i: int|
            0 <= i < store.params(entry).len() ==> lower::is_erased(
                store,
                #[trigger] store.params(entry)[i],
            )
    }
}

proof fn nothing_takes_no_words(frame: FrameForm, types: Seq<barb::TypeId>, count: nat)
    requires
        is_classed(frame),
        count <= types.len(),
        forall|i: int|
            0 <= i < types.len() ==> (#[trigger] types[i]).0 < frame.store.types.len()
                && lower::is_erased(frame.store, types[i]),
    ensures
        lower::classes_of(frame.classes, types, count).len() == 0,
    decreases count,
{
    if count > 0 {
        let fewer = (count - 1) as nat;
        nothing_takes_no_words(frame, types, fewer);
        a_class_is_found(frame.store, frame.store.types.len(), types[fewer as int]);
    }
}

/// A number carries something.
proof fn a_number_is_not_nothing(store: barb::Store, id: barb::TypeId)
    requires
        store.wf(),
        id.0 < store.types.len(),
        store.is_number(id),
    ensures
        !lower::is_erased(store, id),
{
    assert(store.type_fits(id.0 as int));
    assert(store.ctors_of(id).len() == store.type_(id).ctors.len);
}

proof fn the_entry_is_placed(frame: FrameForm, name: Seq<char>)
    requires
        is_classed(frame),
        frame.facts == frame.store.facts(),
        can_start(frame.store),
        vstd::utf8::encode_utf8(name).len() + 2 <= u32::MAX,
    ensures
        ({
            let start = Parts::nothing().with_function(name, seq![], seq![Class::Word]);
            only_declares(start) && is_entry(frame, start)
        }),
{
    let store = frame.store;
    let nothing = Parts::nothing();
    let start = nothing.with_function(name, seq![], seq![Class::Word]);
    let entry = store.entry->Some_0;
    let types = store.params(entry);
    assert(nothing.names.fits()) by {
        vstd::utf8::encode_utf8_valid_utf8(seq![]);
        vstd::utf8::decode_utf8_encode_utf8(nothing.names.text);
    }
    crate::pool::naming_keeps_names(nothing.names, name);
    assert(store.function_fits(entry.0 as int));
    assert forall|i: int| 0 <= i < types.len() implies (#[trigger] types[i]).0
        < store.types.len() && lower::is_erased(store, types[i]) by {
        assert(types[i] == store.types_pool[store.function(entry).params.start + i]);
        assert(lower::is_erased(store, store.params(entry)[i]));
    }
    nothing_takes_no_words(frame, types, types.len());
    assert(facts::known_of(frame.facts, entry) is None) by {
        if store.is_addition(entry) {
            assert(types[0] == store.function(entry).result);
            a_number_is_not_nothing(store, types[0]);
        }
        assert(frame.facts[entry.0 as int] == store.operation(barb::FnId(entry.0)));
    }
    let function = start.function(FunctionId(0));
    assert(start.values(function.params).len() == 0);
    assert(function.answers.read(start.signature) =~= seq![Class::Word]);
}

/// Every function is declared as what it becomes.
proof fn declarations_are_placed(
    frame: FrameForm,
    entry: barb::FnId,
    start: Parts,
    count: nat,
)
    requires
        is_classed(frame),
        frame.store.entry == Some(entry),
        only_declares(start),
        is_entry(frame, start),
        count <= frame.store.functions.len(),
        lower::declared(frame.store, frame.facts, frame.classes, entry, start, count) is Ok,
    ensures
        ({
            let (parts, places) = lower::declared(
                frame.store,
                frame.facts,
                frame.classes,
                entry,
                start,
                count,
            )->Ok_0;
            placed_so_far(frame, parts, places, count)
        }),
    decreases count,
{
    let store = frame.store;
    if count > 0 {
        let fewer = (count - 1) as nat;
        declarations_are_placed(frame, entry, start, fewer);
        let (before, some) = lower::declared(
            store,
            frame.facts,
            frame.classes,
            entry,
            start,
            fewer,
        )->Ok_0;
        let (after, places) = lower::declared(
            store,
            frame.facts,
            frame.classes,
            entry,
            start,
            count,
        )->Ok_0;
        let f = barb::FnId(fewer as u32);
        let function = store.function(f);
        let name = store.name(function.name);
        let types = store.params(f);
        let params = lower::classes_of(frame.classes, types, types.len());
        let answers = lower::listed(frame.classes[function.result.0 as int]);
        if f == entry {
        } else if facts::known_of(frame.facts, f) is Some {
        } else if function.defined {
            a_declared_function_is_placed(frame, before, f, name);
        } else {
            a_declared_routine_is_placed(frame, before, f, params, answers);
        }
        assert(declares_more(after, before));
        a_place_is_kept(frame, before, after, entry, Place::Function(FunctionId(0)));
        assert forall|i: int| 0 <= i < count implies is_place_of(
            frame,
            after,
            barb::FnId(i as u32),
            #[trigger] places[i],
        ) by {
            if i < fewer {
                assert(places[i] == some[i]);
                a_place_is_kept(frame, before, after, barb::FnId(i as u32), some[i]);
            }
        }
        assert forall|i: int, j: int|
            0 <= i < j < places.len() && (#[trigger] places[i]) is Function && (
            #[trigger] places[j]) is Function implies places[i]->Function_0
            != places[j]->Function_0 by {
            assert(places[i] == some[i]);
            assert(is_place_of(frame, before, barb::FnId(i as u32), some[i]));
            assert(is_place_of(frame, after, barb::FnId(j as u32), places[j]));
            if j < fewer {
                assert(places[j] == some[j]);
            }
        }
        assert(lower::places_fit(after, places)) by {
            assert forall|i: int| 0 <= i < places.len() implies match #[trigger] places[i] {
                Place::Function(into) => into.0 < after.functions.len(),
                Place::Instruction => true,
                Place::Routine(platform) => platform.0 < after.platform.len(),
            } by {
                assert(is_place_of(frame, after, barb::FnId(i as u32), places[i]));
            }
        }
    }
}

/// Lowering a function adds to what there is, and puts its body in place.
pub(super) proof fn a_lowered_function_is_held(
    frame: FrameForm,
    base: Parts,
    parts: Parts,
    f: barb::FnId,
    into: FunctionId,
)
    requires
        is_set(frame, base),
        holds(parts, base),
        is_even(parts),
        f.0 < frame.store.functions.len(),
        frame.places[f.0 as int] == Place::Function(into),
        frame.function_lowered(parts, f, into) is Ok,
    ensures
        ({
            let after = frame.function_lowered(parts, f, into)->Ok_0;
            &&& holds(after, parts)
            &&& is_even(after)
            &&& forall|r: RegionId|
                r.0 < base.regions.len() && r.0 != into.0 ==> #[trigger] after.region(r)
                    == parts.region(r)
        }),
{
    let store = frame.store;
    let function = store.function(f);
    let types = store.params(f);
    let name = store.name(function.name);
    assert(is_placed(frame, base, f));
    assert(store.function_fits(f.0 as int));
    let params = parts.function(into).params;
    assert(params == base.function(into).params);
    a_run_reads_the_same(parts, base, params);
    let values = parts.values(params);
    let locals = frame.params_bound(name, types, values, types.len())->Ok_0;
    let opened = Draft::opened(parts, params);
    let (draft, answer) = frame.expr_lowered(opened, function.body, locals)->Ok_0;
    let entry = store.entry == Some(f);
    let (said, leaves) = frame.answered(draft, answer, entry)->Ok_0;
    let ended = said.hold(leaves);
    let terminator = said.leaving(Exit::Return, leaves.len());
    let after = ended.as_body(into, terminator);
    parameters_are_bound(frame, parts, base, name, types, values, types.len());
    fits_a_base(frame, base, parts);
    lowering_goes_on(frame, opened, function.body, locals);
    if answer is None && entry {
        a_push_goes_on(
            draft,
            Op::Constant { class: Class::Word, value: super::model::wrapped(Class::Word, 0) },
            seq![Class::Word],
        );
        going_on_chains(opened, draft, said);
    }
    assert(goes_on(opened, said));
    assert(ended.program.extends(said.program));
    super::builder::growth_chains(parts, said.program, ended.program);
    an_extension_holds(ended.program, parts);
    holding_chains(ended.program, parts, base);
    a_body_is_held(base, ended, into, terminator);
    holding_chains(after, ended.program, parts);
    assert(base.functions[into.0 as int].body.0 == into.0);
    assert forall|r: RegionId|
        r.0 < base.regions.len() && r.0 != into.0 implies #[trigger] after.region(r)
        == parts.region(r) by {
        assert(ended.program.regions[r.0 as int] == parts.regions[r.0 as int]);
    }
}

pub(super) proof fn a_program_holds_itself(parts: Parts)
    ensures
        holds(parts, parts),
{
}

/// Whether the first functions have their bodies.
spec fn has_bodies(frame: FrameForm, parts: Parts, base: Parts, count: nat) -> bool {
    &&& holds(parts, base)
    &&& is_even(parts)
    &&& forall|f: barb::FnId|
        f.0 < count ==> ((#[trigger] frame.places[f.0 as int]) matches Place::Function(into)
            ==> exists|from: Parts| #[trigger]
            lowered_from(frame, parts, base, f, into, from))
}

/// Every function that became one is given its body.
proof fn bodies_are_lowered(frame: FrameForm, base: Parts, count: nat)
    requires
        is_set(frame, base),
        are_apart(frame.places),
        is_even(base),
        count <= frame.store.functions.len(),
        frame.functions_lowered(base, count) is Ok,
    ensures
        has_bodies(frame, frame.functions_lowered(base, count)->Ok_0, base, count),
    decreases count,
{
    if count == 0 {
        a_program_holds_itself(base);
    } else {
        let fewer = (count - 1) as nat;
        let id = barb::FnId(fewer as u32);
        bodies_are_lowered(frame, base, fewer);
        let before = frame.functions_lowered(base, fewer)->Ok_0;
        let after = frame.functions_lowered(base, count)->Ok_0;
        assert(is_placed(frame, base, id));
        if let Place::Function(into) = frame.places[id.0 as int] {
            a_lowered_function_is_held(frame, base, before, id, into);
            a_program_holds_itself(after);
            assert(lowered_from(frame, after, base, id, into, before));
            holding_chains(after, before, base);
            assert forall|f: barb::FnId| f.0 < count && (
            #[trigger] frame.places[f.0 as int]) is Function implies exists|from: Parts|
                #[trigger] lowered_from(
                    frame,
                    after,
                    base,
                    f,
                    frame.places[f.0 as int]->Function_0,
                    from,
                ) by {
                if f.0 < fewer {
                    let other = frame.places[f.0 as int]->Function_0;
                    assert(is_placed(frame, base, f));
                    let from = choose|from: Parts| #[trigger]
                        lowered_from(frame, before, base, f, other, from);
                    let body = base.function(other).body;
                    assert(base.functions[other.0 as int].body.0 == other.0);
                    assert(frame.places[f.0 as int]->Function_0
                        != frame.places[fewer as int]->Function_0);
                    assert(after.region(body) == before.region(body));
                    holding_chains(
                        after,
                        before,
                        frame.function_lowered(from, f, other)->Ok_0,
                    );
                    assert(lowered_from(frame, after, base, f, other, from));
                }
            }
        } else {
            assert(after == before);
            assert forall|f: barb::FnId| f.0 < count && (
            #[trigger] frame.places[f.0 as int]) is Function implies exists|from: Parts|
                #[trigger] lowered_from(
                    frame,
                    after,
                    base,
                    f,
                    frame.places[f.0 as int]->Function_0,
                    from,
                ) by {
                assert(f.0 < fewer);
            }
        }
    }
}

/// Everything a whole program is lowered by.
pub open spec fn frame_of(store: barb::Store) -> FrameForm {
    let classes = lower::classes_found(store, store.types.len())->Ok_0;
    let entry = store.entry->Some_0;
    let name = store.name(store.function(entry).name);
    FrameForm {
        store,
        facts: store.facts(),
        classes,
        places: lower::declared(
            store,
            store.facts(),
            classes,
            entry,
            Parts::nothing().with_function(name, seq![], seq![Class::Word]),
            store.functions.len(),
        )->Ok_0.1,
    }
}

/// What starting a lowered program comes to, where the program it was lowered
/// from comes to `outcome`: the number it answers, a status of nought where
/// what it answers carries nothing, or the routine that stands for what it
/// asks for, with the numbers it asks for it with.
pub open spec fn leaves_with(store: barb::Store, outcome: Outcome) -> Left {
    let frame = frame_of(store);
    match outcome {
        Outcome::Answers(tree) => {
            let result = store.function(store.entry->Some_0).result;
            Left::Answers(
                if lower::is_erased(store, result) {
                    seq![0nat]
                } else {
                    seq![count(store, result, tree)]
                },
            )
        },
        Outcome::Asks(f, args) => Left::Asks(
            frame.places[f.0 as int]->Routine_0,
            all_words(frame, store.params(f), args, store.params(f).len()),
        ),
    }
}

/// What a program is lowered by is as it should be, and what it is lowered
/// to has every body.
pub(super) proof fn everything_is_set(store: barb::Store, parts: Parts) -> (base: Parts)
    requires
        store.wf(),
        store.typed(),
        can_start(store),
        lower::lowered(store, store.facts()) == Ok::<_, Seq<char>>(parts),
    ensures
        is_set(frame_of(store), base),
        is_whole(frame_of(store), parts, base),
        frame_of(store).places[store.entry->Some_0.0 as int] == Place::Function(FunctionId(0)),
        parts.complaint(0) is None,
        are_apart(frame_of(store).places),
        is_even(base),
        frame_of(store).functions_lowered(base, store.functions.len()) == Ok::<_, Seq<char>>(
            parts,
        ),
        lower::declared(
            store,
            store.facts(),
            frame_of(store).classes,
            store.entry->Some_0,
            Parts::nothing().with_function(
                store.name(store.function(store.entry->Some_0).name),
                seq![],
                seq![Class::Word],
            ),
            store.functions.len(),
        ) == Ok::<_, Seq<char>>((base, frame_of(store).places)),
{
    let frame = frame_of(store);
    let entry = store.entry->Some_0;
    let name = store.name(store.function(entry).name);
    let start = Parts::nothing().with_function(name, seq![], seq![Class::Word]);
    let (base, places) = lower::declared(
        store,
        store.facts(),
        frame.classes,
        entry,
        start,
        store.functions.len(),
    )->Ok_0;
    classes_are_as_many(store, store.types.len());
    the_entry_is_placed(frame, name);
    declarations_are_placed(frame, entry, start, store.functions.len());
    assert forall|f: barb::FnId| f.0 < store.functions.len() implies #[trigger] is_placed(
        frame,
        base,
        f,
    ) by {
        assert(is_place_of(frame, base, barb::FnId(f.0 as int as u32), places[f.0 as int]));
    }
    assert(is_set(frame, base));
    bodies_are_lowered(frame, base, store.functions.len());
    assert(is_whole(frame, parts, base));
    assert(frame.places[entry.0 as int] == Place::Function(FunctionId(0))) by {
        the_entry_goes_first(frame, entry, start, store.functions.len());
    }
    base
}

/// Whether what a program is lowered to does what the program does: there is
/// a width of word from which on every machine comes to what the program
/// does, and a routine that is asked for is named as what the program asks
/// for is.
pub open spec fn does_the_same(store: barb::Store, parts: Parts, outcome: Outcome) -> bool {
    &&& exists|wide: nat, long: nat| #[trigger]
        comes_to(parts, wide, long, leaves_with(store, outcome))
    &&& outcome matches Outcome::Asks(f, _) ==> leaves_with(store, outcome) matches Left::Asks(
        platform,
        _,
    ) && {
        &&& platform.0 < parts.platform.len()
        &&& parts.name(parts.routine(platform).name) == lower::routine_name(
            store.name(store.function(f).name),
        )
    }
}

/// Whether what a program is lowered to does what the program does, whenever
/// it can be started and comes to anything.
pub open spec fn is_faithful(store: barb::Store, parts: Parts) -> bool {
    can_start(store) ==> forall|args: Seq<Tree>, steps: nat|
        meaning::are_of(store, args, store.params(store.entry->Some_0)) && (#[trigger]
        store.meaning(store.function(store.entry->Some_0).body, args, steps)) is Some
            ==> does_the_same(
            store,
            parts,
            store.meaning(store.function(store.entry->Some_0).body, args, steps)->Some_0,
        )
}

/// A program that is typed is lowered to one that does the same.
pub proof fn a_typed_program_is_lowered_faithfully(store: barb::Store, parts: Parts)
    requires
        store.wf(),
        store.typed(),
        lower::lowered(store, store.facts()) == Ok::<_, Seq<char>>(parts),
    ensures
        is_faithful(store, parts),
{
    if can_start(store) {
        let body = store.function(store.entry->Some_0).body;
        assert forall|args: Seq<Tree>, steps: nat|
            meaning::are_of(store, args, store.params(store.entry->Some_0)) && (#[trigger]
            store.meaning(body, args, steps)) is Some implies does_the_same(
            store,
            parts,
            store.meaning(body, args, steps)->Some_0,
        ) by {
            what_is_lowered_computes_the_same(store, parts, args, steps);
        }
    }
}

/// What is lowered computes what was written. Wherever a program's entry
/// comes to something, there is a width of word from which on every machine
/// that runs what it is lowered to comes to the same: it answers that number,
/// or asks the platform for that routine, which is named as what the program
/// asks for is.
pub proof fn what_is_lowered_computes_the_same(
    store: barb::Store,
    parts: Parts,
    args: Seq<Tree>,
    steps: nat,
)
    requires
        store.wf(),
        store.typed(),
        can_start(store),
        lower::lowered(store, store.facts()) == Ok::<_, Seq<char>>(parts),
        meaning::are_of(store, args, store.params(store.entry->Some_0)),
        store.meaning(store.function(store.entry->Some_0).body, args, steps) is Some,
    ensures
        does_the_same(
            store,
            parts,
            store.meaning(store.function(store.entry->Some_0).body, args, steps)->Some_0,
        ),
{
    let frame = frame_of(store);
    let entry = store.entry->Some_0;
    let base = everything_is_set(store, parts);
    let least = the_first_run(store, args, steps);
    meaning::a_term_means_one_thing(store, store.function(entry).body, args, steps, least);
    let (wide, long) = a_function_computes(frame, parts, base, entry, args, least, least);
    let outcome = store.meaning(store.function(entry).body, args, steps)->Some_0;
    let types = store.params(entry);
    let result = store.function(entry).result;
    assert(is_placed(frame, base, entry));
    assert(store.function_fits(entry.0 as int));
    assert forall|i: int| 0 <= i < types.len() implies (#[trigger] types[i]).0
        < store.types.len() && lower::is_erased(store, types[i]) by {
        assert(types[i] == store.types_pool[store.function(entry).params.start + i]);
        assert(lower::is_erased(store, store.params(entry)[i]));
    }
    nothing_takes_no_words(frame, types, types.len());
    words_are_classed(frame, types, args, types.len());
    assert(all_words(frame, types, args, types.len()) =~= seq![]);
    a_type_is_a_number_or_nothing(frame, result);
    if store.is_number(result) {
        a_number_is_not_nothing(store, result);
    }
    assert(function_left(frame, entry, outcome) == leaves_with(store, outcome));
    assert(comes_to(parts, wide, long, leaves_with(store, outcome)));
    if let Outcome::Asks(f, asked) = outcome {
        assert(store.is_kept(entry));
        meaning::running_keeps_types(
            store,
            store.function(entry).body,
            types,
            result,
            !store.works(entry),
            args,
            steps,
        );
        assert(is_placed(frame, base, f));
        assert(facts::known_of(frame.facts, f) is None) by {
            assert(frame.facts[f.0 as int] == store.operation(barb::FnId(f.0)));
        }
        assert(frame.places[f.0 as int] is Routine);
    }
}

/// What carries nothing is one value.
proof fn nothing_is_one_value(store: barb::Store, id: barb::TypeId, left: Tree, right: Tree)
    requires
        store.wf(),
        id.0 < store.types.len(),
        lower::is_erased(store, id),
        constant::typed(store, id, left),
        constant::typed(store, id, right),
    ensures
        left == right,
{
    assert(store.type_fits(id.0 as int));
    assert(store.ctors_of(id).len() == store.type_(id).ctors.len);
    assert(left.ctor == right.ctor);
    let ctor = left.ctor;
    assert(store.ctor_fits(ctor.0 as int));
    assert(store.ctors_of(id)[0] == store.ctor(ctor));
    assert(left.fields =~= right.fields);
}

/// The fewest steps that tell what the entry comes to.
proof fn the_first_run(store: barb::Store, args: Seq<Tree>, steps: nat) -> (least: nat)
    requires
        store.wf(),
        can_start(store),
        meaning::are_of(store, args, store.params(store.entry->Some_0)),
        store.meaning(store.function(store.entry->Some_0).body, args, steps) is Some,
    ensures
        store.meaning(store.function(store.entry->Some_0).body, args, least) is Some,
        is_first(store, least),
    decreases steps,
{
    let entry = store.entry->Some_0;
    let body = store.function(entry).body;
    let types = store.params(entry);
    assert(store.function_fits(entry.0 as int));
    if exists|fewer: nat| fewer < steps && (#[trigger] store.meaning(body, args, fewer)) is Some {
        let fewer = choose|fewer: nat|
            fewer < steps && (#[trigger] store.meaning(body, args, fewer)) is Some;
        the_first_run(store, args, fewer)
    } else {
        assert forall|other: Seq<Tree>, fuel: nat|
            fuel < steps && meaning::are_of(store, other, types) implies (#[trigger]
        store.meaning(body, other, fuel)) is None by {
            assert forall|i: int| 0 <= i < types.len() implies other[i] == #[trigger] args[i] by {
                assert(types[i] == store.types_pool[store.function(entry).params.start + i]);
                assert(lower::is_erased(store, store.params(entry)[i]));
                assert(constant::typed(store, types[i], other[i]));
                assert(constant::typed(store, types[i], args[i]));
                nothing_is_one_value(store, types[i], other[i], args[i]);
            }
            assert(other =~= args);
        }
        steps
    }
}

/// Whether starting a program comes to `left`, wherever words are `wide` and
/// there are `long` steps.
pub open spec fn comes_to(parts: Parts, wide: nat, long: nat, left: Left) -> bool {
    forall|host: Host, fuel: nat|
        host.waits() && host.size >= wide && fuel >= long ==> #[trigger] parts.function_runs(
            host,
            FunctionId(0),
            seq![],
            fuel,
        ) == Some(left)
}

proof fn the_entry_goes_first(
    frame: FrameForm,
    entry: barb::FnId,
    start: Parts,
    count: nat,
)
    requires
        count <= frame.store.functions.len() <= u32::MAX,
        lower::declared(frame.store, frame.facts, frame.classes, entry, start, count) is Ok,
    ensures
        ({
            let places = lower::declared(
                frame.store,
                frame.facts,
                frame.classes,
                entry,
                start,
                count,
            )->Ok_0.1;
            &&& places.len() == count
            &&& entry.0 < count ==> places[entry.0 as int] == Place::Function(FunctionId(0))
        }),
    decreases count,
{
    if count > 0 {
        the_entry_goes_first(frame, entry, start, (count - 1) as nat);
    }
}

} // verus!
